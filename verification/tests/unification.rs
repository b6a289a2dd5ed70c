use ccx::unify::{compute_mgu_terms, occurs, Term};

fn var(x: u32) -> Term {
    Term::Var(x)
}
fn sym(g: u32) -> Term {
    Term::Symbol(g)
}
fn app(a: Term, b: Term) -> Term {
    Term::App(Box::new(a), Box::new(b))
}

fn same(a: &Term, b: &Term) -> bool {
    match (a, b) {
        (Term::App(a1, a2), Term::App(b1, b2)) => same(a1, b1) && same(a2, b2),
        (Term::Var(x), Term::Var(y)) => x == y,
        (Term::Symbol(f), Term::Symbol(g)) => f == g,
        (Term::Number(n), Term::Number(m)) => n == m,
        _ => false,
    }
}

fn resolve(mu: &Vec<(u32, Term)>, t: &Term) -> Term {
    match t {
        Term::Var(y) => match mu.iter().find(|(z, _)| z == y) {
            Some((_, u)) => resolve(mu, u),
            None => var(*y),
        },
        Term::App(a, b) => app(resolve(mu, a), resolve(mu, b)),
        Term::Symbol(g) => sym(*g),
        Term::Number(n) => Term::Number(*n),
    }
}

#[test]
fn mgu_binds_variable_to_constant() {
    // g x = g a
    let t = app(sym(1), var(10));
    let s = app(sym(1), sym(2));
    let mu = compute_mgu_terms(&t, &s).unwrap();
    assert_eq!(mu.len(), 1);
    assert_eq!(mu[0].0, 10);
    assert!(same(&mu[0].1, &sym(2)));
    assert!(same(&resolve(&mu, &t), &resolve(&mu, &s)));
}

#[test]
fn mgu_resolves_chains_of_bindings() {
    // f x y = f y a
    let t = app(app(sym(1), var(10)), var(11));
    let s = app(app(sym(1), var(11)), sym(2));
    let mu = compute_mgu_terms(&t, &s).unwrap();
    assert!(same(&resolve(&mu, &t), &resolve(&mu, &s)));
    assert!(same(&resolve(&mu, &var(10)), &sym(2)));
}

#[test]
fn mgu_symbol_clash() {
    assert!(compute_mgu_terms(&app(sym(1), var(3)), &app(sym(2), var(3))).is_none());
    assert!(compute_mgu_terms(&Term::Number(1), &Term::Number(2)).is_none());
    assert!(compute_mgu_terms(&sym(1), &app(sym(1), sym(1))).is_none());
}

#[test]
fn mgu_occurs_check() {
    // x = g x has no finite unifier
    assert!(compute_mgu_terms(&var(10), &app(sym(1), var(10))).is_none());
}

#[test]
fn mgu_identical_terms() {
    let t = app(app(sym(1), var(10)), Term::Number(4));
    let mu = compute_mgu_terms(&t, &t).unwrap();
    assert!(mu.is_empty());
}

#[test]
fn mgu_gives_up_on_swapped_variables() {
    // app(y, x) = app(x, y): after binding x := y, the equation y = x meets the
    // occurs check through that binding and the procedure gives up.
    assert!(compute_mgu_terms(&app(var(11), var(10)), &app(var(10), var(11))).is_none());
}

#[test]
fn occurs_follows_bindings() {
    let mu = vec![(10u32, app(sym(1), var(11)))];
    assert!(occurs(&mu, &var(10), &11));
    assert!(!occurs(&mu, &var(10), &10));
    assert!(occurs(&mu, &app(var(12), var(10)), &11));
    assert!(!occurs(&mu, &sym(1), &11));
}

#[test]
fn mgu_binds_a_variable_at_the_root() {
    let s = app(sym(2), var(3));
    let mu = compute_mgu_terms(&var(1), &s).unwrap();
    assert_eq!(mu.len(), 1);
    assert_eq!(mu[0].0, 1);
    assert!(same(&mu[0].1, &s));
    let mu = compute_mgu_terms(&Term::Number(7), &var(4)).unwrap();
    assert_eq!(mu.len(), 1);
    assert_eq!(mu[0].0, 4);
    assert!(same(&mu[0].1, &Term::Number(7)));
    let mu = compute_mgu_terms(&var(1), &var(2)).unwrap();
    assert_eq!(mu.len(), 1);
    assert!(same(&mu[0].1, &var(2)));
}

#[test]
fn mgu_head_clashes_fail() {
    assert!(compute_mgu_terms(&app(sym(1), sym(1)), &Term::Number(1)).is_none());
    assert!(compute_mgu_terms(&sym(1), &Term::Number(1)).is_none());
    assert!(compute_mgu_terms(&sym(1), &sym(2)).is_none());
}
