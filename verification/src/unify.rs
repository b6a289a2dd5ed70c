use vstd::prelude::*;
use crate::slots::Slot;
use crate::analysis::Sym;

verus! {

/// A term of the applicative language: a binary application, a variable, a function
/// symbol, or a number.
pub enum Term {
    App(Box<Term>, Box<Term>),
    Var(Slot),
    Symbol(Sym),
    Number(u32),
}

/// Bindings of variables to terms, in the order they were made. A variable is bound
/// to the term of its first binding.
pub type Bindings = Seq<(Slot, Term)>;

/// The term bound to `x` by its first binding, if any.
pub open spec fn lookup(mu: Bindings, x: Slot) -> Option<Term>
    decreases mu.len(),
{
    if mu.len() == 0 {
        None
    } else if mu[0].0 == x {
        Some(mu[0].1)
    } else {
        lookup(mu.drop_first(), x)
    }
}

/// Following the bindings from `t` takes fewer than `f` steps along every path.
pub open spec fn depth_ok(mu: Bindings, t: Term, f: nat) -> bool
    decreases f, t,
{
    match t {
        Term::Var(y) => match lookup(mu, y) {
            Some(u) => f > 0 && depth_ok(mu, u, (f - 1) as nat),
            None => true,
        },
        Term::App(a, b) => depth_ok(mu, *a, f) && depth_ok(mu, *b, f),
        _ => true,
    }
}

/// Every bound term can be followed to the end within `f` steps: the bindings have
/// no cycle.
pub open spec fn acyclic(mu: Bindings, f: nat) -> bool {
    forall|j: int| 0 <= j < mu.len() ==> depth_ok(mu, #[trigger] mu[j].1, f)
}

/// `t` with every bound variable replaced, within `f` steps, by the resolved term it is
/// bound to.
pub open spec fn resolve(mu: Bindings, t: Term, f: nat) -> Term
    decreases f, t,
{
    match t {
        Term::Var(y) => match lookup(mu, y) {
            Some(u) => if f > 0 {
                resolve(mu, u, (f - 1) as nat)
            } else {
                t
            },
            None => t,
        },
        Term::App(a, b) => Term::App(
            Box::new(resolve(mu, *a, f)),
            Box::new(resolve(mu, *b, f)),
        ),
        _ => t,
    }
}

/// The unbound variable `x` is reached from `t` through the bindings (within `f` steps).
pub open spec fn occurs_within(mu: Bindings, t: Term, x: Slot, f: nat) -> bool
    decreases f, t,
{
    match t {
        Term::Var(y) => match lookup(mu, y) {
            Some(u) => f > 0 && occurs_within(mu, u, x, (f - 1) as nat),
            None => x == y,
        },
        Term::App(a, b) => occurs_within(mu, *a, x, f) || occurs_within(mu, *b, x, f),
        _ => false,
    }
}

/// Following the bindings from `t` comes to an end.
pub open spec fn terminates(mu: Bindings, t: Term) -> bool {
    exists|f: nat| #[trigger] depth_ok(mu, t, f)
}

/// Enough fuel to follow the bindings from `t` to the end.
pub open spec fn fuel_for(mu: Bindings, t: Term) -> nat {
    choose|f: nat| #[trigger] depth_ok(mu, t, f)
}

/// The variable `x` is reached from `t` through the bindings.
pub open spec fn occurs_spec(mu: Bindings, t: Term, x: Slot) -> bool {
    occurs_within(mu, t, x, fuel_for(mu, t))
}

/// Enough fuel to resolve any term under acyclic bindings.
pub open spec fn binding_fuel(mu: Bindings) -> nat {
    (choose|f: nat| #[trigger] acyclic(mu, f)) + 1
}

/// `t` with all bound variables replaced, the bindings being acyclic.
pub open spec fn fully_resolved(mu: Bindings, t: Term) -> Term {
    resolve(mu, t, binding_fuel(mu))
}

/// The variables of a term.
pub open spec fn vars(t: Term) -> Set<Slot>
    decreases t,
{
    match t {
        Term::Var(y) => Set::empty().insert(y),
        Term::App(a, b) => vars(*a).union(vars(*b)),
        _ => Set::empty(),
    }
}

/// The size of `t` once its bound variables are replaced (within `f` steps).
pub open spec fn rsize(mu: Bindings, t: Term, f: nat) -> nat
    decreases f, t,
{
    match t {
        Term::Var(y) => match lookup(mu, y) {
            Some(u) => if f > 0 {
                rsize(mu, u, (f - 1) as nat)
            } else {
                1
            },
            None => 1,
        },
        Term::App(a, b) => 1 + rsize(mu, *a, f) + rsize(mu, *b, f),
        _ => 1,
    }
}

/// How many bindings are followed from the head of `t` before a non-variable or an
/// unbound variable shows up (within `f` steps).
pub open spec fn chain(mu: Bindings, t: Term, f: nat) -> nat
    decreases f,
{
    match t {
        Term::Var(y) => match lookup(mu, y) {
            Some(u) => if f > 0 {
                1 + chain(mu, u, (f - 1) as nat)
            } else {
                0
            },
            None => 0,
        },
        _ => 0,
    }
}

/// The total resolved size of a list of equations.
pub open spec fn eqs_size(mu: Bindings, eqs: Seq<(Term, Term)>, f: nat) -> nat
    decreases eqs.len(),
{
    if eqs.len() == 0 {
        0
    } else {
        eqs_size(mu, eqs.drop_last(), f) + rsize(mu, eqs.last().0, f) + rsize(mu, eqs.last().1, f)
    }
}

/// The total head chain length of a list of equations.
pub open spec fn eqs_chain(mu: Bindings, eqs: Seq<(Term, Term)>, f: nat) -> nat
    decreases eqs.len(),
{
    if eqs.len() == 0 {
        0
    } else {
        eqs_chain(mu, eqs.drop_last(), f) + chain(mu, eqs.last().0, f) + chain(mu, eqs.last().1, f)
    }
}

/// Every equation of the list has equal sides once resolved.
pub open spec fn all_solved(ms: Bindings, eqs: Seq<(Term, Term)>, g: nat) -> bool {
    forall|i: int| 0 <= i < eqs.len() ==> resolve(ms, (#[trigger] eqs[i]).0, g) == resolve(ms, eqs[i].1, g)
}

/// `ms` extends the bindings `mu` and is acyclic within `fs` steps.
pub open spec fn is_extension(mu: Bindings, ms: Bindings, fs: nat) -> bool {
    &&& mu.len() <= ms.len()
    &&& ms.subrange(0, mu.len() as int) == mu
    &&& acyclic(ms, fs)
}

/// Each variable is bound at most once.
pub open spec fn keys_unique(mu: Bindings) -> bool {
    forall|i: int, j: int| 0 <= i < j < mu.len() ==> #[trigger] mu[i].0 != #[trigger] mu[j].0
}

/// The bound variables.
pub open spec fn keys(mu: Bindings) -> Seq<Slot> {
    mu.map_values(|b: (Slot, Term)| b.0)
}

// ---------------------------------------------------------------------------
// Lemmas on bindings

pub proof fn lemma_lookup_push(mu: Bindings, b: (Slot, Term), x: Slot)
    ensures
        lookup(mu.push(b), x) == (match lookup(mu, x) {
            Some(u) => Some(u),
            None => if b.0 == x {
                Some(b.1)
            } else {
                None
            },
        }),
    decreases mu.len(),
{
    let m = mu.push(b);
    if mu.len() == 0 {
        assert(m.drop_first().len() == 0);
        assert(lookup(m.drop_first(), x) is None);
        assert(m[0] == b);
    } else {
        assert(m.drop_first() =~= mu.drop_first().push(b));
        assert(m[0] == mu[0]);
        lemma_lookup_push(mu.drop_first(), b, x);
    }
}

/// A binding looked up is one of the bindings.
pub proof fn lemma_lookup_some(mu: Bindings, x: Slot)
    requires
        lookup(mu, x) is Some,
    ensures
        exists|j: int| 0 <= j < mu.len() && #[trigger] mu[j] == (x, lookup(mu, x)->0),
    decreases mu.len(),
{
    if mu[0].0 != x {
        lemma_lookup_some(mu.drop_first(), x);
        let j = choose|j: int|
            0 <= j < mu.drop_first().len() && #[trigger] mu.drop_first()[j] == (x, lookup(
                mu.drop_first(),
                x,
            )->0);
        assert(mu[j + 1] == mu.drop_first()[j]);
    } else {
        assert(mu[0] == (x, lookup(mu, x)->0));
    }
}

/// A variable with a binding is looked up successfully.
pub proof fn lemma_lookup_key(mu: Bindings, x: Slot, j: int)
    requires
        0 <= j < mu.len(),
        mu[j].0 == x,
    ensures
        lookup(mu, x) is Some,
    decreases mu.len(),
{
    if mu[0].0 != x {
        assert(mu.drop_first()[j - 1] == mu[j]);
        lemma_lookup_key(mu.drop_first(), x, j - 1);
    }
}

/// Lookups that succeed in a prefix succeed the same way in the whole.
pub proof fn lemma_lookup_prefix(mu: Bindings, ms: Bindings, x: Slot)
    requires
        mu.len() <= ms.len(),
        ms.subrange(0, mu.len() as int) == mu,
        lookup(mu, x) is Some,
    ensures
        lookup(ms, x) == lookup(mu, x),
    decreases mu.len(),
{
    assert(ms[0] == mu[0]);
    if mu[0].0 != x {
        assert(ms.drop_first().subrange(0, mu.drop_first().len() as int) =~= mu.drop_first());
        lemma_lookup_prefix(mu.drop_first(), ms.drop_first(), x);
    }
}

// ---------------------------------------------------------------------------
// Lemmas on fuel

pub proof fn lemma_fuel_mono(mu: Bindings, t: Term, f: nat, g: nat, x: Slot)
    requires
        depth_ok(mu, t, f),
        f <= g,
    ensures
        depth_ok(mu, t, g),
        resolve(mu, t, f) == resolve(mu, t, g),
        occurs_within(mu, t, x, f) == occurs_within(mu, t, x, g),
        rsize(mu, t, f) == rsize(mu, t, g),
        chain(mu, t, f) == chain(mu, t, g),
    decreases f, t,
{
    match t {
        Term::Var(y) => match lookup(mu, y) {
            Some(u) => {
                lemma_fuel_mono(mu, u, (f - 1) as nat, (g - 1) as nat, x);
            },
            None => {},
        },
        Term::App(a, b) => {
            lemma_fuel_mono(mu, *a, f, g, x);
            lemma_fuel_mono(mu, *b, f, g, x);
        },
        _ => {},
    }
}

pub proof fn lemma_rsize_pos(mu: Bindings, t: Term, f: nat)
    ensures
        rsize(mu, t, f) >= 1,
    decreases f, t,
{
    match t {
        Term::Var(y) => match lookup(mu, y) {
            Some(u) => {
                if f > 0 {
                    lemma_rsize_pos(mu, u, (f - 1) as nat);
                }
            },
            None => {},
        },
        _ => {},
    }
}

/// Bound variables, each bound once and all taken from `v`, are no more than `v` has.
pub proof fn lemma_keys_len(mu: Bindings, v: Set<Slot>)
    requires
        v.finite(),
        keys_unique(mu),
        forall|j: int| 0 <= j < mu.len() ==> v.contains(#[trigger] mu[j].0),
    ensures
        mu.len() <= v.len(),
{
    let ks = keys(mu);
    assert(ks.no_duplicates()) by {
        assert forall|i: int, j: int| 0 <= i < ks.len() && 0 <= j < ks.len() && i != j implies ks[i]
            != ks[j] by {
            if i < j {
                assert(mu[i].0 != mu[j].0);
            } else {
                assert(mu[j].0 != mu[i].0);
            }
        }
    }
    ks.unique_seq_to_set();
    assert(ks.to_set().subset_of(v)) by {
        assert forall|k: Slot| ks.to_set().contains(k) implies v.contains(k) by {
            let i = choose|i: int| 0 <= i < ks.len() && ks[i] == k;
            assert(mu[i].0 == k);
        }
    }
    vstd::set_lib::lemma_len_subset(ks.to_set(), v);
}

/// Under acyclic bindings every term terminates with one more step.
pub proof fn lemma_acyclic_depth(mu: Bindings, f: nat, t: Term)
    requires
        acyclic(mu, f),
    ensures
        depth_ok(mu, t, f + 1),
    decreases t,
{
    match t {
        Term::Var(y) => match lookup(mu, y) {
            Some(u) => {
                lemma_lookup_some(mu, y);
                let j = choose|j: int| 0 <= j < mu.len() && #[trigger] mu[j] == (y, u);
                assert(depth_ok(mu, mu[j].1, f));
            },
            None => {},
        },
        Term::App(a, b) => {
            lemma_acyclic_depth(mu, f, *a);
            lemma_acyclic_depth(mu, f, *b);
        },
        _ => {},
    }
}

/// Adding a binding `x := s` for an unbound `x` leaves every term that does not reach
/// `x` as it was.
pub proof fn lemma_extend_unreached(mu: Bindings, x: Slot, s: Term, t: Term, g: nat, y: Slot)
    requires
        lookup(mu, x) is None,
        depth_ok(mu, t, g),
        !occurs_within(mu, t, x, g),
    ensures
        depth_ok(mu.push((x, s)), t, g),
        resolve(mu.push((x, s)), t, g) == resolve(mu, t, g),
        occurs_within(mu.push((x, s)), t, y, g) == occurs_within(mu, t, y, g),
    decreases g, t,
{
    let m2 = mu.push((x, s));
    match t {
        Term::Var(z) => {
            lemma_lookup_push(mu, (x, s), z);
            match lookup(mu, z) {
                Some(u) => {
                    lemma_extend_unreached(mu, x, s, u, (g - 1) as nat, y);
                },
                None => {},
            }
        },
        Term::App(a, b) => {
            lemma_extend_unreached(mu, x, s, *a, g, y);
            lemma_extend_unreached(mu, x, s, *b, g, y);
        },
        _ => {},
    }
}

/// Adding a binding `x := s` for an unbound `x`, where `s` terminates in `h` steps
/// under the new bindings, makes a term that terminated in `g` steps terminate in
/// `g + h + 1`.
pub proof fn lemma_extend_depth(mu: Bindings, x: Slot, s: Term, t: Term, g: nat, h: nat)
    requires
        lookup(mu, x) is None,
        depth_ok(mu, t, g),
        depth_ok(mu.push((x, s)), s, h),
    ensures
        depth_ok(mu.push((x, s)), t, g + h + 1),
    decreases g, t,
{
    let m2 = mu.push((x, s));
    match t {
        Term::Var(z) => {
            lemma_lookup_push(mu, (x, s), z);
            match lookup(mu, z) {
                Some(u) => {
                    lemma_extend_depth(mu, x, s, u, (g - 1) as nat, h);
                },
                None => {
                    if z == x {
                        lemma_fuel_mono(m2, s, h, g + h, x);
                    }
                },
            }
        },
        Term::App(a, b) => {
            lemma_extend_depth(mu, x, s, *a, g, h);
            lemma_extend_depth(mu, x, s, *b, g, h);
        },
        _ => {},
    }
}

pub proof fn lemma_vars_finite(t: Term)
    ensures
        vars(t).finite(),
    decreases t,
{
    match t {
        Term::App(a, b) => {
            lemma_vars_finite(*a);
            lemma_vars_finite(*b);
        },
        _ => {},
    }
}

/// Without bindings, `x` is reached from `t` exactly when it is one of its variables.
pub proof fn lemma_occurs_unbound(t: Term, x: Slot, f: nat)
    ensures
        occurs_within(Seq::empty(), t, x, f) == vars(t).contains(x),
    decreases t,
{
    match t {
        Term::App(a, b) => {
            lemma_occurs_unbound(*a, x, f);
            lemma_occurs_unbound(*b, x, f);
        },
        _ => {},
    }
}

/// Two terms whose heads can never be made equal: neither is a variable, and they are
/// built by different constructors, or are different symbols or different numbers.
pub open spec fn head_clash(t: Term, s: Term) -> bool {
    match (t, s) {
        (Term::Var(_), _) => false,
        (_, Term::Var(_)) => false,
        (Term::App(_, _), Term::App(_, _)) => false,
        (Term::Symbol(f), Term::Symbol(g)) => f != g,
        (Term::Number(n), Term::Number(m)) => n != m,
        _ => true,
    }
}

/// Whatever extends `mu` and solves `eqs` also solves `t0 = s0`.
pub open spec fn sound_inv(mu: Bindings, eqs: Seq<(Term, Term)>, t0: Term, s0: Term) -> bool {
    forall|ms: Bindings, fs: nat|
        #[trigger] is_extension(mu, ms, fs) ==> (all_solved(ms, eqs, fs + 1) ==> resolve(
            ms,
            t0,
            fs + 1,
        ) == resolve(ms, s0, fs + 1))
}

/// Replacing the last equation by equations that imply it keeps the soundness invariant.
proof fn lemma_sound_replace(
    mu: Bindings,
    rest: Seq<(Term, Term)>,
    e: (Term, Term),
    tail: Seq<(Term, Term)>,
    t0: Term,
    s0: Term,
)
    requires
        sound_inv(mu, rest.push(e), t0, s0),
        forall|ms: Bindings, fs: nat|
            #[trigger] is_extension(mu, ms, fs) && all_solved(ms, tail, fs + 1) ==> resolve(
                ms,
                e.0,
                fs + 1,
            ) == resolve(ms, e.1, fs + 1),
    ensures
        sound_inv(mu, rest + tail, t0, s0),
{
    assert forall|ms: Bindings, fs: nat|
        #[trigger] is_extension(mu, ms, fs) && all_solved(ms, rest + tail, fs + 1) implies resolve(
            ms,
            t0,
            fs + 1,
        ) == resolve(ms, s0, fs + 1) by {
        if all_solved(ms, rest + tail, fs + 1) {
            assert forall|i: int| 0 <= i < tail.len() implies resolve(ms, (#[trigger] tail[i]).0, fs + 1)
                == resolve(ms, tail[i].1, fs + 1) by {
                assert((rest + tail)[rest.len() + i] == tail[i]);
            }
            assert forall|i: int| 0 <= i < rest.push(e).len() implies resolve(
                ms,
                (#[trigger] rest.push(e)[i]).0,
                fs + 1,
            ) == resolve(ms, rest.push(e)[i].1, fs + 1) by {
                if i < rest.len() {
                    assert((rest + tail)[i] == rest[i]);
                }
            }
        }
    }
}

/// A bound variable resolves as the term it is bound to.
proof fn lemma_resolve_bound(mu: Bindings, ms: Bindings, fs: nat, x: Slot)
    requires
        is_extension(mu, ms, fs),
        lookup(mu, x) is Some,
    ensures
        resolve(ms, Term::Var(x), fs + 1) == resolve(ms, lookup(mu, x)->0, fs + 1),
{
    lemma_lookup_prefix(mu, ms, x);
    let u = lookup(mu, x)->0;
    lemma_lookup_some(ms, x);
    let j = choose|j: int| 0 <= j < ms.len() && #[trigger] ms[j] == (x, lookup(ms, x)->0);
    assert(depth_ok(ms, ms[j].1, fs));
    lemma_fuel_mono(ms, u, fs, fs + 1, x);
}

/// Moving the equation `x = s` of an unbound `x` into the bindings keeps the soundness
/// invariant.
proof fn lemma_sound_bind(
    mu: Bindings,
    rest: Seq<(Term, Term)>,
    e: (Term, Term),
    x: Slot,
    s: Term,
    t0: Term,
    s0: Term,
)
    requires
        sound_inv(mu, rest.push(e), t0, s0),
        lookup(mu, x) is None,
        (e.0 == Term::Var(x) && e.1 == s) || (e.1 == Term::Var(x) && e.0 == s),
    ensures
        sound_inv(mu.push((x, s)), rest, t0, s0),
{
    let m2 = mu.push((x, s));
    assert forall|ms: Bindings, fs: nat|
        #[trigger] is_extension(m2, ms, fs) && all_solved(ms, rest, fs + 1) implies resolve(
            ms,
            t0,
            fs + 1,
        ) == resolve(ms, s0, fs + 1) by {
        assert(ms.subrange(0, mu.len() as int) =~= m2.subrange(0, mu.len() as int));
        assert(m2.subrange(0, mu.len() as int) =~= mu);
        assert(is_extension(mu, ms, fs));
        lemma_lookup_push(mu, (x, s), x);
        lemma_resolve_bound(m2, ms, fs, x);
        if all_solved(ms, rest, fs + 1) {
            assert forall|i: int| 0 <= i < rest.push(e).len() implies resolve(
                ms,
                (#[trigger] rest.push(e)[i]).0,
                fs + 1,
            ) == resolve(ms, rest.push(e)[i].1, fs + 1) by {
                if i < rest.len() {
                    assert(rest.push(e)[i] == rest[i]);
                }
            }
        }
    }
}

/// Binding an unbound `x` to a term that does not reach `x` keeps the bindings acyclic.
proof fn lemma_bind_acyclic(mu: Bindings, f: nat, x: Slot, s: Term)
    requires
        acyclic(mu, f),
        lookup(mu, x) is None,
        !occurs_within(mu, s, x, f + 1),
    ensures
        acyclic(mu.push((x, s)), 2 * f + 2),
        depth_ok(mu.push((x, s)), s, f + 1),
{
    let m2 = mu.push((x, s));
    lemma_acyclic_depth(mu, f, s);
    lemma_extend_unreached(mu, x, s, s, f + 1, x);
    assert forall|j: int| 0 <= j < m2.len() implies depth_ok(m2, #[trigger] m2[j].1, 2 * f + 2) by {
        if j < mu.len() {
            assert(m2[j] == mu[j]);
            assert(depth_ok(mu, mu[j].1, f));
            lemma_extend_depth(mu, x, s, mu[j].1, f, f + 1);
        } else {
            lemma_fuel_mono(m2, s, f + 1, 2 * f + 2, x);
        }
    }
}

proof fn lemma_eqs_push(mu: Bindings, eqs: Seq<(Term, Term)>, e: (Term, Term), f: nat)
    ensures
        eqs_size(mu, eqs.push(e), f) == eqs_size(mu, eqs, f) + rsize(mu, e.0, f) + rsize(mu, e.1, f),
        eqs_chain(mu, eqs.push(e), f) == eqs_chain(mu, eqs, f) + chain(mu, e.0, f) + chain(mu, e.1, f),
{
    assert(eqs.push(e).drop_last() =~= eqs);
}

// ---------------------------------------------------------------------------
// Executable functions

/// A copy of a term.
pub fn copy_term(t: &Term) -> (r: Term)
    ensures
        r == *t,
    decreases t,
{
    match t {
        Term::App(a, b) => Term::App(Box::new(copy_term(a)), Box::new(copy_term(b))),
        Term::Var(y) => Term::Var(*y),
        Term::Symbol(g) => Term::Symbol(*g),
        Term::Number(n) => Term::Number(*n),
    }
}

/// The position of the first binding of `x`.
pub fn find_binding(mu: &Vec<(Slot, Term)>, x: Slot) -> (r: Option<usize>)
    ensures
        match r {
            Some(j) => j < mu@.len() && mu@[j as int].0 == x && lookup(mu@, x) == Some(
                mu@[j as int].1,
            ),
            None => lookup(mu@, x) is None,
        },
{
    let mut i: usize = 0;
    assert(mu@.subrange(0, mu@.len() as int) =~= mu@);
    while i < mu.len()
        invariant
            0 <= i <= mu@.len(),
            lookup(mu@, x) == lookup(mu@.subrange(i as int, mu@.len() as int), x),
        decreases mu@.len() - i,
    {
        let ghost rest = mu@.subrange(i as int, mu@.len() as int);
        assert(rest[0] == mu@[i as int]);
        if mu[i].0 == x {
            return Some(i);
        }
        assert(rest.drop_first() =~= mu@.subrange(i + 1, mu@.len() as int));
        i = i + 1;
    }
    assert(mu@.subrange(i as int, mu@.len() as int).len() == 0);
    None
}

fn occurs_fuel(mu: &Vec<(Slot, Term)>, term: &Term, x: Slot, Ghost(f): Ghost<nat>) -> (r: bool)
    requires
        depth_ok(mu@, *term, f),
    ensures
        r == occurs_within(mu@, *term, x, f),
    decreases f, term,
{
    match term {
        Term::Var(y) => match find_binding(mu, *y) {
            Some(j) => occurs_fuel(mu, &mu[j].1, x, Ghost((f - 1) as nat)),
            None => x == *y,
        },
        Term::App(a, b) => {
            if occurs_fuel(mu, a, x, Ghost(f)) {
                true
            } else {
                occurs_fuel(mu, b, x, Ghost(f))
            }
        },
        _ => false,
    }
}

/// Whether the variable `x` is reached from `term` through the bindings `mu`.
pub fn occurs(mu: &Vec<(Slot, Term)>, term: &Term, x: &Slot) -> (r: bool)
    requires
        terminates(mu@, *term),
    ensures
        r == occurs_spec(mu@, *term, *x),
{
    let ghost f = fuel_for(mu@, *term);
    occurs_fuel(mu, term, *x, Ghost(f))
}

/// The bindings are acyclic and make `t` and `s` equal once resolved.
pub open spec fn unifies(mu: Bindings, t: Term, s: Term) -> bool {
    (exists|f: nat| #[trigger] acyclic(mu, f)) && fully_resolved(mu, t) == fully_resolved(mu, s)
}

/// A state of the unification procedure: still running with bindings and pending
/// equations, or finished with its result.
pub enum MguState {
    Running(Bindings, Seq<(Term, Term)>),
    Finished(Option<Bindings>),
}

/// One step of the unification procedure: the last pending equation is taken. Two
/// applications give the equations of their functions and of their arguments; equal
/// symbols or numbers are done, different ones fail; a variable against itself is done;
/// a bound variable is replaced by its binding; an unbound variable is bound to the
/// other side unless it is reached from it through the bindings, which fails; any other
/// pair fails. With no equation left the bindings are the result.
pub open spec fn mgu_step(mu: Bindings, eqs: Seq<(Term, Term)>) -> MguState {
    if eqs.len() == 0 {
        MguState::Finished(Some(mu))
    } else {
        let a = eqs.last().0;
        let b = eqs.last().1;
        let rest = eqs.drop_last();
        match (a, b) {
            (Term::App(a1, a2), Term::App(b1, b2)) => MguState::Running(
                mu,
                rest.push((*a1, *b1)).push((*a2, *b2)),
            ),
            (Term::Symbol(f), Term::Symbol(h)) => if f != h {
                MguState::Finished(None)
            } else {
                MguState::Running(mu, rest)
            },
            (Term::Number(n), Term::Number(m)) => if n != m {
                MguState::Finished(None)
            } else {
                MguState::Running(mu, rest)
            },
            (Term::Var(x), _) => if b == Term::Var(x) {
                MguState::Running(mu, rest)
            } else {
                match lookup(mu, x) {
                    Some(u) => MguState::Running(mu, rest.push((u, b))),
                    None => if occurs_spec(mu, b, x) {
                        MguState::Finished(None)
                    } else {
                        MguState::Running(mu.push((x, b)), rest)
                    },
                }
            },
            (_, Term::Var(y)) => match lookup(mu, y) {
                Some(u) => MguState::Running(mu, rest.push((a, u))),
                None => if occurs_spec(mu, a, y) {
                    MguState::Finished(None)
                } else {
                    MguState::Running(mu.push((y, a)), rest)
                },
            },
            _ => MguState::Finished(None),
        }
    }
}

/// The result of the unification procedure from bindings `mu` and equations `eqs`, if it
/// finishes within `fuel` steps.
pub open spec fn mgu_run(mu: Bindings, eqs: Seq<(Term, Term)>, fuel: nat) -> Option<Option<Bindings>>
    decreases fuel,
{
    if fuel == 0 {
        None
    } else {
        match mgu_step(mu, eqs) {
            MguState::Finished(r) => Some(r),
            MguState::Running(m2, e2) => mgu_run(m2, e2, (fuel - 1) as nat),
        }
    }
}

/// A state reached after `steps` steps from the start that finishes with `r` in one more
/// step makes the whole run finish with `r`.
/// A run that finishes with `r` makes `r` the result of unification.
proof fn lemma_mgu_of(t: Term, s: Term, k: nat, r: Option<Bindings>)
    requires
        mgu_run(Seq::empty(), seq![(t, s)], k) == Some(r),
    ensures
        mgu_of(t, s) == r,
{
    let j = choose|j: nat| #[trigger] mgu_run(Seq::empty(), seq![(t, s)], j) is Some;
    lemma_run_deterministic(Seq::empty(), seq![(t, s)], j, k);
}

proof fn lemma_run_finishes(
    m0: Bindings,
    before: Seq<(Term, Term)>,
    init: Seq<(Term, Term)>,
    steps: nat,
    r: Option<Bindings>,
)
    requires
        forall|k: nat| #[trigger] mgu_run(m0, before, k) == mgu_run(Seq::empty(), init, k + steps),
        mgu_step(m0, before) == MguState::Finished(r),
    ensures
        mgu_run(Seq::empty(), init, 1 + steps) == Some(r),
{
    assert(mgu_run(m0, before, 1) == Some(r));
}

/// A state reached after `steps` steps from the start that goes on to `(m1, e1)` is
/// reached after `steps + 1` steps.
proof fn lemma_run_continues(
    m0: Bindings,
    before: Seq<(Term, Term)>,
    m1: Bindings,
    e1: Seq<(Term, Term)>,
    init: Seq<(Term, Term)>,
    steps: nat,
)
    requires
        forall|k: nat| #[trigger] mgu_run(m0, before, k) == mgu_run(Seq::empty(), init, k + steps),
        mgu_step(m0, before) == MguState::Running(m1, e1),
    ensures
        forall|k: nat| #[trigger] mgu_run(m1, e1, k) == mgu_run(Seq::empty(), init, k + (steps + 1)),
{
    assert forall|k: nat| #[trigger] mgu_run(m1, e1, k) == mgu_run(Seq::empty(), init, k + (steps + 1)) by {
        assert(mgu_run(m0, before, k + 1) == mgu_run(m1, e1, k));
        assert(mgu_run(m0, before, (k + 1) as nat) == mgu_run(Seq::empty(), init, (k + 1) + steps));
        assert((k + 1) + steps == k + (steps + 1));
    }
}

/// The procedure gives one result however much fuel it finishes with.
pub proof fn lemma_run_deterministic(mu: Bindings, eqs: Seq<(Term, Term)>, k1: nat, k2: nat)
    requires
        mgu_run(mu, eqs, k1) is Some,
        mgu_run(mu, eqs, k2) is Some,
    ensures
        mgu_run(mu, eqs, k1) == mgu_run(mu, eqs, k2),
    decreases k1,
{
    match mgu_step(mu, eqs) {
        MguState::Finished(_) => {},
        MguState::Running(m2, e2) => {
            lemma_run_deterministic(m2, e2, (k1 - 1) as nat, (k2 - 1) as nat);
        },
    }
}

/// What unifying `t` with `s` gives, where the procedure finishes.
pub open spec fn mgu_of(t: Term, s: Term) -> Option<Bindings> {
    let k = choose|k: nat| #[trigger] mgu_run(Seq::empty(), seq![(t, s)], k) is Some;
    mgu_run(Seq::empty(), seq![(t, s)], k)->0
}

/// `t` with each variable that `sigma` maps replaced by its term.
pub open spec fn subst(sigma: Map<Slot, Term>, t: Term) -> Term
    decreases t,
{
    match t {
        Term::Var(x) => if sigma.contains_key(x) {
            sigma[x]
        } else {
            t
        },
        Term::App(a, b) => Term::App(Box::new(subst(sigma, *a)), Box::new(subst(sigma, *b))),
        _ => t,
    }
}

/// `t` has no variable.
pub open spec fn ground(t: Term) -> bool {
    vars(t) == Set::<Slot>::empty()
}

proof fn lemma_subst_ground(sigma: Map<Slot, Term>, t: Term)
    requires
        ground(t),
    ensures
        subst(sigma, t) == t,
    decreases t,
{
    match t {
        Term::Var(x) => {
            assert(vars(t).contains(x));
        },
        Term::App(a, b) => {
            assert(vars(*a).subset_of(vars(t)));
            assert(vars(*a) =~= Set::<Slot>::empty());
            assert(vars(*b) =~= Set::<Slot>::empty());
            lemma_subst_ground(sigma, *a);
            lemma_subst_ground(sigma, *b);
        },
        _ => {},
    }
}

proof fn lemma_ground_unreached(mu: Bindings, t: Term, x: Slot, f: nat)
    requires
        ground(t),
    ensures
        !occurs_within(mu, t, x, f),
    decreases t,
{
    match t {
        Term::Var(y) => {
            assert(vars(t).contains(y));
        },
        Term::App(a, b) => {
            assert(vars(*a) =~= Set::<Slot>::empty());
            assert(vars(*b) =~= Set::<Slot>::empty());
            lemma_ground_unreached(mu, *a, x, f);
            lemma_ground_unreached(mu, *b, x, f);
        },
        _ => {},
    }
}

/// The bindings agree with `sigma` and are ground, and `sigma` turns the left side of
/// each pending equation into its right side, which is ground.
pub open spec fn matching_inv(sigma: Map<Slot, Term>, mu: Bindings, eqs: Seq<(Term, Term)>) -> bool {
    &&& forall|x: Slot|
        #[trigger] lookup(mu, x) is Some ==> sigma.contains_key(x) && sigma[x] == lookup(mu, x)->0 && ground(
            lookup(mu, x)->0,
        )
    &&& forall|i: int| 0 <= i < eqs.len() ==> ground((#[trigger] eqs[i]).1) && subst(sigma, eqs[i].0) == eqs[i].1
}

/// A step from a state that matches does not fail, and keeps matching.
proof fn lemma_matching_step(sigma: Map<Slot, Term>, mu: Bindings, eqs: Seq<(Term, Term)>)
    requires
        matching_inv(sigma, mu, eqs),
    ensures
        mgu_step(mu, eqs) != MguState::Finished(None),
        mgu_step(mu, eqs) matches MguState::Running(m2, e2) ==> matching_inv(sigma, m2, e2),
{
    if eqs.len() > 0 {
        let a = eqs.last().0;
        let b = eqs.last().1;
        let rest = eqs.drop_last();
        assert(eqs[eqs.len() - 1] == eqs.last());
        assert(ground(b) && subst(sigma, a) == b);
        assert forall|i: int| 0 <= i < rest.len() implies ground((#[trigger] rest[i]).1) && subst(sigma, rest[i].0)
            == rest[i].1 by {
            assert(rest[i] == eqs[i]);
        }
        match b {
            Term::Var(y) => {
                assert(vars(b).contains(y));
            },
            _ => {},
        }
        match a {
            Term::App(a1, a2) => {
                match b {
                    Term::App(b1, b2) => {
                        assert(vars(*b1) =~= Set::<Slot>::empty());
                        assert(vars(*b2) =~= Set::<Slot>::empty());
                        let e2 = rest.push((*a1, *b1)).push((*a2, *b2));
                        assert forall|i: int| 0 <= i < e2.len() implies ground((#[trigger] e2[i]).1) && subst(
                            sigma,
                            e2[i].0,
                        ) == e2[i].1 by {
                            if i < rest.len() {
                                assert(e2[i] == rest[i]);
                            }
                        }
                    },
                    _ => {},
                }
            },
            Term::Var(x) => {
                if !sigma.contains_key(x) {
                    assert(vars(b).contains(x));
                }
                assert(b != Term::Var(x)) by {
                    if b == Term::Var(x) {
                        assert(vars(b).contains(x));
                    }
                }
                match lookup(mu, x) {
                    Some(u) => {
                        lemma_subst_ground(sigma, u);
                        let e2 = rest.push((u, b));
                        assert forall|i: int| 0 <= i < e2.len() implies ground((#[trigger] e2[i]).1) && subst(
                            sigma,
                            e2[i].0,
                        ) == e2[i].1 by {
                            if i < rest.len() {
                                assert(e2[i] == rest[i]);
                            }
                        }
                    },
                    None => {
                        lemma_ground_unreached(mu, b, x, fuel_for(mu, b));
                        let m2 = mu.push((x, b));
                        assert forall|z: Slot| #[trigger] lookup(m2, z) is Some implies sigma.contains_key(z)
                            && sigma[z] == lookup(m2, z)->0 && ground(lookup(m2, z)->0) by {
                            lemma_lookup_push(mu, (x, b), z);
                        }
                    },
                }
            },
            _ => {},
        }
    }
}

/// A run from a state that matches never fails.
proof fn lemma_matching_run(sigma: Map<Slot, Term>, mu: Bindings, eqs: Seq<(Term, Term)>, k: nat)
    requires
        matching_inv(sigma, mu, eqs),
    ensures
        mgu_run(mu, eqs, k) != Some(None::<Bindings>),
    decreases k,
{
    if k > 0 {
        lemma_matching_step(sigma, mu, eqs);
        match mgu_step(mu, eqs) {
            MguState::Running(m2, e2) => {
                lemma_matching_run(sigma, m2, e2, (k - 1) as nat);
            },
            _ => {},
        }
    }
}

/// Unification is complete for matching: where some substitution turns `t` into the
/// ground term `s`, unification of `t` with `s` never fails.
pub proof fn lemma_matching_complete(t: Term, s: Term, sigma: Map<Slot, Term>, k: nat)
    requires
        ground(s),
        subst(sigma, t) == s,
    ensures
        mgu_run(Seq::empty(), seq![(t, s)], k) != Some(None::<Bindings>),
        (exists|j: nat| #[trigger] mgu_run(Seq::empty(), seq![(t, s)], j) is Some) ==> mgu_of(t, s) is Some,
{
    let eqs = seq![(t, s)];
    assert(matching_inv(sigma, Seq::empty(), eqs)) by {
        assert forall|i: int| 0 <= i < eqs.len() implies ground((#[trigger] eqs[i]).1) && subst(sigma, eqs[i].0)
            == eqs[i].1 by {
            assert(eqs[i] == (t, s));
        }
    }
    lemma_matching_run(sigma, Seq::empty(), eqs, k);
    if exists|j: nat| #[trigger] mgu_run(Seq::empty(), seq![(t, s)], j) is Some {
        let j = choose|j: nat| #[trigger] mgu_run(Seq::empty(), seq![(t, s)], j) is Some;
        lemma_matching_run(sigma, Seq::empty(), eqs, j);
    }
}

/// A failing unification of `t` with `s` means no substitution turns `t` into the
/// ground term `s`.
proof fn lemma_failure_not_matching(t: Term, s: Term, k: nat)
    requires
        mgu_run(Seq::empty(), seq![(t, s)], k) == Some(None::<Bindings>),
    ensures
        !(ground(s) && exists|sigma: Map<Slot, Term>| subst(sigma, t) == s),
{
    if ground(s) && exists|sigma: Map<Slot, Term>| subst(sigma, t) == s {
        let sigma = choose|sigma: Map<Slot, Term>| subst(sigma, t) == s;
        lemma_matching_complete(t, s, sigma, k);
    }
}

/// The bindings of an optional list of bindings.
pub open spec fn bindings_opt_view(o: Option<Vec<(Slot, Term)>>) -> Option<Bindings> {
    match o {
        Some(v) => Some(v@),
        None => None,
    }
}

/// Syntactic unification of `t` and `s` with lazily applied bindings (a variable is
/// replaced by its binding only when it meets another term). On success the bindings
/// are acyclic and make the two terms equal once resolved. Equal terms need no binding;
/// a variable met by a term it does not occur in is bound to that term alone; two terms
/// whose heads clash fail. The result is the one the procedure of `mgu_step` finishes
/// with, from no bindings and the one equation `t = s`.
pub fn compute_mgu_terms(t: &Term, s: &Term) -> (out: Option<Vec<(Slot, Term)>>)
    ensures
        exists|k: nat| mgu_run(Seq::empty(), seq![(*t, *s)], k) == Some(bindings_opt_view(out)),
        bindings_opt_view(out) == mgu_of(*t, *s),
        head_clash(*t, *s) ==> out is None,
        t is Var && !vars(*s).contains(t->Var_0) ==> (out matches Some(mu) && mu@ == seq![
            (t->Var_0, *s),
        ]),
        s is Var && !(t is Var) && !vars(*t).contains(s->Var_0) ==> (out matches Some(mu) && mu@
            == seq![(s->Var_0, *t)]),
        out matches Some(mu) ==> unifies(mu@, *t, *s),
        *t == *s ==> (out matches Some(mu) && mu@.len() == 0),
        ground(*s) && (exists|sigma: Map<Slot, Term>| subst(sigma, *t) == *s) ==> out is Some,
{
    let ghost t0 = *t;
    let ghost s0 = *s;
    let ghost v = vars(t0).union(vars(s0));
    proof {
        lemma_vars_finite(t0);
        lemma_vars_finite(s0);
    }
    let mut mu: Vec<(Slot, Term)> = Vec::new();
    let mut eqs: Vec<(Term, Term)> = Vec::new();
    eqs.push((copy_term(t), copy_term(s)));
    let ghost mut f0: nat = 0;
    let ghost mut first: bool = true;
    let ghost mut steps: nat = 0;
    let ghost init_eqs = seq![(t0, s0)];
    proof {
        assert(eqs@ =~= seq![(t0, s0)]);
        assert(mu@ =~= Seq::<(Slot, Term)>::empty());
        assert forall|ms: Bindings, fs: nat|
        #[trigger] is_extension(mu@, ms, fs) && all_solved(ms, eqs@, fs + 1) implies resolve(
            ms,
            t0,
            fs + 1,
        ) == resolve(ms, s0, fs + 1) by {
            if all_solved(ms, eqs@, fs + 1) {
                assert(eqs@[0] == (t0, s0));
            }
        }
    }
    while eqs.len() > 0
        invariant
            t0 == *t,
            s0 == *s,
            v == vars(t0).union(vars(s0)),
            v.finite(),
            acyclic(mu@, f0),
            keys_unique(mu@),
            forall|j: int|
                0 <= j < mu@.len() ==> v.contains((#[trigger] mu@[j]).0) && vars(mu@[j].1).subset_of(
                    v,
                ),
            forall|i: int|
                0 <= i < eqs@.len() ==> vars((#[trigger] eqs@[i]).0).subset_of(v) && vars(
                    eqs@[i].1,
                ).subset_of(v),
            mu@.len() <= v.len(),
            sound_inv(mu@, eqs@, t0, s0),
            t0 == s0 ==> mu@.len() == 0 && forall|i: int| 0 <= i < eqs@.len() ==> (#[trigger] eqs@[i]).0 == eqs@[i].1,
            first ==> eqs@ == seq![(t0, s0)] && mu@.len() == 0,
            init_eqs == seq![(t0, s0)],
            forall|k: nat| #[trigger] mgu_run(mu@, eqs@, k) == mgu_run(Seq::empty(), init_eqs, k + steps),
            head_clash(t0, s0) ==> first,
            t0 is Var && !vars(s0).contains(t0->Var_0) ==> first || (eqs@.len() == 0 && mu@
                == seq![(t0->Var_0, s0)]),
            s0 is Var && !(t0 is Var) && !vars(t0).contains(s0->Var_0) ==> first || (eqs@.len()
                == 0 && mu@ == seq![(s0->Var_0, t0)]),
        decreases v.len() - mu@.len(), eqs_size(mu@, eqs@, f0 + 1), eqs_chain(mu@, eqs@, f0 + 1),
    {
        let ghost before = eqs@;
        let (a, b) = match eqs.pop() {
            Some(p) => p,
            None => {
                return None;
            },
        };
        let ghost rest = eqs@;
        let ghost e = (a, b);
        let ghost m0 = mu@;
        let ghost g = f0 + 1;
        proof {
            assert(before == rest.push(e));
            assert(before.last() == e);
            assert(before.drop_last() =~= rest);
            lemma_eqs_push(m0, rest, e, g);
            lemma_rsize_pos(m0, a, g);
            lemma_rsize_pos(m0, b, g);
            assert(vars(a).subset_of(v) && vars(b).subset_of(v)) by {
                assert(before[before.len() - 1] == e);
            }
            assert forall|i: int| 0 <= i < rest.len() implies vars((#[trigger] rest[i]).0).subset_of(v)
                && vars(rest[i].1).subset_of(v) by {
                assert(before[i] == rest[i]);
            }
            assert(before[before.len() - 1] == e);
            assert(t0 == s0 ==> a == b);
            assert(t0 == s0 ==> forall|i: int| 0 <= i < rest.len() ==> (#[trigger] rest[i]).0 == rest[i].1) by {
                if t0 == s0 {
                    assert forall|i: int| 0 <= i < rest.len() implies (#[trigger] rest[i]).0 == rest[i].1 by {
                        assert(before[i] == rest[i]);
                    }
                }
            }
        }
        match (&a, &b) {
            (Term::App(a1, a2), Term::App(b1, b2)) => {
                eqs.push((copy_term(a1), copy_term(b1)));
                eqs.push((copy_term(a2), copy_term(b2)));
                proof {
                    let tail = seq![(**a1, **b1), (**a2, **b2)];
                    assert(eqs@ =~= rest + tail);
                    assert forall|ms: Bindings, fs: nat|
                        #[trigger] is_extension(m0, ms, fs) && all_solved(ms, tail, fs + 1) implies resolve(
                            ms,
                            e.0,
                            fs + 1,
                        ) == resolve(ms, e.1, fs + 1) by {
                        assert(tail[0] == (**a1, **b1));
                        assert(tail[1] == (**a2, **b2));
                    }
                    lemma_sound_replace(m0, rest, e, tail, t0, s0);
                    lemma_eqs_push(m0, rest, (**a1, **b1), g);
                    lemma_eqs_push(m0, rest.push((**a1, **b1)), (**a2, **b2), g);
                    assert(eqs@ == rest.push((**a1, **b1)).push((**a2, **b2)));
                }
            },
            (Term::Symbol(f), Term::Symbol(h)) => {
                if *f != *h {
                    proof {
                        lemma_run_finishes(m0, before, init_eqs, steps, None);
                        lemma_mgu_of(t0, s0, 1 + steps, None);
                        lemma_failure_not_matching(t0, s0, 1 + steps);
                    }
                    return None;
                }
                proof {
                    assert(rest + Seq::<(Term, Term)>::empty() =~= rest);
                    lemma_sound_replace(m0, rest, e, Seq::<(Term, Term)>::empty(), t0, s0);
                }
            },
            (Term::Number(n), Term::Number(m)) => {
                if *n != *m {
                    proof {
                        lemma_run_finishes(m0, before, init_eqs, steps, None);
                        lemma_mgu_of(t0, s0, 1 + steps, None);
                        lemma_failure_not_matching(t0, s0, 1 + steps);
                    }
                    return None;
                }
                proof {
                    assert(rest + Seq::<(Term, Term)>::empty() =~= rest);
                    lemma_sound_replace(m0, rest, e, Seq::<(Term, Term)>::empty(), t0, s0);
                }
            },
            (Term::Var(x), _) => {
                let x = *x;
                let same = match &b {
                    Term::Var(y) => *y == x,
                    _ => false,
                };
                if same {
                    proof {
                        assert(rest + Seq::<(Term, Term)>::empty() =~= rest);
                        lemma_sound_replace(m0, rest, e, Seq::<(Term, Term)>::empty(), t0, s0);
                    }
                } else {
                    match find_binding(&mu, x) {
                        Some(j) => {
                            let u = copy_term(&mu[j].1);
                            eqs.push((u, copy_term(&b)));
                            proof {
                                let tail = seq![(u, b)];
                                assert(eqs@ =~= rest + tail);
                                assert forall|ms: Bindings, fs: nat|
                                    #[trigger] is_extension(m0, ms, fs) && all_solved(ms, tail, fs + 1) implies resolve(
                                        ms,
                                        e.0,
                                        fs + 1,
                                    ) == resolve(ms, e.1, fs + 1) by {
                                    lemma_resolve_bound(m0, ms, fs, x);
                                    assert(tail[0] == (u, b));
                                }
                                lemma_sound_replace(m0, rest, e, tail, t0, s0);
                                lemma_eqs_push(m0, rest, (u, b), g);
                                assert(depth_ok(m0, m0[j as int].1, f0));
                                lemma_fuel_mono(m0, u, f0, g, x);
                                assert(vars(u).subset_of(v));
                            }
                        },
                        None => {
                            proof {
                                lemma_acyclic_depth(m0, f0, b);
                                if first {
                                    assert(m0 =~= Seq::<(Slot, Term)>::empty());
                                    lemma_occurs_unbound(b, x, fuel_for(m0, b));
                                }
                            }
                            if occurs(&mu, &b, &x) {
                                proof {
                                    lemma_run_finishes(m0, before, init_eqs, steps, None);
                                    lemma_mgu_of(t0, s0, 1 + steps, None);
                                    lemma_failure_not_matching(t0, s0, 1 + steps);
                                }
                                return None;
                            }
                            let bt = copy_term(&b);
                            mu.push((x, bt));
                            proof {
                                let ff = fuel_for(m0, b);
                                if ff <= g {
                                    lemma_fuel_mono(m0, b, ff, g, x);
                                } else {
                                    lemma_fuel_mono(m0, b, g, ff, x);
                                }
                                lemma_bind_acyclic(m0, f0, x, b);
                                lemma_sound_bind(m0, rest, e, x, b, t0, s0);
                                assert forall|j: int| 0 <= j < m0.len() implies (#[trigger] m0[j]).0 != x by {
                                    if m0[j].0 == x {
                                        lemma_lookup_key(m0, x, j);
                                    }
                                }
                                assert(keys_unique(mu@)) by {
                                    assert forall|i: int, j: int| 0 <= i < j < mu@.len() implies #[trigger] mu@[i].0
                                        != #[trigger] mu@[j].0 by {
                                        if j < m0.len() {
                                            assert(m0[i].0 != m0[j].0);
                                        } else {
                                            assert(mu@[i] == m0[i]);
                                        }
                                    }
                                }
                                assert(vars(Term::Var(x)).contains(x));
                                assert forall|j: int| 0 <= j < mu@.len() implies v.contains((#[trigger] mu@[j]).0)
                                    && vars(mu@[j].1).subset_of(v) by {
                                    if j < m0.len() {
                                        assert(mu@[j] == m0[j]);
                                    }
                                }
                                lemma_keys_len(mu@, v);
                                f0 = 2 * f0 + 2;
                                if first {
                                    assert(mu@ =~= seq![(x, b)]);
                                }
                            }
                        },
                    }
                }
            },
            (_, Term::Var(y)) => {
                let y = *y;
                match find_binding(&mu, y) {
                    Some(j) => {
                        let u = copy_term(&mu[j].1);
                        eqs.push((copy_term(&a), u));
                        proof {
                            let tail = seq![(a, u)];
                            assert(eqs@ =~= rest + tail);
                            assert forall|ms: Bindings, fs: nat|
                                #[trigger] is_extension(m0, ms, fs) && all_solved(ms, tail, fs + 1) implies resolve(
                                    ms,
                                    e.0,
                                    fs + 1,
                                ) == resolve(ms, e.1, fs + 1) by {
                                lemma_resolve_bound(m0, ms, fs, y);
                                assert(tail[0] == (a, u));
                            }
                            lemma_sound_replace(m0, rest, e, tail, t0, s0);
                            lemma_eqs_push(m0, rest, (a, u), g);
                            assert(depth_ok(m0, m0[j as int].1, f0));
                            lemma_fuel_mono(m0, u, f0, g, y);
                            assert(vars(u).subset_of(v));
                        }
                    },
                    None => {
                        proof {
                            lemma_acyclic_depth(m0, f0, a);
                            if first {
                                assert(m0 =~= Seq::<(Slot, Term)>::empty());
                                lemma_occurs_unbound(a, y, fuel_for(m0, a));
                            }
                        }
                        if occurs(&mu, &a, &y) {
                            proof {
                                lemma_run_finishes(m0, before, init_eqs, steps, None);
                                lemma_mgu_of(t0, s0, 1 + steps, None);
                                lemma_failure_not_matching(t0, s0, 1 + steps);
                            }
                            return None;
                        }
                        let at = copy_term(&a);
                        mu.push((y, at));
                        proof {
                            let ff = fuel_for(m0, a);
                            if ff <= g {
                                lemma_fuel_mono(m0, a, ff, g, y);
                            } else {
                                lemma_fuel_mono(m0, a, g, ff, y);
                            }
                            lemma_bind_acyclic(m0, f0, y, a);
                            lemma_sound_bind(m0, rest, e, y, a, t0, s0);
                            assert forall|j: int| 0 <= j < m0.len() implies (#[trigger] m0[j]).0 != y by {
                                if m0[j].0 == y {
                                    lemma_lookup_key(m0, y, j);
                                }
                            }
                            assert(keys_unique(mu@)) by {
                                assert forall|i: int, j: int| 0 <= i < j < mu@.len() implies #[trigger] mu@[i].0
                                    != #[trigger] mu@[j].0 by {
                                    if j < m0.len() {
                                        assert(m0[i].0 != m0[j].0);
                                    } else {
                                        assert(mu@[i] == m0[i]);
                                    }
                                }
                            }
                            assert(vars(Term::Var(y)).contains(y));
                            assert forall|j: int| 0 <= j < mu@.len() implies v.contains((#[trigger] mu@[j]).0)
                                && vars(mu@[j].1).subset_of(v) by {
                                if j < m0.len() {
                                    assert(mu@[j] == m0[j]);
                                }
                            }
                            lemma_keys_len(mu@, v);
                            f0 = 2 * f0 + 2;
                            if first {
                                assert(mu@ =~= seq![(y, a)]);
                            }
                        }
                    },
                }
            },
            _ => {
                proof {
                    lemma_run_finishes(m0, before, init_eqs, steps, None);
                    lemma_mgu_of(t0, s0, 1 + steps, None);
                    lemma_failure_not_matching(t0, s0, 1 + steps);
                }
                return None;
            },
        }
        proof {
            first = false;
            lemma_run_continues(m0, before, mu@, eqs@, init_eqs, steps);
            steps = steps + 1;
        }
    }
    proof {
        assert(mu@.subrange(0, mu@.len() as int) =~= mu@);
        assert(is_extension(mu@, mu@, f0));
        let c = choose|f: nat| #[trigger] acyclic(mu@, f);
        lemma_acyclic_depth(mu@, f0, t0);
        lemma_acyclic_depth(mu@, f0, s0);
        lemma_acyclic_depth(mu@, c, t0);
        lemma_acyclic_depth(mu@, c, s0);
        if f0 <= c {
            lemma_fuel_mono(mu@, t0, f0 + 1, c + 1, 0);
            lemma_fuel_mono(mu@, s0, f0 + 1, c + 1, 0);
        } else {
            lemma_fuel_mono(mu@, t0, c + 1, f0 + 1, 0);
            lemma_fuel_mono(mu@, s0, c + 1, f0 + 1, 0);
        }
        lemma_run_finishes(mu@, eqs@, init_eqs, steps, Some(mu@));
        lemma_mgu_of(t0, s0, 1 + steps, Some(mu@));
    }
    Some(mu)
}

} // verus!
