use ccx::analysis::{SimpleLang, SymbolSet};
use ccx::depth::RecursionDepth;
use ccx::egraph::{ClassView, EGraphView, PairTable};
use ccx::extract::{extract_all_lessthansize, unify_pairs};
use ccx::mgu::{compute_mgus, MguMemo};
use ccx::morphism::decide_subsumption;
use ccx::renaming::{push_unique_unifier, ApplyCtx, MguMemoEntry};
use ccx::slots::{AppliedId, SlotMap};
use ccx::subsumption::{
    test_subsumption_start, test_subsumption_with_mgus, test_subsumption_withunifier,
    test_subsumption_withunifier_norec, Visited,
};
use ccx::unifier::Unifier;
use ccx::unify::Term;

fn sm(pairs: &[(u32, u32)]) -> SlotMap {
    let mut m = SlotMap::new();
    for (k, v) in pairs {
        m.insert(*k, *v);
    }
    m
}

fn aid(id: usize, pairs: &[(u32, u32)]) -> AppliedId {
    AppliedId::new(id, sm(pairs))
}

fn pairs_of(m: &SlotMap) -> Vec<(u32, u32)> {
    (0..m.len()).map(|i| m.entry(i)).collect()
}

fn syms(items: &[u32]) -> SymbolSet {
    let mut s = SymbolSet::new();
    for g in items {
        s.insert(*g);
    }
    s
}

fn class(leader: AppliedId, slots: &[u32], nodes: Vec<SimpleLang>, size: u64, symbols: &[u32]) -> ClassView {
    ClassView { leader, slots: slots.to_vec(), nodes, size, symbols: syms(symbols) }
}

/// 0: f, 1: g, 2: (app f g), 3: a variable over slot 5, 4: merged into 0, 5: (app f f),
/// 6: (app f f) again, 7: c, 8: d, 9: (app g c), 10: (app g d), 11: a variable over slot 20.
fn graph() -> EGraphView {
    EGraphView {
        classes: vec![
            class(aid(0, &[]), &[], vec![SimpleLang::Symbol(1)], 1, &[1]),
            class(aid(1, &[]), &[], vec![SimpleLang::Symbol(2)], 1, &[2]),
            class(aid(2, &[]), &[], vec![SimpleLang::App(aid(0, &[]), aid(1, &[]))], 2, &[1, 2]),
            class(aid(3, &[(5, 5)]), &[5], vec![SimpleLang::Var(5)], 1, &[]),
            class(aid(0, &[]), &[], vec![], 1, &[1]),
            class(aid(5, &[]), &[], vec![SimpleLang::App(aid(0, &[]), aid(0, &[]))], 2, &[1]),
            class(aid(6, &[]), &[], vec![SimpleLang::App(aid(0, &[]), aid(0, &[]))], 2, &[1]),
            class(aid(7, &[]), &[], vec![SimpleLang::Symbol(3)], 1, &[3]),
            class(aid(8, &[]), &[], vec![SimpleLang::Symbol(4)], 1, &[4]),
            class(aid(9, &[]), &[], vec![SimpleLang::App(aid(1, &[]), aid(7, &[]))], 2, &[2]),
            class(aid(10, &[]), &[], vec![SimpleLang::App(aid(1, &[]), aid(8, &[]))], 2, &[2]),
            class(aid(11, &[(20, 20)]), &[20], vec![SimpleLang::Var(20)], 1, &[2]),
        ],
    }
}

fn unifier(bindings: &[(u32, AppliedId)]) -> Unifier {
    let mut u = Unifier::new();
    for (s, a) in bindings {
        u.insert(*s, a.duplicate());
    }
    u
}

#[test]
fn compose_partial_keeps_the_keys_whose_value_is_mapped() {
    let m = sm(&[(1, 2), (3, 4)]).compose_partial(&sm(&[(2, 9)]));
    assert_eq!(pairs_of(&m), vec![(1, 9)]);
}

#[test]
fn find_follows_the_union_find_entry() {
    let g = graph();
    let f = g.find_applied_id(&aid(4, &[]));
    assert_eq!(f.id, 0);
    let v = g.find_applied_id(&aid(3, &[(5, 7)]));
    assert_eq!(v.id, 3);
    assert_eq!(pairs_of(&v.m), vec![(5, 7)]);
    assert_eq!(g.find_id(4), 0);
}

#[test]
fn enodes_applied_renames_class_slots() {
    let g = graph();
    let nodes = g.enodes_applied(&aid(3, &[(5, 7)]));
    assert_eq!(nodes.len(), 1);
    assert!(matches!(nodes[0], SimpleLang::Var(7)));
}

#[test]
fn pair_table_insert_replaces() {
    let mut t: Visited = PairTable::new();
    t.insert(1, 2, None);
    t.insert(2, 1, Some(false));
    t.insert(1, 2, Some(true));
    assert_eq!(t.entries.len(), 2);
    assert_eq!(t.get(1, 2), Some(&Some(true)));
    assert_eq!(t.get(2, 1), Some(&Some(false)));
    assert_eq!(t.get(3, 3), None);
}

#[test]
fn norec_answers_from_visited() {
    let g = graph();
    let mu = Unifier::new();
    let mut v: Visited = PairTable::new();
    v.insert(6, 5, Some(false));
    assert!(!test_subsumption_withunifier_norec(&g, &aid(6, &[]), &aid(5, &[]), &mu, &mut v));
    let mut v: Visited = PairTable::new();
    v.insert(0, 1, Some(true));
    assert!(test_subsumption_withunifier_norec(&g, &aid(0, &[]), &aid(1, &[]), &mu, &mut v));
}

#[test]
fn norec_tests_for_a_morphism() {
    let g = graph();
    let mu = Unifier::new();
    // f does not subsume g
    let mut v: Visited = PairTable::new();
    assert!(!test_subsumption_withunifier_norec(&g, &aid(0, &[]), &aid(1, &[]), &mu, &mut v));
    assert_eq!(v.get(0, 1), Some(&Some(false)));
    // (app f f) subsumes another (app f f)
    let mut v: Visited = PairTable::new();
    assert!(test_subsumption_withunifier_norec(&g, &aid(6, &[]), &aid(5, &[]), &mu, &mut v));
    assert_eq!(v.get(6, 5), Some(&Some(true)));
    // a pair being looked at is decided afresh
    let mut v: Visited = PairTable::new();
    v.insert(2, 0, None);
    assert!(!test_subsumption_withunifier_norec(&g, &aid(2, &[]), &aid(4, &[]), &mu, &mut v));
    assert_eq!(v.get(2, 0), Some(&Some(false)));
    // (app g c) does not subsume (app g d)
    let mut v: Visited = PairTable::new();
    assert!(!test_subsumption_withunifier_norec(&g, &aid(9, &[]), &aid(10, &[]), &mu, &mut v));
}

#[test]
fn morphism_through_a_bound_variable() {
    let g = graph();
    let x = aid(11, &[(20, 20)]);
    let mut mu = Unifier::new();
    mu.insert(20, aid(1, &[]));
    assert!(decide_subsumption(&g, &x, &aid(1, &[]), &mu));
    assert!(!decide_subsumption(&g, &x, &aid(1, &[]), &Unifier::new()));
    assert!(decide_subsumption(&g, &aid(9, &[]), &aid(9, &[]), &Unifier::new()));
}

#[test]
fn subsumption_start_cases() {
    let g = graph();
    assert_eq!(test_subsumption_start(&g, &aid(0, &[]), &aid(0, &[])), Some(false));
    assert_eq!(test_subsumption_start(&g, &aid(0, &[]), &aid(1, &[])), Some(false));
    assert_eq!(test_subsumption_start(&g, &aid(2, &[]), &aid(0, &[])), Some(false));
    assert_eq!(test_subsumption_start(&g, &aid(7, &[]), &aid(8, &[])), Some(false));
    assert_eq!(test_subsumption_start(&g, &aid(9, &[]), &aid(10, &[])), Some(false));
    assert_eq!(test_subsumption_start(&g, &aid(6, &[]), &aid(5, &[])), Some(true));
    assert_eq!(test_subsumption_start(&g, &aid(3, &[(5, 7)]), &aid(3, &[(5, 8)])), None);
}

#[test]
fn subsumption_with_mgus_needs_one_that_leaves_b_free() {
    let g = graph();
    let a = aid(3, &[(5, 7)]);
    let b = aid(3, &[(5, 8)]);
    let binds_a = unifier(&[(7, aid(0, &[]))]);
    let binds_b = unifier(&[(8, aid(0, &[]))]);
    assert!(test_subsumption_with_mgus(&g, &a, &b, &vec![binds_b.duplicate(), binds_a.duplicate()]));
    assert!(!test_subsumption_with_mgus(&g, &a, &b, &vec![binds_b]));
    assert!(!test_subsumption_with_mgus(&g, &a, &b, &vec![]));
}

#[test]
fn recursive_subsumption() {
    let g = graph();
    let empty = Unifier::new();
    let mut v: Visited = PairTable::new();
    assert!(!test_subsumption_withunifier(&g, &aid(0, &[]), &aid(1, &[]), &empty, &mut v));
    assert_eq!(v.get(0, 1), Some(&Some(false)));
    let mut v: Visited = PairTable::new();
    assert!(!test_subsumption_withunifier(&g, &aid(2, &[]), &aid(5, &[]), &empty, &mut v));
    let mut v: Visited = PairTable::new();
    assert!(test_subsumption_withunifier(&g, &aid(2, &[]), &aid(2, &[]), &empty, &mut v));
    let mu = unifier(&[(5, aid(1, &[]))]);
    let mut v: Visited = PairTable::new();
    assert!(test_subsumption_withunifier(&g, &aid(3, &[(5, 5)]), &aid(1, &[]), &mu, &mut v));
    assert_eq!(v.get(3, 1), Some(&Some(true)));
}

#[test]
fn class_unification() {
    let g = graph();
    let mut memo: MguMemo = PairTable::new();
    let mut budget: usize = 10;
    let mut depth = RecursionDepth::new();
    let mu = Unifier::new();
    let r = compute_mgus(&g, &aid(0, &[]), &aid(4, &[]), &mu, &mut memo, &mut budget, &mut depth);
    assert_eq!(r.len(), 1);
    assert_eq!(r[0].len(), 0);
    assert!(matches!(memo.get(0, 0), Some(MguMemoEntry::Done(_, _, _, _))));
    assert_eq!(budget, 9);
    assert_eq!(depth.cur, 0);
    let r = compute_mgus(&g, &aid(3, &[(5, 5)]), &aid(1, &[]), &mu, &mut memo, &mut budget, &mut depth);
    assert_eq!(r.len(), 1);
    let b = r[0].get(5).expect("slot 5 is bound");
    assert_eq!(b.id, 1);
    let r = compute_mgus(&g, &aid(0, &[]), &aid(1, &[]), &mu, &mut memo, &mut budget, &mut depth);
    assert_eq!(r.len(), 0);
    let mut shallow = RecursionDepth::new();
    ccx::depth::set_max_recursion_depth(&mut shallow, 0);
    let r = compute_mgus(&g, &aid(2, &[]), &aid(2, &[]), &mu, &mut memo, &mut budget, &mut shallow);
    assert_eq!(r.len(), 0);
    let mut memo: MguMemo = PairTable::new();
    memo.insert(2, 5, MguMemoEntry::InProgress);
    let r = compute_mgus(&g, &aid(2, &[]), &aid(5, &[]), &mu, &mut memo, &mut budget, &mut depth);
    assert_eq!(r.len(), 0);
}

fn same(a: &Term, b: &Term) -> bool {
    match (a, b) {
        (Term::App(a1, a2), Term::App(b1, b2)) => same(a1, b1) && same(a2, b2),
        (Term::Var(x), Term::Var(y)) => x == y,
        (Term::Symbol(f), Term::Symbol(h)) => f == h,
        (Term::Number(n), Term::Number(m)) => n == m,
        _ => false,
    }
}

#[test]
fn extraction_by_size() {
    let g = graph();
    let t = extract_all_lessthansize(&g, 3, &aid(2, &[]));
    assert_eq!(t.len(), 1);
    let want = Term::App(Box::new(Term::Symbol(1)), Box::new(Term::Symbol(2)));
    assert!(same(&t[0], &want));
    assert_eq!(extract_all_lessthansize(&g, 2, &aid(2, &[])).len(), 0);
    let t = extract_all_lessthansize(&g, 1, &aid(4, &[]));
    assert_eq!(t.len(), 1);
    assert!(same(&t[0], &Term::Symbol(1)));
    let t = extract_all_lessthansize(&g, 1, &aid(3, &[(5, 9)]));
    assert!(same(&t[0], &Term::Var(9)));
}

#[test]
fn unify_pairs_keeps_successes_in_order() {
    let r = unify_pairs(&vec![Term::Var(1)], &vec![Term::Symbol(3), Term::Number(2)]);
    assert_eq!(r.len(), 2);
    assert_eq!(r[0].len(), 1);
    assert_eq!(r[0][0].0, 1);
    assert!(same(&r[0][0].1, &Term::Symbol(3)));
    assert!(same(&r[1][0].1, &Term::Number(2)));
    let r = unify_pairs(&vec![Term::Symbol(1), Term::Symbol(2)], &vec![Term::Symbol(2)]);
    assert_eq!(r.len(), 1);
    assert_eq!(r[0].len(), 0);
}

#[test]
fn push_unique_unifier_skips_equal_ones() {
    let mut l: Vec<Unifier> = vec![];
    push_unique_unifier(&mut l, unifier(&[(1, aid(0, &[]))]));
    push_unique_unifier(&mut l, unifier(&[(1, aid(0, &[]))]));
    push_unique_unifier(&mut l, unifier(&[(1, aid(1, &[]))]));
    assert_eq!(l.len(), 2);
}

#[test]
fn apply_ctx_memo() {
    let mu = Unifier::new();
    let mut ctx = ApplyCtx::new(&mu);
    assert!(ctx.memo_get(&aid(1, &[])).is_none());
    ctx.memo_insert(aid(1, &[]), aid(2, &[]));
    ctx.memo_insert(aid(3, &[]), aid(4, &[]));
    ctx.memo_insert(aid(1, &[]), aid(5, &[]));
    assert_eq!(ctx.memo.len(), 2);
    assert_eq!(ctx.memo_get(&aid(1, &[])).map(|a| a.id), Some(5));
    assert_eq!(ctx.memo_get(&aid(3, &[])).map(|a| a.id), Some(4));
}

#[test]
fn recursive_subsumption_skips_free_variables_against_symbols() {
    // class 12: a free variable over slot 30 and the symbol g; it subsumes g, as the
    // free variable is not compared with the symbol
    let mut g = graph();
    g.classes.push(class(aid(12, &[(30, 30)]), &[30], vec![SimpleLang::Var(30), SimpleLang::Symbol(2)], 1, &[2]));
    let mut v: Visited = PairTable::new();
    assert!(test_subsumption_withunifier(&g, &aid(12, &[(30, 30)]), &aid(1, &[]), &Unifier::new(), &mut v));
}
