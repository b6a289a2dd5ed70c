use ccx::slots::{AppliedId, SlotMap};
use ccx::unifier::Unifier;
use ccx::renaming::{
    occ, pair_renaming, rename_applied_id, rename_slot, rename_unifier, transport_results,
    ApplyCtx,
};

fn sm(pairs: &[(u32, u32)]) -> SlotMap {
    let mut m = SlotMap::new();
    for (k, v) in pairs {
        m.insert(*k, *v);
    }
    m
}

fn aid(id: usize, pairs: &[(u32, u32)]) -> AppliedId {
    AppliedId::new(id, sm(pairs))
}

fn pairs_of(m: &SlotMap) -> Vec<(u32, u32)> {
    (0..m.len()).map(|i| m.entry(i)).collect()
}

#[test]
fn slotmap_insert_keeps_keys_sorted_and_replaces() {
    let mut m = SlotMap::new();
    m.insert(5, 50);
    m.insert(1, 10);
    m.insert(3, 30);
    m.insert(1, 11);
    assert_eq!(pairs_of(&m), vec![(1, 11), (3, 30), (5, 50)]);
    assert_eq!(m.get(3), Some(30));
    assert_eq!(m.get(4), None);
    assert!(m.contains_key(5));
    assert!(!m.contains_key(2));
}

#[test]
fn slotmap_bijection_and_equality() {
    assert!(sm(&[(1, 2), (2, 1)]).is_bijection());
    assert!(!sm(&[(1, 7), (2, 7)]).is_bijection());
    assert!(sm(&[(2, 3), (1, 4)]).equals(&sm(&[(1, 4), (2, 3)])));
    assert!(!sm(&[(1, 4)]).equals(&sm(&[(1, 5)])));
    assert!(aid(3, &[(0, 1)]).equals(&aid(3, &[(0, 1)])));
    assert!(!aid(3, &[(0, 1)]).equals(&aid(4, &[(0, 1)])));
    assert!(aid(3, &[(0, 1), (2, 9)]).has_slot(9));
    assert!(!aid(3, &[(0, 1)]).has_slot(0));
}

#[test]
fn rename_slot_leaves_unmapped_slots() {
    let r = sm(&[(1, 10), (2, 20)]);
    assert_eq!(rename_slot(&r, 1), 10);
    assert_eq!(rename_slot(&r, 7), 7);
}

#[test]
fn rename_applied_id_renames_values() {
    let r = sm(&[(1, 10), (2, 20)]);
    let a = aid(4, &[(0, 1), (5, 2)]);
    let b = rename_applied_id(&a, &r).unwrap();
    assert_eq!(b.id, 4);
    assert_eq!(pairs_of(&b.m), vec![(0, 10), (5, 20)]);
}

#[test]
fn rename_applied_id_refuses_collapsing_slots() {
    let r = sm(&[(1, 10)]);
    let a = aid(4, &[(0, 1), (5, 10)]);
    assert!(rename_applied_id(&a, &r).is_none());
}

#[test]
fn rename_unifier_moves_keys_and_values() {
    let r = sm(&[(1, 10), (2, 20)]);
    let mut sigma = Unifier::new();
    sigma.insert(1, aid(7, &[(0, 2)]));
    sigma.insert(3, aid(8, &[(0, 1)]));
    let t = rename_unifier(&sigma, &r).unwrap();
    assert_eq!(t.len(), 2);
    let at10 = t.get(10).unwrap();
    assert_eq!(at10.id, 7);
    assert_eq!(pairs_of(&at10.m), vec![(0, 20)]);
    let at3 = t.get(3).unwrap();
    assert_eq!(at3.id, 8);
    assert_eq!(pairs_of(&at3.m), vec![(0, 10)]);
    assert!(t.get(1).is_none());
}

#[test]
fn rename_unifier_refuses_key_collision() {
    let r = sm(&[(1, 3)]);
    let mut sigma = Unifier::new();
    sigma.insert(1, aid(7, &[]));
    sigma.insert(3, aid(8, &[]));
    assert!(rename_unifier(&sigma, &r).is_none());
}

#[test]
fn rename_unifier_with_empty_renaming_is_identity() {
    let mut sigma = Unifier::new();
    sigma.insert(1, aid(7, &[(0, 4), (1, 5)]));
    let t = rename_unifier(&sigma, &SlotMap::new()).unwrap();
    assert!(t.equals(&sigma));
}

#[test]
fn pair_renaming_reads_off_parameter_slots() {
    // ra = c1(s0 -> 1), rb = c2(s0 -> 2); a = c1(s0 -> 11), b = c2(s0 -> 12)
    let ra = aid(1, &[(0, 1)]);
    let rb = aid(2, &[(0, 2)]);
    let a = aid(1, &[(0, 11)]);
    let b = aid(2, &[(0, 12)]);
    let r = pair_renaming(&ra, &rb, &a, &b).unwrap();
    assert_eq!(pairs_of(&r), vec![(1, 11), (2, 12)]);
}

#[test]
fn pair_renaming_missing_parameter() {
    let ra = aid(1, &[(0, 1), (1, 2)]);
    let rb = aid(2, &[]);
    let a = aid(1, &[(0, 11)]);
    let b = aid(2, &[]);
    assert!(pair_renaming(&ra, &rb, &a, &b).is_none());
}

#[test]
fn pair_renaming_conflicting_readings() {
    let ra = aid(1, &[(0, 1)]);
    let rb = aid(2, &[(0, 1)]);
    let a = aid(1, &[(0, 11)]);
    let b = aid(2, &[(0, 12)]);
    assert!(pair_renaming(&ra, &rb, &a, &b).is_none());
}

#[test]
fn pair_renaming_collapsing_slots() {
    let ra = aid(1, &[(0, 1)]);
    let rb = aid(2, &[(0, 2)]);
    let a = aid(1, &[(0, 11)]);
    let b = aid(2, &[(0, 11)]);
    assert!(pair_renaming(&ra, &rb, &a, &b).is_none());
}

#[test]
fn transport_results_renames_and_dedups() {
    let ra = aid(1, &[(0, 1)]);
    let rb = aid(2, &[(0, 2)]);
    let a = aid(1, &[(0, 11)]);
    let b = aid(2, &[(0, 12)]);
    let mu_repr = Unifier::new();
    let mu = Unifier::new();
    let mut s1 = Unifier::new();
    s1.insert(1, aid(5, &[(0, 2)]));
    let mut s2 = Unifier::new();
    s2.insert(1, aid(5, &[(0, 2)]));
    let out = transport_results(&ra, &rb, &mu_repr, &vec![s1, s2], &a, &b, &mu).unwrap();
    assert_eq!(out.len(), 1);
    let t = out[0].get(11).unwrap();
    assert_eq!(t.id, 5);
    assert_eq!(pairs_of(&t.m), vec![(0, 12)]);
}

#[test]
fn transport_results_refuses_other_context() {
    let ra = aid(1, &[(0, 1)]);
    let rb = aid(2, &[(0, 2)]);
    let a = aid(1, &[(0, 11)]);
    let b = aid(2, &[(0, 12)]);
    let mu_repr = Unifier::new();
    let mut mu = Unifier::new();
    mu.insert(11, aid(3, &[]));
    assert!(transport_results(&ra, &rb, &mu_repr, &vec![], &a, &b, &mu).is_none());
}

#[test]
fn occ_follows_bindings_of_slots() {
    let mut mu = Unifier::new();
    mu.insert(1, aid(4, &[(0, 9)]));
    let c = aid(2, &[(0, 1), (1, 3)]);
    assert!(occ(&mu, &c, &9));
    assert!(!occ(&mu, &c, &3));
    assert!(!occ(&Unifier::new(), &c, &1));
}

#[test]
fn apply_ctx_records_each_union_once() {
    let mu = Unifier::new();
    let mut ctx = ApplyCtx::new(&mu);
    assert_eq!(ctx.budget, 10_000);
    assert!(ctx.changed.is_empty());
    ctx.record_union(&aid(3, &[(0, 1)]));
    ctx.record_union(&aid(3, &[(0, 1)]));
    ctx.record_union(&aid(4, &[]));
    assert_eq!(ctx.changed.len(), 2);
}

#[test]
fn transport_results_for_the_same_pair_gives_back_results() {
    let a = aid(1, &[(0, 11), (1, 12)]);
    let b = aid(2, &[(0, 13)]);
    let mut mu = Unifier::new();
    mu.insert(11, aid(6, &[(0, 13)]));
    let mut s1 = Unifier::new();
    s1.insert(12, aid(5, &[(0, 11)]));
    let mut s2 = Unifier::new();
    s2.insert(13, aid(4, &[]));
    let mut s3 = Unifier::new();
    s3.insert(12, aid(5, &[(0, 11)]));
    let results = vec![s1, s2, s3];
    let out = transport_results(&a, &b, &mu, &results, &a, &b, &mu).unwrap();
    assert_eq!(out.len(), 2);
    assert!(out[0].equals(&results[0]));
    assert!(out[1].equals(&results[1]));
}
