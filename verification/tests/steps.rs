use ccx::analysis::SimpleLang;
use ccx::deduction::{deduct_plan, ChoiceCursor, ChoiceStep, DeductPlan};
use ccx::instantiate::{ImageUse, SigmaRounds, SigmaStep};
use ccx::merge::{merge_plan, MergeCursor, MergePlan, MergeStep};
use ccx::renaming::{ApplyCtx, SigmaEntry};
use ccx::slots::{AppliedId, SlotMap};
use ccx::unifier::Unifier;

fn aid(id: usize, pairs: &[(u32, u32)]) -> AppliedId {
    let mut m = SlotMap::new();
    for (k, v) in pairs {
        m.insert(*k, *v);
    }
    AppliedId::new(id, m)
}

fn ask(p: MergePlan) -> Option<(usize, usize)> {
    match p {
        MergePlan::Ask(a, b) => Some((a.id, b.id)),
        _ => None,
    }
}

fn mplan(wo: &[usize], us: &[usize], unchanged: bool, answers: &[bool]) -> MergePlan {
    let wo: Vec<AppliedId> = wo.iter().map(|i| aid(*i, &[])).collect();
    let us: Vec<AppliedId> = us.iter().map(|i| aid(*i, &[])).collect();
    merge_plan(&wo, &us, &aid(3, &[]), &aid(9, &[]), unchanged, &answers.to_vec())
}

#[test]
fn merge_plan_asks_whether_the_new_class_is_covered() {
    assert_eq!(ask(mplan(&[1], &[2], false, &[])), Some((1, 9)));
    assert_eq!(ask(mplan(&[1], &[2], false, &[false])), Some((2, 9)));
    assert_eq!(ask(mplan(&[1], &[2], false, &[false, false])), Some((3, 9)));
    assert!(matches!(mplan(&[1], &[2], false, &[false, true]), MergePlan::Skip));
    assert!(matches!(mplan(&[1], &[2], false, &[true]), MergePlan::Skip));
    assert!(matches!(mplan(&[1], &[2], true, &[false, false, false]), MergePlan::Skip));
}

#[test]
fn merge_plan_then_asks_what_the_new_class_covers() {
    let f = false;
    assert_eq!(ask(mplan(&[1], &[2], f, &[f, f, f])), Some((9, 1)));
    assert_eq!(ask(mplan(&[1], &[2], f, &[f, f, f, f])), Some((9, 2)));
    assert_eq!(ask(mplan(&[1], &[2], f, &[f, f, f, f, f])), Some((9, 3)));
    assert!(matches!(
        mplan(&[1], &[2], f, &[f, f, f, f, f, true]),
        MergePlan::Absorb { drop_new: true, subsumed: true }
    ));
    assert!(matches!(
        mplan(&[1], &[2], f, &[f, f, f, f, f, f]),
        MergePlan::Absorb { drop_new: false, subsumed: false }
    ));
}

#[test]
fn merge_plan_skips_the_dropped_new_class_in_us() {
    let f = false;
    let t = true;
    assert_eq!(ask(mplan(&[1], &[9, 2], f, &[f, f, f, f])), Some((9, 1)));
    assert_eq!(ask(mplan(&[1], &[9, 2], f, &[f, f, f, f, t])), Some((9, 2)));
    assert_eq!(ask(mplan(&[1], &[9, 2], f, &[f, f, f, f, t, f])), Some((9, 3)));
    assert!(matches!(
        mplan(&[1], &[9, 2], f, &[f, f, f, f, t, f, f]),
        MergePlan::Absorb { drop_new: true, subsumed: false }
    ));
    assert_eq!(ask(mplan(&[1], &[9, 2], f, &[f, f, f, f, f])), Some((9, 9)));
}

fn dplan(answers: &[bool]) -> DeductPlan {
    let wo = vec![aid(1, &[]), aid(2, &[])];
    let us = vec![aid(4, &[])];
    deduct_plan(&wo, &us, &aid(2, &[]), &aid(9, &[]), &answers.to_vec())
}

fn dask(p: DeductPlan) -> Option<(usize, usize)> {
    match p {
        DeductPlan::Ask(a, b) => Some((a.id, b.id)),
        _ => None,
    }
}

#[test]
fn deduct_plan_order_of_questions() {
    let f = false;
    let t = true;
    assert_eq!(dask(dplan(&[])), Some((1, 9)));
    assert_eq!(dask(dplan(&[f])), Some((2, 9)));
    assert_eq!(dask(dplan(&[f, f])), Some((4, 9)));
    assert!(matches!(dplan(&[f, t]), DeductPlan::Covered));
    assert_eq!(dask(dplan(&[f, f, f])), Some((9, 1)));
    assert_eq!(dask(dplan(&[f, f, f, t])), Some((9, 2)));
    match dplan(&[f, f, f, t, t]) {
        DeductPlan::Keep { drop, subsumed } => {
            assert_eq!(drop.iter().map(|a| a.id).collect::<Vec<_>>(), vec![1, 2]);
            assert!(subsumed);
        }
        _ => panic!("the new class is kept"),
    }
    match dplan(&[f, f, f, t, f]) {
        DeductPlan::Keep { drop, subsumed } => {
            assert_eq!(drop.iter().map(|a| a.id).collect::<Vec<_>>(), vec![1]);
            assert!(!subsumed);
        }
        _ => panic!("the new class is kept"),
    }
}

#[test]
fn sigma_entry_cases() {
    let mut mu = Unifier::new();
    mu.insert(5, aid(1, &[]));
    let mut ctx = ApplyCtx::new(&mu);
    assert!(matches!(ctx.sigma_entry(&aid(0, &[])), SigmaEntry::Unbound));
    assert!(matches!(ctx.sigma_entry(&aid(3, &[(5, 5)])), SigmaEntry::Expand));
    assert_eq!(ctx.in_progress.len(), 1);
    assert!(matches!(ctx.sigma_entry(&aid(3, &[(5, 5)])), SigmaEntry::Cycle));
    ctx.sigma_exit(&aid(3, &[(5, 5)]));
    assert_eq!(ctx.in_progress.len(), 0);
    ctx.memo_insert(aid(3, &[(5, 5)]), aid(7, &[]));
    match ctx.sigma_entry(&aid(3, &[(5, 5)])) {
        SigmaEntry::Memo(v) => assert_eq!(v.id, 7),
        _ => panic!("memoised"),
    }
}

#[test]
fn take_budget_counts_down() {
    let mu = Unifier::new();
    let mut ctx = ApplyCtx::new(&mu);
    ctx.budget = 1;
    assert!(ctx.take_budget());
    assert_eq!(ctx.budget, 0);
    assert!(!ctx.take_budget());
    assert_eq!(ctx.budget, 0);
}

#[test]
fn sigma_rounds_retry_until_no_progress() {
    let mut r = SigmaRounds::new(vec![SimpleLang::Symbol(1), SimpleLang::Var(2), SimpleLang::Number(3)]);
    assert!(matches!(r.step(), SigmaStep::Instantiate(0)));
    assert!(matches!(r.report(0, false), ImageUse::Retry));
    assert!(matches!(r.step(), SigmaStep::Instantiate(1)));
    assert!(matches!(r.report(1, true), ImageUse::First));
    assert!(matches!(r.step(), SigmaStep::Instantiate(2)));
    assert!(matches!(r.report(2, true), ImageUse::Unite));
    // a second round for the e-node that failed
    assert!(matches!(r.step(), SigmaStep::Instantiate(0)));
    assert!(matches!(r.pending[0], SimpleLang::Symbol(1)));
    assert!(matches!(r.report(0, false), ImageUse::Retry));
    // no progress in that round: over
    assert!(matches!(r.step(), SigmaStep::Finished));
    assert!(matches!(r.step(), SigmaStep::Finished));
}

fn run_cursor(n: usize, wo: &[usize], c0: usize) -> Vec<Vec<usize>> {
    let wo: Vec<AppliedId> = wo.iter().map(|i| aid(*i, &[])).collect();
    let mut cur = ChoiceCursor::new(n, &aid(c0, &[]));
    let mut leaves = vec![];
    loop {
        match cur.advance(&wo) {
            ChoiceStep::Leaf => {
                leaves.push(cur.choices.iter().map(|a| a.id).collect());
                cur.leaf_done();
            }
            ChoiceStep::Done => return leaves,
            _ => {}
        }
    }
}

#[test]
fn choice_cursor_enumerates_tuples_with_c0() {
    assert_eq!(run_cursor(1, &[1, 2], 2), vec![vec![2]]);
    assert_eq!(
        run_cursor(2, &[1, 2], 2),
        vec![vec![1, 2], vec![2, 1], vec![2, 2]]
    );
    assert_eq!(run_cursor(2, &[1, 3], 2), Vec::<Vec<usize>>::new());
    assert_eq!(run_cursor(0, &[1, 2], 2), Vec::<Vec<usize>>::new());
}

#[test]
fn choice_cursor_reads_the_worklist_when_a_level_opens() {
    let mut cur = ChoiceCursor::new(2, &aid(2, &[]));
    let first = vec![aid(2, &[])];
    let later = vec![aid(5, &[]), aid(6, &[])];
    assert!(matches!(cur.advance(&first), ChoiceStep::Continue));
    assert!(matches!(cur.advance(&later), ChoiceStep::Candidate));
    assert_eq!(cur.choices[0].id, 2);
    assert!(matches!(cur.advance(&later), ChoiceStep::Continue));
    assert!(matches!(cur.advance(&first), ChoiceStep::Candidate));
    assert!(matches!(cur.advance(&first), ChoiceStep::Leaf));
    assert_eq!(cur.choices.iter().map(|a| a.id).collect::<Vec<_>>(), vec![2, 5]);
    cur.leaf_done();
    assert!(matches!(cur.advance(&first), ChoiceStep::Candidate));
    assert!(matches!(cur.advance(&first), ChoiceStep::Leaf));
    assert_eq!(cur.choices[1].id, 6);
}

#[test]
fn merge_cursor_walks_classes_then_unifiers() {
    let wo = vec![aid(1, &[]), aid(2, &[])];
    let mut cur = MergeCursor::new(&wo);
    match cur.advance() {
        MergeStep::Unify(c) => assert_eq!(c.id, 1),
        _ => panic!("first class"),
    }
    cur.found(2);
    assert!(matches!(cur.advance(), MergeStep::Instantiate(0)));
    assert!(matches!(cur.advance(), MergeStep::Instantiate(1)));
    match cur.advance() {
        MergeStep::Unify(c) => assert_eq!(c.id, 2),
        _ => panic!("second class"),
    }
    cur.found(0);
    assert!(matches!(cur.advance(), MergeStep::Done));
    assert!(matches!(cur.advance(), MergeStep::Done));
}

fn ids(v: &[AppliedId]) -> Vec<usize> {
    v.iter().map(|a| a.id).collect()
}

#[test]
fn merge_keep_moves_parents_to_us() {
    let mut wo = vec![aid(1, &[]), aid(2, &[]), aid(3, &[])];
    let mut us = vec![aid(4, &[])];
    ccx::merge::merge_keep(&mut wo, &mut us, &aid(9, &[]), &vec![aid(2, &[]), aid(4, &[])]);
    assert_eq!(ids(&wo), vec![1, 3]);
    assert_eq!(ids(&us), vec![4, 2, 9]);
}

#[test]
fn deduct_keep_separates_the_worklists() {
    let mut wo = vec![aid(1, &[]), aid(2, &[]), aid(9, &[])];
    let mut us = vec![aid(2, &[]), aid(4, &[])];
    ccx::deduction::deduct_keep(&mut wo, &mut us, &vec![aid(1, &[])], &aid(9, &[]));
    assert_eq!(ids(&us), vec![2, 4, 9]);
    assert_eq!(ids(&wo), Vec::<usize>::new());
}

#[test]
fn deduct_give_up_sends_c0_back() {
    let mut wo = vec![aid(1, &[]), aid(3, &[(5, 6)])];
    let mut us = vec![aid(4, &[])];
    ccx::deduction::deduct_give_up(&mut wo, &mut us, &aid(3, &[(5, 6)]), &aid(3, &[(5, 7)]));
    assert_eq!(ids(&wo), vec![1]);
    assert_eq!(us.len(), 2);
    assert_eq!(us[1].m.get(5), Some(7));
}
