use vstd::prelude::*;
use crate::slots::AppliedId;
use crate::unifier::AppliedIdView;
use crate::worklist::{
    aids_view, all_wf, without, delete_element, drop_all, push_all_unique, push_unique_spec,
    drop_classes, push_classes, lemma_drop_all_within, lemma_push_all_unique_holds,
};

verus! {

/// What the merge step does next with a new class `c_new`, given the answers to the
/// subsumption tests asked so far.
pub enum MergePlan {
    /// Ask whether the first class subsumes the second.
    Ask(AppliedId, AppliedId),
    /// The new class is subsumed already: nothing changes.
    Skip,
    /// The new class stays: drop it from both worklists first where `drop_new`, and
    /// stop the merge step afterwards where `subsumed`.
    Absorb { drop_new: bool, subsumed: bool },
}

/// A `MergePlan` with the classes of a question taken by their views.
pub enum MergePlanView {
    Ask(AppliedIdView, AppliedIdView),
    Skip,
    Absorb { drop_new: bool, subsumed: bool },
}

pub open spec fn plan_view(p: MergePlan) -> MergePlanView {
    match p {
        MergePlan::Ask(a, b) => MergePlanView::Ask(a@, b@),
        MergePlan::Skip => MergePlanView::Skip,
        MergePlan::Absorb { drop_new, subsumed } => MergePlanView::Absorb { drop_new, subsumed },
    }
}

/// Some answer in `answers[lo..hi]` is yes.
pub open spec fn any_yes(answers: Seq<bool>, lo: int, hi: int) -> bool {
    exists|i: int| lo <= i < hi && answers[i]
}

/// The merge step for a new class `c_new` found by instantiating a unifier. First it
/// asks, for each class of `wo`, then of `us`, then `c0` itself, whether that class
/// subsumes `c_new`, until one does. If one does, or the instantiation changed no class
/// (`unchanged`), the new class is subsumed and nothing else happens. Otherwise it asks
/// whether `c_new` subsumes each class of `wo`, then each class of `us` (without
/// `c_new` where a class of `wo` was subsumed, as `c_new` is then dropped from both
/// lists), then `c0`; `c_new` is dropped where any of these holds, and the merge step
/// stops after this class where it subsumes `c0`.
pub open spec fn merge_plan_spec(
    wo: Seq<AppliedIdView>,
    us: Seq<AppliedIdView>,
    c0: AppliedIdView,
    c_new: AppliedIdView,
    unchanged: bool,
    answers: Seq<bool>,
) -> MergePlanView {
    let cands = wo + us + seq![c0];
    let n1 = cands.len() as int;
    if answers.len() < n1 && !any_yes(answers, 0, answers.len() as int) {
        MergePlanView::Ask(cands[answers.len() as int], c_new)
    } else if any_yes(answers, 0, n1) || unchanged {
        MergePlanView::Skip
    } else {
        let w = wo.len() as int;
        let dropped = any_yes(answers, n1, n1 + w);
        let us2 = if dropped {
            without(us, |a: AppliedIdView| a == c_new)
        } else {
            us
        };
        let m = answers.len() - n1;
        if m < w {
            MergePlanView::Ask(c_new, wo[m])
        } else if m < w + us2.len() {
            MergePlanView::Ask(c_new, us2[m - w])
        } else if m == w + us2.len() {
            MergePlanView::Ask(c_new, c0)
        } else {
            MergePlanView::Absorb {
                drop_new: any_yes(answers, n1, n1 + w + us2.len() + 1),
                subsumed: answers[n1 + w + us2.len()],
            }
        }
    }
}

/// Whether some answer in `answers[lo..hi]` is yes.
fn any_yes_in(answers: &Vec<bool>, lo: usize, hi: usize) -> (r: bool)
    requires
        lo <= hi <= answers@.len(),
    ensures
        r == any_yes(answers@, lo as int, hi as int),
{
    let mut i: usize = lo;
    while i < hi
        invariant
            lo <= i <= hi <= answers@.len(),
            !any_yes(answers@, lo as int, i as int),
        decreases hi - i,
    {
        if answers[i] {
            return true;
        }
        i = i + 1;
    }
    false
}

/// The list `wo`, then `us`, then `c0`.
fn candidates(wo: &Vec<AppliedId>, us: &Vec<AppliedId>, c0: &AppliedId) -> (r: Vec<AppliedId>)
    requires
        all_wf(wo@),
        all_wf(us@),
        c0.wf(),
    ensures
        all_wf(r@),
        aids_view(r@) == aids_view(wo@) + aids_view(us@) + seq![c0@],
{
    let mut out: Vec<AppliedId> = Vec::new();
    let mut i: usize = 0;
    while i < wo.len()
        invariant
            all_wf(wo@),
            0 <= i <= wo@.len(),
            all_wf(out@),
            out@.len() == i,
            aids_view(out@) == aids_view(wo@.subrange(0, i as int)),
        decreases wo@.len() - i,
    {
        let ghost prev = out@;
        out.push(wo[i].duplicate());
        proof {
            assert forall|q: int| 0 <= q <= i implies #[trigger] aids_view(out@)[q] == aids_view(
                wo@.subrange(0, i + 1),
            )[q] by {
                if q < i {
                    assert(out@[q] == prev[q]);
                    assert(aids_view(prev)[q] == aids_view(wo@.subrange(0, i as int))[q]);
                }
            }
        }
        assert(aids_view(out@) =~= aids_view(wo@.subrange(0, i + 1)));
        i = i + 1;
    }
    assert(wo@.subrange(0, i as int) =~= wo@);
    let ghost mid = out@;
    let mut j: usize = 0;
    while j < us.len()
        invariant
            all_wf(us@),
            0 <= j <= us@.len(),
            all_wf(out@),
            out@.len() == mid.len() + j,
            aids_view(out@) == aids_view(mid) + aids_view(us@.subrange(0, j as int)),
        decreases us@.len() - j,
    {
        let ghost prev = out@;
        out.push(us[j].duplicate());
        proof {
            let want = aids_view(mid) + aids_view(us@.subrange(0, j + 1));
            assert forall|q: int| 0 <= q < out@.len() implies #[trigger] aids_view(out@)[q] == want[q] by {
                if q < prev.len() {
                    assert(out@[q] == prev[q]);
                    assert(aids_view(prev)[q] == (aids_view(mid) + aids_view(us@.subrange(0, j as int)))[q]);
                }
            }
        }
        assert(aids_view(out@) =~= aids_view(mid) + aids_view(us@.subrange(0, j + 1)));
        j = j + 1;
    }
    assert(us@.subrange(0, j as int) =~= us@);
    out.push(c0.duplicate());
    assert(aids_view(out@) =~= aids_view(wo@) + aids_view(us@) + seq![c0@]);
    out
}

/// The next move of the merge step for the new class `c_new`, given the answers to the
/// subsumption tests asked so far, in the order `merge_plan_spec` asks them.
pub fn merge_plan(
    wo: &Vec<AppliedId>,
    us: &Vec<AppliedId>,
    c0: &AppliedId,
    c_new: &AppliedId,
    unchanged: bool,
    answers: &Vec<bool>,
) -> (r: MergePlan)
    requires
        all_wf(wo@),
        all_wf(us@),
        c0.wf(),
        c_new.wf(),
    ensures
        plan_view(r) == merge_plan_spec(aids_view(wo@), aids_view(us@), c0@, c_new@, unchanged, answers@),
{
    let ghost wv = aids_view(wo@);
    let ghost uv = aids_view(us@);
    let cands = candidates(wo, us, c0);
    let n1 = cands.len();
    if answers.len() < n1 && !any_yes_in(answers, 0, answers.len()) {
        let c = cands[answers.len()].duplicate();
        assert(aids_view(cands@)[answers@.len() as int] == cands@[answers@.len() as int]@);
        return MergePlan::Ask(c, c_new.duplicate());
    }
    if (n1 <= answers.len() && any_yes_in(answers, 0, n1)) || (answers.len() < n1 && any_yes_in(
        answers,
        0,
        answers.len(),
    )) || unchanged {
        proof {
            if answers@.len() < n1 {
                let i = choose|i: int| 0 <= i < answers@.len() && answers@[i];
                assert(any_yes(answers@, 0, n1 as int));
            }
        }
        return MergePlan::Skip;
    }
    assert(n1 <= answers@.len());
    let w = wo.len();
    let m = answers.len() - n1;
    if m < w {
        assert(aids_view(wo@)[m as int] == wo@[m as int]@);
        return MergePlan::Ask(c_new.duplicate(), wo[m].duplicate());
    }
    let dropped = any_yes_in(answers, n1, n1 + w);
    assert(dropped == any_yes(answers@, n1 as int, n1 + w));
    let mut us2: Vec<AppliedId> = Vec::new();
    let mut i: usize = 0;
    while i < us.len()
        invariant
            all_wf(us@),
            0 <= i <= us@.len(),
            all_wf(us2@),
            us2@.len() == i,
            aids_view(us2@) == aids_view(us@.subrange(0, i as int)),
        decreases us@.len() - i,
    {
        let ghost prev = us2@;
        us2.push(us[i].duplicate());
        proof {
            assert forall|q: int| 0 <= q <= i implies #[trigger] aids_view(us2@)[q] == aids_view(
                us@.subrange(0, i + 1),
            )[q] by {
                if q < i {
                    assert(us2@[q] == prev[q]);
                    assert(aids_view(prev)[q] == aids_view(us@.subrange(0, i as int))[q]);
                }
            }
        }
        assert(aids_view(us2@) =~= aids_view(us@.subrange(0, i + 1)));
        i = i + 1;
    }
    assert(us@.subrange(0, i as int) =~= us@);
    if dropped {
        delete_element(&mut us2, c_new);
    }
    let ghost u2 = if dropped {
        without(uv, |a: AppliedIdView| a == c_new@)
    } else {
        uv
    };
    assert(aids_view(us2@) == u2);
    if m - w < us2.len() {
        assert(aids_view(us2@)[m - w] == us2@[m - w]@);
        return MergePlan::Ask(c_new.duplicate(), us2[m - w].duplicate());
    }
    if m - w == us2.len() {
        return MergePlan::Ask(c_new.duplicate(), c0.duplicate());
    }
    let k = n1 + w + us2.len();
    MergePlan::Absorb { drop_new: any_yes_in(answers, n1, k + 1), subsumed: answers[k] }
}

/// The merge step first asks, for each class of `wo`, then of `us`, then `c0`, whether it
/// subsumes the new class; as soon as one does, the new class is skipped; where none
/// does, it is skipped exactly when the instantiation changed no class.
pub proof fn lemma_merge_plan_covered(
    wo: Seq<AppliedIdView>,
    us: Seq<AppliedIdView>,
    c0: AppliedIdView,
    c_new: AppliedIdView,
    unchanged: bool,
    answers: Seq<bool>,
)
    ensures
        (exists|i: int| 0 <= i < answers.len() && i < wo.len() + us.len() + 1 && #[trigger] answers[i])
            ==> merge_plan_spec(wo, us, c0, c_new, unchanged, answers) == MergePlanView::Skip,
        (forall|i: int| 0 <= i < answers.len() ==> !#[trigger] answers[i]) && answers.len() < wo.len() ==> merge_plan_spec(
            wo,
            us,
            c0,
            c_new,
            unchanged,
            answers,
        ) == MergePlanView::Ask(wo[answers.len() as int], c_new),
        (forall|i: int| 0 <= i < answers.len() ==> !#[trigger] answers[i]) && wo.len() <= answers.len() < wo.len()
            + us.len() ==> merge_plan_spec(wo, us, c0, c_new, unchanged, answers) == MergePlanView::Ask(
            us[answers.len() - wo.len()],
            c_new,
        ),
        (forall|i: int| 0 <= i < answers.len() ==> !#[trigger] answers[i]) && answers.len() == wo.len() + us.len()
            ==> merge_plan_spec(wo, us, c0, c_new, unchanged, answers) == MergePlanView::Ask(c0, c_new),
        (forall|i: int| 0 <= i < wo.len() + us.len() + 1 ==> !#[trigger] answers[i]) && answers.len() >= wo.len()
            + us.len() + 1 ==> (merge_plan_spec(wo, us, c0, c_new, unchanged, answers) == MergePlanView::Skip
            <==> unchanged),
{
    let cands = wo + us + seq![c0];
    let n1 = cands.len() as int;
    assert(n1 == wo.len() + us.len() + 1);
    if exists|i: int| 0 <= i < answers.len() && i < wo.len() + us.len() + 1 && #[trigger] answers[i] {
        let i = choose|i: int| 0 <= i < answers.len() && i < wo.len() + us.len() + 1 && #[trigger] answers[i];
        assert(any_yes(answers, 0, answers.len() as int) || answers.len() >= n1);
        assert(any_yes(answers, 0, n1));
    }
    if answers.len() < n1 {
        let k = answers.len() as int;
        if k < wo.len() {
            assert(cands[k] == wo[k]);
        } else if k < wo.len() + us.len() {
            assert(cands[k] == us[k - wo.len()]);
        } else {
            assert(cands[k] == c0);
        }
        if forall|i: int| 0 <= i < answers.len() ==> !#[trigger] answers[i] {
            assert(!any_yes(answers, 0, answers.len() as int));
        }
    }
    if (forall|i: int| 0 <= i < wo.len() + us.len() + 1 ==> !#[trigger] answers[i]) && answers.len() >= n1 {
        assert(!any_yes(answers, 0, n1));
    }
}

/// The merge step asks at most two questions for each class of the two worklists and
/// for `c0`: with that many answers its plan is no longer a question. Every question is
/// about the new class.
pub proof fn lemma_merge_plan_bounded(
    wo: Seq<AppliedIdView>,
    us: Seq<AppliedIdView>,
    c0: AppliedIdView,
    c_new: AppliedIdView,
    unchanged: bool,
    answers: Seq<bool>,
)
    ensures
        answers.len() >= 2 * (wo.len() + us.len() + 1) ==> !(merge_plan_spec(
            wo,
            us,
            c0,
            c_new,
            unchanged,
            answers,
        ) is Ask),
        merge_plan_spec(wo, us, c0, c_new, unchanged, answers) matches MergePlanView::Ask(x, y) ==> x
            == c_new || y == c_new,
{
    crate::worklist::lemma_without_len(us);
}

/// The walk of the merge step over the classes of `wo` (as it was when the step began)
/// and, for each, over the unifiers of `c0` with it.
pub struct MergeCursor {
    pub classes: Vec<AppliedId>,
    pub next_class: usize,
    pub unifiers: usize,
    pub next_unifier: usize,
}

/// What the merge step does next.
pub enum MergeStep {
    /// Compute the unifiers of `c0` with this class, and report how many there are.
    Unify(AppliedId),
    /// Instantiate the unifier at this position for the current class.
    Instantiate(usize),
    /// Every class has been merged with.
    Done,
}

impl MergeCursor {
    pub open spec fn wf(&self) -> bool {
        &&& self.next_class <= self.classes@.len()
        &&& self.next_unifier <= self.unifiers
        &&& all_wf(self.classes@)
    }

    /// The walk over the classes of `wo`, before the first.
    pub fn new(wo: &Vec<AppliedId>) -> (r: MergeCursor)
        requires
            all_wf(wo@),
        ensures
            r.wf(),
            aids_view(r.classes@) == aids_view(wo@),
            r.next_class == 0,
            r.unifiers == 0,
            r.next_unifier == 0,
    {
        let classes = candidates_of(wo);
        MergeCursor { classes, next_class: 0, unifiers: 0, next_unifier: 0 }
    }

    /// The next unifier of the current class; once they are used up, the next class;
    /// once those are used up, the end.
    pub fn advance(&mut self) -> (r: MergeStep)
        requires
            old(self).wf(),
        ensures
            final(self).wf(),
            final(self).classes == old(self).classes,
            final(self).unifiers == old(self).unifiers,
            old(self).next_unifier < old(self).unifiers ==> r == MergeStep::Instantiate(
                old(self).next_unifier,
            ) && final(self).next_unifier == old(self).next_unifier + 1 && final(self).next_class == old(
                self,
            ).next_class,
            old(self).next_unifier == old(self).unifiers && old(self).next_class < old(self).classes@.len()
                ==> (r matches MergeStep::Unify(c) && c@ == old(self).classes@[old(self).next_class as int]@
                && c.wf()) && final(self).next_class == old(self).next_class + 1 && final(self).next_unifier
                == old(self).next_unifier,
            old(self).next_unifier == old(self).unifiers && old(self).next_class == old(self).classes@.len()
                ==> r == MergeStep::Done && *final(self) == *old(self),
    {
        if self.next_unifier < self.unifiers {
            let j = self.next_unifier;
            self.next_unifier = j + 1;
            return MergeStep::Instantiate(j);
        }
        if self.next_class < self.classes.len() {
            let c = self.classes[self.next_class].duplicate();
            self.next_class = self.next_class + 1;
            return MergeStep::Unify(c);
        }
        MergeStep::Done
    }

    /// The current class has `count` unifiers with `c0`.
    pub fn found(&mut self, count: usize)
        requires
            old(self).wf(),
        ensures
            final(self).wf(),
            final(self).classes == old(self).classes,
            final(self).next_class == old(self).next_class,
            final(self).unifiers == count,
            final(self).next_unifier == 0,
    {
        self.unifiers = count;
        self.next_unifier = 0;
    }
}

/// A copy of a list of applied ids.
fn candidates_of(wo: &Vec<AppliedId>) -> (r: Vec<AppliedId>)
    requires
        all_wf(wo@),
    ensures
        all_wf(r@),
        aids_view(r@) == aids_view(wo@),
{
    let mut out: Vec<AppliedId> = Vec::new();
    let mut i: usize = 0;
    while i < wo.len()
        invariant
            all_wf(wo@),
            0 <= i <= wo@.len(),
            all_wf(out@),
            out@.len() == i,
            forall|j: int| 0 <= j < i ==> (#[trigger] out@[j])@ == wo@[j]@,
        decreases wo@.len() - i,
    {
        out.push(wo[i].duplicate());
        i = i + 1;
    }
    assert(aids_view(out@) =~= aids_view(wo@));
    out
}

/// What the merge step does with a new class that it keeps, once it has dropped it from
/// both worklists where the plan says so: drops the classes above the changed ones
/// (`parents`) from `wo` and adds them to `us`, then adds the new class to `us`. Nothing
/// is added to `wo`, and the new class ends up in `us`.
pub fn merge_keep(wo: &mut Vec<AppliedId>, us: &mut Vec<AppliedId>, c_new: &AppliedId, parents: &Vec<AppliedId>)
    requires
        all_wf(old(wo)@),
        all_wf(old(us)@),
        c_new.wf(),
        all_wf(parents@),
    ensures
        all_wf(final(wo)@),
        all_wf(final(us)@),
        aids_view(final(wo)@) == drop_all(aids_view(old(wo)@), aids_view(parents@)),
        aids_view(final(us)@) == push_unique_spec(push_all_unique(aids_view(old(us)@), aids_view(parents@)), c_new@),
        forall|i: int| 0 <= i < final(wo)@.len() ==> aids_view(old(wo)@).contains(#[trigger] aids_view(final(wo)@)[i]),
        aids_view(final(us)@).contains(c_new@),
        forall|i: int| 0 <= i < parents@.len() ==> aids_view(final(us)@).contains(#[trigger] aids_view(parents@)[i]),
{
    let ghost w0 = aids_view(wo@);
    drop_classes(wo, parents);
    push_classes(us, parents);
    let ghost u1 = aids_view(us@);
    crate::equations::push_unique(us, c_new.duplicate());
    proof {
        lemma_drop_all_within(w0, aids_view(parents@));
        lemma_push_all_unique_holds(aids_view(old(us)@), aids_view(parents@));
        let u2 = aids_view(us@);
        assert forall|z: AppliedIdView| u1.contains(z) implies u2.contains(z) by {
            let j = choose|j: int| 0 <= j < u1.len() && u1[j] == z;
            if !u1.contains(c_new@) {
                assert(u2[j] == u1[j]);
            }
        }
        if !u1.contains(c_new@) {
            assert(u2[u1.len() as int] == c_new@);
        }
    }
}

} // verus!
