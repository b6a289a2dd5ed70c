use vstd::prelude::*;
use crate::slots::AppliedId;
use crate::unifier::AppliedIdView;
use crate::worklist::{
    aids_view, all_wf, without, in_list, delete_element, drop_all, push_unique_spec, drop_classes,
    wo_no_us, lemma_drop_all_within, lemma_without, lemma_wo_us_disjoint,
};
use crate::merge::any_yes;

verus! {

/// What the deduction step does next with a new class `new_c`, given the answers to the
/// subsumption tests asked so far.
pub enum DeductPlan {
    /// Ask whether the first class subsumes the second.
    Ask(AppliedId, AppliedId),
    /// A class of the worklists subsumes the new class: go on with the next choice.
    Covered,
    /// Drop each class of `drop` from both worklists, in order, then keep the new class;
    /// stop the deduction step where `subsumed`.
    Keep { drop: Vec<AppliedId>, subsumed: bool },
}

/// A `DeductPlan` with its classes taken by their views.
pub enum DeductPlanView {
    Ask(AppliedIdView, AppliedIdView),
    Covered,
    Keep { drop: Seq<AppliedIdView>, subsumed: bool },
}

pub open spec fn deduct_plan_view(p: DeductPlan) -> DeductPlanView {
    match p {
        DeductPlan::Ask(a, b) => DeductPlanView::Ask(a@, b@),
        DeductPlan::Covered => DeductPlanView::Covered,
        DeductPlan::Keep { drop, subsumed } => DeductPlanView::Keep { drop: aids_view(drop@), subsumed },
    }
}

/// The classes of `wo` whose answer in `answers`, from position `base` on, is yes.
pub open spec fn yes_classes(wo: Seq<AppliedIdView>, answers: Seq<bool>, base: int) -> Seq<AppliedIdView>
    decreases wo.len(),
{
    if wo.len() == 0 {
        Seq::empty()
    } else {
        let rest = yes_classes(wo.drop_last(), answers, base);
        if answers[base + wo.len() - 1] {
            rest.push(wo.last())
        } else {
            rest
        }
    }
}

/// The deduction step for a new class `new_c`. It asks, for each class of `wo` and then
/// of `us`, whether that class subsumes `new_c`, until one does; then the new class is
/// covered. Otherwise it asks whether `new_c` subsumes each class of `wo`: those are
/// dropped, and the step stops where one of them is the class of `c0`.
pub open spec fn deduct_plan_spec(
    wo: Seq<AppliedIdView>,
    us: Seq<AppliedIdView>,
    c0: AppliedIdView,
    new_c: AppliedIdView,
    answers: Seq<bool>,
) -> DeductPlanView {
    let cands = wo + us;
    let n1 = cands.len() as int;
    if any_yes(answers, 0, if answers.len() < n1 { answers.len() as int } else { n1 }) {
        DeductPlanView::Covered
    } else if answers.len() < n1 {
        DeductPlanView::Ask(cands[answers.len() as int], new_c)
    } else if answers.len() < n1 + wo.len() {
        DeductPlanView::Ask(new_c, wo[answers.len() - n1])
    } else {
        let drop = yes_classes(wo, answers, n1);
        DeductPlanView::Keep { drop, subsumed: drop.contains(c0) }
    }
}

/// The next move of the deduction step for the new class `new_c`, given the answers to
/// the subsumption tests asked so far, in the order `deduct_plan_spec` asks them; `c0`
/// is the class the step works on, as it is now.
pub fn deduct_plan(
    wo: &Vec<AppliedId>,
    us: &Vec<AppliedId>,
    c0: &AppliedId,
    new_c: &AppliedId,
    answers: &Vec<bool>,
) -> (r: DeductPlan)
    requires
        all_wf(wo@),
        all_wf(us@),
        c0.wf(),
        new_c.wf(),
        wo@.len() + us@.len() <= usize::MAX,
    ensures
        deduct_plan_view(r) == deduct_plan_spec(aids_view(wo@), aids_view(us@), c0@, new_c@, answers@),
        (exists|i: int| 0 <= i < answers@.len() && i < wo@.len() + us@.len() && #[trigger] answers@[i])
            <==> r is Covered,
{
    proof {
        lemma_deduct_plan_covered(aids_view(wo@), aids_view(us@), c0@, new_c@, answers@);
    }
    let ghost wv = aids_view(wo@);
    let ghost uv = aids_view(us@);
    let ghost cands = wv + uv;
    let nw = wo.len();
    let nu = us.len();
    let mut i: usize = 0;
    while i < answers.len() && i < nw + nu
        invariant
            0 <= i <= answers@.len(),
            nw + nu <= usize::MAX,
            i <= nw + nu,
            nw == wo@.len(),
            nu == us@.len(),
            !any_yes(answers@, 0, i as int),
        decreases answers@.len() - i,
    {
        if answers[i] {
            proof {
                let lim = if answers@.len() < nw + nu { answers@.len() as int } else { (nw + nu) as int };
                assert(any_yes(answers@, 0, lim));
            }
            return DeductPlan::Covered;
        }
        i = i + 1;
    }
    proof {
        let lim = if answers@.len() < nw + nu { answers@.len() as int } else { (nw + nu) as int };
        assert(i == lim);
    }
    let k = answers.len();
    if k < nw + nu {
        if k < nw {
            assert(cands[k as int] == wv[k as int]);
            return DeductPlan::Ask(wo[k].duplicate(), new_c.duplicate());
        } else {
            assert(cands[k as int] == uv[k - nw]);
            return DeductPlan::Ask(us[k - nw].duplicate(), new_c.duplicate());
        }
    }
    if k - (nw + nu) < nw {
        return DeductPlan::Ask(new_c.duplicate(), wo[k - (nw + nu)].duplicate());
    }
    let base = nw + nu;
    let mut drop: Vec<AppliedId> = Vec::new();
    let mut subsumed = false;
    let mut j: usize = 0;
    while j < nw
        invariant
            nw == wo@.len(),
            base + nw <= answers@.len(),
            answers@.len() <= usize::MAX,
            all_wf(wo@),
            c0.wf(),
            0 <= j <= nw,
            all_wf(drop@),
            aids_view(drop@) == yes_classes(wv.subrange(0, j as int), answers@, base as int),
            wv == aids_view(wo@),
            subsumed == aids_view(drop@).contains(c0@),
        decreases nw - j,
    {
        let ghost prev = drop@;
        let ghost sub = wv.subrange(0, j + 1);
        proof {
            assert(sub.drop_last() =~= wv.subrange(0, j as int));
            assert(sub.last() == wo@[j as int]@);
        }
        if answers[base + j] {
            let c = wo[j].duplicate();
            let same = c.equals(c0);
            drop.push(c);
            proof {
                assert(aids_view(drop@) =~= aids_view(prev).push(wo@[j as int]@));
            }
            if same {
                subsumed = true;
                assert(aids_view(drop@)[prev.len() as int] == c0@);
            } else {
                proof {
                    if aids_view(drop@).contains(c0@) {
                        let q = choose|q: int| 0 <= q < aids_view(drop@).len() && aids_view(drop@)[q] == c0@;
                        if q < prev.len() {
                            assert(aids_view(prev)[q] == c0@);
                        }
                    }
                    if subsumed {
                        let q = choose|q: int| 0 <= q < aids_view(prev).len() && aids_view(prev)[q] == c0@;
                        assert(aids_view(drop@)[q] == c0@);
                    }
                }
            }
        }
        j = j + 1;
    }
    assert(wv.subrange(0, nw as int) =~= wv);
    DeductPlan::Keep { drop, subsumed }
}

/// The deduction step asks at most two questions for each class of `wo` and one for
/// each class of `us`: with that many answers its plan is no longer a question. Every
/// question is about the new class, and every class it drops is a class of `wo`.
pub proof fn lemma_deduct_plan_bounded(
    wo: Seq<AppliedIdView>,
    us: Seq<AppliedIdView>,
    c0: AppliedIdView,
    new_c: AppliedIdView,
    answers: Seq<bool>,
)
    ensures
        answers.len() >= 2 * wo.len() + us.len() ==> !(deduct_plan_spec(wo, us, c0, new_c, answers) is Ask),
        deduct_plan_spec(wo, us, c0, new_c, answers) matches DeductPlanView::Ask(x, y) ==> x == new_c
            || y == new_c,
        deduct_plan_spec(wo, us, c0, new_c, answers) matches DeductPlanView::Keep { drop, subsumed } ==> forall|
            i: int,
        | 0 <= i < drop.len() ==> wo.contains(#[trigger] drop[i]),
{
    if answers.len() >= (wo + us).len() + wo.len() {
        lemma_yes_classes_in(wo, answers, (wo + us).len() as int);
    }
}

/// The deduction step goes on with the next choice exactly when a class of `wo` or of
/// `us` was found to subsume the new class; until then it asks, for each class of `wo`
/// and then of `us` in turn, whether it subsumes the new class.
pub proof fn lemma_deduct_plan_covered(
    wo: Seq<AppliedIdView>,
    us: Seq<AppliedIdView>,
    c0: AppliedIdView,
    new_c: AppliedIdView,
    answers: Seq<bool>,
)
    ensures
        (exists|i: int| 0 <= i < answers.len() && i < wo.len() + us.len() && #[trigger] answers[i])
            <==> deduct_plan_spec(wo, us, c0, new_c, answers) is Covered,
        (forall|i: int| 0 <= i < answers.len() ==> !#[trigger] answers[i]) && answers.len() < wo.len() ==> deduct_plan_spec(
            wo,
            us,
            c0,
            new_c,
            answers,
        ) == DeductPlanView::Ask(wo[answers.len() as int], new_c),
        (forall|i: int| 0 <= i < answers.len() ==> !#[trigger] answers[i]) && wo.len() <= answers.len() < wo.len()
            + us.len() ==> deduct_plan_spec(wo, us, c0, new_c, answers) == DeductPlanView::Ask(
            us[answers.len() - wo.len()],
            new_c,
        ),
{
    let n1 = (wo + us).len() as int;
    assert(n1 == wo.len() + us.len());
    let lim = if answers.len() < n1 { answers.len() as int } else { n1 };
    if exists|i: int| 0 <= i < answers.len() && i < wo.len() + us.len() && #[trigger] answers[i] {
        let i = choose|i: int| 0 <= i < answers.len() && i < wo.len() + us.len() && #[trigger] answers[i];
        assert(any_yes(answers, 0, lim));
    }
    if any_yes(answers, 0, lim) {
        let i = choose|i: int| 0 <= i < lim && answers[i];
        assert(answers[i]);
    }
    if answers.len() < n1 {
        let k = answers.len() as int;
        if k < wo.len() {
            assert((wo + us)[k] == wo[k]);
        } else {
            assert((wo + us)[k] == us[k - wo.len()]);
        }
    }
}

/// Where it keeps the new class, the deduction step drops exactly the classes of `wo`
/// that the new class was found to subsume, and stops exactly when one of them is `c0`.
pub proof fn lemma_deduct_plan_keep(
    wo: Seq<AppliedIdView>,
    us: Seq<AppliedIdView>,
    c0: AppliedIdView,
    new_c: AppliedIdView,
    answers: Seq<bool>,
)
    requires
        answers.len() >= 2 * wo.len() + us.len(),
        forall|i: int| 0 <= i < wo.len() + us.len() ==> !#[trigger] answers[i],
    ensures
        deduct_plan_spec(wo, us, c0, new_c, answers) matches DeductPlanView::Keep { drop, subsumed } && (
        forall|z: AppliedIdView| #[trigger] drop.contains(z) <==> exists|j: int|
            0 <= j < wo.len() && wo[j] == z && #[trigger] answers[wo.len() + us.len() + j]) && (subsumed
            <==> exists|j: int| 0 <= j < wo.len() && wo[j] == c0 && #[trigger] answers[wo.len() + us.len() + j]),
{
    let n1 = (wo + us).len() as int;
    assert(n1 == wo.len() + us.len());
    assert(!any_yes(answers, 0, n1));
    lemma_yes_classes_exact(wo, answers, n1);
}

/// The classes picked by the answers are those whose answer is yes.
proof fn lemma_yes_classes_exact(wo: Seq<AppliedIdView>, answers: Seq<bool>, base: int)
    ensures
        forall|z: AppliedIdView| #[trigger] yes_classes(wo, answers, base).contains(z) <==> exists|j: int|
            0 <= j < wo.len() && wo[j] == z && #[trigger] answers[base + j],
    decreases wo.len(),
{
    if wo.len() > 0 {
        let p = wo.drop_last();
        lemma_yes_classes_exact(p, answers, base);
        let yp = yes_classes(p, answers, base);
        let y = yes_classes(wo, answers, base);
        assert forall|z: AppliedIdView| #[trigger] y.contains(z) <==> exists|j: int|
            0 <= j < wo.len() && wo[j] == z && #[trigger] answers[base + j] by {
            if y.contains(z) {
                if yp.contains(z) {
                    let j = choose|j: int| 0 <= j < p.len() && p[j] == z && #[trigger] answers[base + j];
                    assert(wo[j] == z);
                } else {
                    let w = choose|w: int| 0 <= w < y.len() && y[w] == z;
                    if w < yp.len() {
                        assert(y[w] == yp[w]);
                    }
                    assert(answers[base + wo.len() - 1]);
                    assert(wo[wo.len() - 1] == z);
                }
            }
            if exists|j: int| 0 <= j < wo.len() && wo[j] == z && #[trigger] answers[base + j] {
                let j = choose|j: int| 0 <= j < wo.len() && wo[j] == z && #[trigger] answers[base + j];
                if j < wo.len() - 1 {
                    assert(p[j] == z);
                    assert(yp.contains(z));
                    let w = choose|w: int| 0 <= w < yp.len() && yp[w] == z;
                    if answers[base + wo.len() - 1] {
                        assert(y[w] == yp[w]);
                    }
                } else {
                    assert(y[y.len() - 1] == z);
                }
            }
        }
    }
}

/// The classes picked by the answers are classes of the list.
pub proof fn lemma_yes_classes_in(wo: Seq<AppliedIdView>, answers: Seq<bool>, base: int)
    ensures
        forall|i: int|
            0 <= i < yes_classes(wo, answers, base).len() ==> wo.contains(
                #[trigger] yes_classes(wo, answers, base)[i],
            ),
    decreases wo.len(),
{
    if wo.len() > 0 {
        let p = wo.drop_last();
        lemma_yes_classes_in(p, answers, base);
        let y = yes_classes(wo, answers, base);
        let yp = yes_classes(p, answers, base);
        assert forall|i: int| 0 <= i < y.len() implies wo.contains(#[trigger] y[i]) by {
            if i < yp.len() {
                assert(y[i] == yp[i]);
                let k = choose|k: int| 0 <= k < p.len() && p[k] == yp[i];
                assert(wo[k] == p[k]);
            } else {
                assert(wo[wo.len() - 1] == y[i]);
            }
        }
    }
}

/// One level of the enumeration of argument choices: the list of classes it chooses
/// from (the worklist `wo` as it was when the level was opened), the position of its
/// next choice, and whether `c0` is among the choices of the levels above.
pub struct ChoiceLevel {
    pub list: Vec<AppliedId>,
    pub next: usize,
    pub used: bool,
}

/// The enumeration of the tuples of `n` argument classes for a function symbol, each
/// chosen from the worklist `wo` as it is when its level is opened, first choices
/// outermost. A complete tuple is handed out only where it holds `c0`.
pub struct ChoiceCursor {
    pub n: usize,
    pub c0: AppliedId,
    pub started: bool,
    pub finished: bool,
    pub levels: Vec<ChoiceLevel>,
    pub choices: Vec<AppliedId>,
}

/// What the enumeration asks for next.
pub enum ChoiceStep {
    /// A new choice was made (the last of `choices`): check the time, then go on.
    Candidate,
    /// `choices` is a complete tuple that holds `c0`: build its e-node, then report.
    Leaf,
    /// Nothing to do outside: go on.
    Continue,
    /// The enumeration is over.
    Done,
}

/// A level taken by views: its list, its next position and its flag.
pub open spec fn level_view(l: ChoiceLevel) -> (Seq<AppliedIdView>, usize, bool) {
    (aids_view(l.list@), l.next, l.used)
}

/// The views of the levels.
pub open spec fn levels_view(s: Seq<ChoiceLevel>) -> Seq<(Seq<AppliedIdView>, usize, bool)> {
    s.map_values(|l: ChoiceLevel| level_view(l))
}

/// The move of the enumeration from the state given by `levels` and `choices` (with
/// `started` and `finished`), `wo` being the worklist now: the step it reports, and the
/// levels, choices and finished flag after it. A level is opened with `wo`; a choice is
/// followed by a level below it, or, at the last level, by the complete tuple where it
/// holds `c0` and by the next choice otherwise; a level whose list is used up is closed
/// together with the choice above it, and closing the first level ends the enumeration.
pub open spec fn advance_spec(
    n: usize,
    c0: AppliedIdView,
    started: bool,
    finished: bool,
    levels: Seq<(Seq<AppliedIdView>, usize, bool)>,
    choices: Seq<AppliedIdView>,
    wo: Seq<AppliedIdView>,
) -> (ChoiceStepView, Seq<(Seq<AppliedIdView>, usize, bool)>, Seq<AppliedIdView>, bool) {
    if finished {
        (ChoiceStepView::Done, levels, choices, true)
    } else if !started {
        if n == 0 {
            (ChoiceStepView::Done, levels, choices, true)
        } else {
            (ChoiceStepView::Continue, seq![(wo, 0usize, false)], choices, false)
        }
    } else {
        let k = levels.len() - 1;
        let top = levels[k];
        if choices.len() == levels.len() {
            let used = top.2 || choices[k] == c0;
            if levels.len() == n {
                if used {
                    (ChoiceStepView::Leaf, levels, choices, false)
                } else {
                    (ChoiceStepView::Continue, levels, choices.drop_last(), false)
                }
            } else {
                (ChoiceStepView::Continue, levels.push((wo, 0usize, used)), choices, false)
            }
        } else if top.1 < top.0.len() {
            (
                ChoiceStepView::Candidate,
                levels.update(k, (top.0, (top.1 + 1) as usize, top.2)),
                choices.push(top.0[top.1 as int]),
                false,
            )
        } else if levels.len() == 1 {
            (ChoiceStepView::Done, levels.drop_last(), choices, true)
        } else {
            (ChoiceStepView::Continue, levels.drop_last(), choices.drop_last(), false)
        }
    }
}

/// The kinds of `ChoiceStep`.
pub enum ChoiceStepView {
    Candidate,
    Leaf,
    Continue,
    Done,
}

pub open spec fn step_view(r: ChoiceStep) -> ChoiceStepView {
    match r {
        ChoiceStep::Candidate => ChoiceStepView::Candidate,
        ChoiceStep::Leaf => ChoiceStepView::Leaf,
        ChoiceStep::Continue => ChoiceStepView::Continue,
        ChoiceStep::Done => ChoiceStepView::Done,
    }
}

impl ChoiceCursor {
    /// The levels are consistent with the choices: the choice of each level is the last
    /// class it handed out, and each level knows whether `c0` was chosen above it.
    pub open spec fn wf(&self) -> bool {
        &&& self.c0.wf()
        &&& all_wf(self.choices@)
        &&& self.levels@.len() <= self.n
        &&& !self.started ==> self.levels@.len() == 0 && self.choices@.len() == 0 && !self.finished
        &&& self.started && !self.finished ==> self.levels@.len() >= 1
        &&& self.levels@.len() >= 1 ==> (self.choices@.len() == self.levels@.len()
            || self.choices@.len() + 1 == self.levels@.len())
        &&& self.levels@.len() == 0 ==> self.choices@.len() == 0
        &&& forall|k: int|
            0 <= k < self.levels@.len() ==> (#[trigger] self.levels@[k]).next <= self.levels@[k].list@.len()
                && all_wf(self.levels@[k].list@) && self.levels@[k].used == aids_view(
                self.choices@.subrange(0, k),
            ).contains(self.c0@)
        &&& forall|k: int|
            0 <= k < self.choices@.len() ==> 1 <= (#[trigger] self.levels@[k]).next
                && self.choices@[k]@ == self.levels@[k].list@[self.levels@[k].next - 1]@
    }

    /// The enumeration of tuples of `n` classes that hold `c0`, not started yet.
    pub fn new(n: usize, c0: &AppliedId) -> (r: ChoiceCursor)
        requires
            c0.wf(),
        ensures
            r.wf(),
            r.n == n,
            r.c0@ == c0@,
            !r.started,
    {
        ChoiceCursor {
            n,
            c0: c0.duplicate(),
            started: false,
            finished: false,
            levels: Vec::new(),
            choices: Vec::new(),
        }
    }

    /// One move of the enumeration; `wo` is the worklist as it is now, from which a
    /// level opened by this move chooses.
    pub fn advance(&mut self, wo: &Vec<AppliedId>) -> (r: ChoiceStep)
        requires
            old(self).wf(),
            all_wf(wo@),
        ensures
            final(self).wf(),
            final(self).n == old(self).n,
            final(self).c0 == old(self).c0,
            r is Done <==> final(self).finished,
            r is Leaf ==> final(self).choices@.len() == final(self).n && aids_view(final(self).choices@).contains(
                final(self).c0@,
            ) && final(self).choices@ == old(self).choices@,
            r is Candidate ==> final(self).choices@.len() == old(self).choices@.len() + 1
                && final(self).choices@.subrange(0, old(self).choices@.len() as int) == old(self).choices@,
            old(self).finished ==> r is Done && *final(self) == *old(self),
            final(self).started,
            (
                step_view(r),
                levels_view(final(self).levels@),
                aids_view(final(self).choices@),
                final(self).finished,
            ) == advance_spec(
                old(self).n,
                old(self).c0@,
                old(self).started,
                old(self).finished,
                levels_view(old(self).levels@),
                aids_view(old(self).choices@),
                aids_view(wo@),
            ),
    {
        if self.finished {
            return ChoiceStep::Done;
        }
        if !self.started {
            self.started = true;
            if self.n == 0 {
                self.finished = true;
                return ChoiceStep::Done;
            }
            let list = copy_list(wo);
            self.levels.push(ChoiceLevel { list, next: 0, used: false });
            proof {
                assert(self.choices@.subrange(0, 0) =~= Seq::<AppliedId>::empty());
                assert(aids_view(self.choices@.subrange(0, 0)) =~= Seq::<AppliedIdView>::empty());
            }
            return ChoiceStep::Continue;
        }
        let k = self.levels.len() - 1;
        if self.choices.len() == self.levels.len() {
            let c_is_c0 = self.choices[k].equals(&self.c0);
            let used = self.levels[k].used || c_is_c0;
            proof {
                let cs = self.choices@;
                assert(cs.subrange(0, k + 1) =~= cs.subrange(0, k as int).push(cs[k as int]));
                assert(aids_view(cs.subrange(0, k + 1)) =~= aids_view(cs.subrange(0, k as int)).push(
                    cs[k as int]@,
                ));
                assert(cs.subrange(0, k + 1) =~= cs);
                assert(used == aids_view(cs).contains(self.c0@)) by {
                    if aids_view(cs).contains(self.c0@) && !c_is_c0 {
                        let q = choose|q: int| 0 <= q < aids_view(cs).len() && aids_view(cs)[q] == self.c0@;
                        assert(aids_view(cs.subrange(0, k as int))[q] == self.c0@);
                    }
                    if self.levels@[k as int].used {
                        let q = choose|q: int|
                            0 <= q < aids_view(cs.subrange(0, k as int)).len() && aids_view(
                                cs.subrange(0, k as int),
                            )[q] == self.c0@;
                        assert(aids_view(cs)[q] == self.c0@);
                    }
                    if c_is_c0 {
                        assert(aids_view(cs)[k as int] == self.c0@);
                    }
                }
            }
            if self.levels.len() == self.n {
                if used {
                    return ChoiceStep::Leaf;
                }
                self.choices.pop();
                proof {
                    assert forall|j: int| 0 <= j < self.levels@.len() implies aids_view(
                        self.choices@.subrange(0, j),
                    ) == aids_view(old(self).choices@.subrange(0, j)) by {
                        if j <= k {
                            assert(self.choices@.subrange(0, j) =~= old(self).choices@.subrange(0, j));
                        }
                    }
                }
                return ChoiceStep::Continue;
            }
            let list = copy_list(wo);
            self.levels.push(ChoiceLevel { list, next: 0, used });
            proof {
                assert forall|j: int| 0 <= j < self.levels@.len() implies (#[trigger] self.levels@[j]).used
                    == aids_view(self.choices@.subrange(0, j)).contains(self.c0@) by {
                    if j == k + 1 {
                        assert(self.choices@.subrange(0, j) =~= self.choices@);
                    } else {
                        assert(self.levels@[j] == old(self).levels@[j]);
                    }
                }
            }
            return ChoiceStep::Continue;
        }
        if self.levels[k].next < self.levels[k].list.len() {
            let top = self.levels.pop().unwrap();
            let c = top.list[top.next].duplicate();
            let ghost cv = top.list@[top.next as int]@;
            let level = ChoiceLevel { list: top.list, next: top.next + 1, used: top.used };
            self.levels.push(level);
            self.choices.push(c);
            proof {
                let cs = self.choices@;
                assert forall|j: int| 0 <= j < self.levels@.len() implies (#[trigger] self.levels@[j]).next
                    <= self.levels@[j].list@.len() && all_wf(self.levels@[j].list@) && self.levels@[j].used
                    == aids_view(cs.subrange(0, j)).contains(self.c0@) by {
                    assert(cs.subrange(0, j) =~= old(self).choices@.subrange(0, j));
                    if j < k {
                        assert(self.levels@[j] == old(self).levels@[j]);
                    }
                }
                assert forall|j: int| 0 <= j < cs.len() implies 1 <= (#[trigger] self.levels@[j]).next
                    && cs[j]@ == self.levels@[j].list@[self.levels@[j].next - 1]@ by {
                    if j < k {
                        assert(self.levels@[j] == old(self).levels@[j]);
                        assert(cs[j] == old(self).choices@[j]);
                    }
                }
                assert(cs.subrange(0, old(self).choices@.len() as int) =~= old(self).choices@);
            }
            return ChoiceStep::Candidate;
        }
        self.levels.pop();
        if self.levels.len() == 0 {
            self.finished = true;
            return ChoiceStep::Done;
        }
        self.choices.pop();
        proof {
            assert forall|j: int| 0 <= j < self.levels@.len() implies (#[trigger] self.levels@[j]).next
                <= self.levels@[j].list@.len() && all_wf(self.levels@[j].list@) && self.levels@[j].used
                == aids_view(self.choices@.subrange(0, j)).contains(self.c0@) by {
                assert(self.levels@[j] == old(self).levels@[j]);
                assert(self.choices@.subrange(0, j) =~= old(self).choices@.subrange(0, j));
            }
            assert forall|j: int| 0 <= j < self.choices@.len() implies 1 <= (#[trigger] self.levels@[j]).next
                && self.choices@[j]@ == self.levels@[j].list@[self.levels@[j].next - 1]@ by {
                assert(self.levels@[j] == old(self).levels@[j]);
                assert(self.choices@[j] == old(self).choices@[j]);
            }
        }
        ChoiceStep::Continue
    }

    /// After a complete tuple: its last choice is taken back.
    pub fn leaf_done(&mut self)
        requires
            old(self).wf(),
            old(self).started,
            !old(self).finished,
            old(self).choices@.len() == old(self).levels@.len(),
        ensures
            final(self).wf(),
            final(self).n == old(self).n,
            final(self).c0 == old(self).c0,
            final(self).choices@ == old(self).choices@.drop_last(),
            final(self).levels == old(self).levels,
            final(self).started && !final(self).finished,
    {
        self.choices.pop();
        proof {
            assert forall|j: int| 0 <= j < self.levels@.len() implies (#[trigger] self.levels@[j]).used
                == aids_view(self.choices@.subrange(0, j)).contains(self.c0@) by {
                if j < self.levels@.len() {
                    assert(self.choices@.subrange(0, j) =~= old(self).choices@.subrange(0, j));
                }
            }
        }
    }
}

/// A copy of a list of applied ids.
fn copy_list(v: &Vec<AppliedId>) -> (r: Vec<AppliedId>)
    requires
        all_wf(v@),
    ensures
        all_wf(r@),
        aids_view(r@) == aids_view(v@),
{
    let mut out: Vec<AppliedId> = Vec::new();
    let mut i: usize = 0;
    while i < v.len()
        invariant
            all_wf(v@),
            0 <= i <= v@.len(),
            all_wf(out@),
            out@.len() == i,
            forall|j: int| 0 <= j < i ==> (#[trigger] out@[j])@ == v@[j]@,
        decreases v@.len() - i,
    {
        out.push(v[i].duplicate());
        i = i + 1;
    }
    assert(aids_view(out@) =~= aids_view(v@));
    out
}

/// What the deduction step does with a new class that it keeps: drops each class of
/// `drop` from both worklists, adds the new class to `us`, and leaves in `wo` only what
/// is not in `us`. Nothing is added to `wo`, the two worklists end up apart, and the new
/// class ends up in `us`.
pub fn deduct_keep(wo: &mut Vec<AppliedId>, us: &mut Vec<AppliedId>, drop: &Vec<AppliedId>, new_c: &AppliedId)
    requires
        all_wf(old(wo)@),
        all_wf(old(us)@),
        all_wf(drop@),
        new_c.wf(),
    ensures
        all_wf(final(wo)@),
        all_wf(final(us)@),
        aids_view(final(us)@) == push_unique_spec(drop_all(aids_view(old(us)@), aids_view(drop@)), new_c@),
        aids_view(final(wo)@) == without(
            drop_all(aids_view(old(wo)@), aids_view(drop@)),
            in_list(aids_view(final(us)@)),
        ),
        aids_view(final(us)@).contains(new_c@),
        forall|i: int| 0 <= i < final(wo)@.len() ==> aids_view(old(wo)@).contains(#[trigger] aids_view(final(wo)@)[i]),
        forall|i: int| 0 <= i < final(wo)@.len() ==> !aids_view(final(us)@).contains(#[trigger] aids_view(final(wo)@)[i]),
{
    let ghost w0 = aids_view(wo@);
    drop_classes(wo, drop);
    drop_classes(us, drop);
    let ghost w1 = aids_view(wo@);
    let ghost u1 = aids_view(us@);
    crate::equations::push_unique(us, new_c.duplicate());
    wo_no_us(wo, us);
    proof {
        if !u1.contains(new_c@) {
            assert(aids_view(us@)[u1.len() as int] == new_c@);
        }
        lemma_drop_all_within(w0, aids_view(drop@));
        lemma_wo_us_disjoint(w1, aids_view(us@));
        lemma_without(w1, in_list(aids_view(us@)));
        assert forall|i: int| 0 <= i < wo@.len() implies w0.contains(#[trigger] aids_view(wo@)[i]) by {
            assert(w1.contains(aids_view(wo@)[i]));
            let j = choose|j: int| 0 <= j < w1.len() && w1[j] == aids_view(wo@)[i];
        }
    }
}

/// What the deduction step does when it stops early: the class of `c0` (`found`, its
/// applied id as it is now) leaves `wo`, and `c0` goes back to `us`.
pub fn deduct_give_up(wo: &mut Vec<AppliedId>, us: &mut Vec<AppliedId>, found: &AppliedId, c0: &AppliedId)
    requires
        all_wf(old(wo)@),
        all_wf(old(us)@),
        found.wf(),
        c0.wf(),
    ensures
        all_wf(final(wo)@),
        all_wf(final(us)@),
        aids_view(final(wo)@) == without(aids_view(old(wo)@), |x: AppliedIdView| x == found@),
        aids_view(final(us)@) == push_unique_spec(aids_view(old(us)@), c0@),
        !aids_view(final(wo)@).contains(found@),
        aids_view(final(us)@).contains(c0@),
{
    let ghost u0 = aids_view(us@);
    let ghost w0 = aids_view(wo@);
    delete_element(wo, found);
    crate::equations::push_unique(us, c0.duplicate());
    proof {
        if !u0.contains(c0@) {
            assert(aids_view(us@)[u0.len() as int] == c0@);
        }
        lemma_without(w0, |x: AppliedIdView| x == found@);
        if aids_view(wo@).contains(found@) {
            let j = choose|j: int| 0 <= j < aids_view(wo@).len() && aids_view(wo@)[j] == found@;
        }
    }
}

} // verus!
