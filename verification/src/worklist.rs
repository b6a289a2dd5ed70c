use vstd::prelude::*;
use crate::slots::{AppliedId, Id};
use crate::unifier::AppliedIdView;

verus! {

/// The views of a list of applied ids.
pub open spec fn aids_view(s: Seq<AppliedId>) -> Seq<AppliedIdView> {
    s.map_values(|a: AppliedId| a@)
}

/// All applied ids of the list are well formed.
pub open spec fn all_wf(s: Seq<AppliedId>) -> bool {
    forall|i: int| 0 <= i < s.len() ==> (#[trigger] s[i]).wf()
}

/// `s` without the elements that `bad` picks, in their order.
pub open spec fn without<T>(s: Seq<T>, bad: spec_fn(T) -> bool) -> Seq<T>
    decreases s.len(),
{
    if s.len() == 0 {
        s
    } else {
        let w = without(s.drop_last(), bad);
        if bad(s.last()) {
            w
        } else {
            w.push(s.last())
        }
    }
}

/// What is left keeps its order, comes from `s`, and holds nothing that `bad` picks;
/// whatever `bad` does not pick stays.
pub proof fn lemma_without<T>(s: Seq<T>, bad: spec_fn(T) -> bool)
    ensures
        forall|i: int| 0 <= i < without(s, bad).len() ==> !bad(#[trigger] without(s, bad)[i]),
        forall|i: int| 0 <= i < without(s, bad).len() ==> s.contains(#[trigger] without(s, bad)[i]),
        forall|i: int| 0 <= i < s.len() && !bad(#[trigger] s[i]) ==> without(s, bad).contains(s[i]),
        without(s, bad).len() <= s.len(),
    decreases s.len(),
{
    if s.len() > 0 {
        let d = s.drop_last();
        lemma_without(d, bad);
        let w = without(s, bad);
        let wd = without(d, bad);
        assert forall|i: int| 0 <= i < w.len() implies s.contains(#[trigger] w[i]) by {
            if i < wd.len() {
                assert(w[i] == wd[i]);
                let k = choose|k: int| 0 <= k < d.len() && d[k] == wd[i];
                assert(s[k] == d[k]);
            } else {
                assert(s[s.len() - 1] == w[i]);
            }
        }
        assert forall|i: int| 0 <= i < w.len() implies !bad(#[trigger] w[i]) by {
            if i < wd.len() {
                assert(w[i] == wd[i]);
            }
        }
        assert forall|i: int| 0 <= i < s.len() && !bad(#[trigger] s[i]) implies w.contains(s[i]) by {
            if i < s.len() - 1 {
                assert(d[i] == s[i]);
                let k = choose|k: int| 0 <= k < wd.len() && wd[k] == d[i];
                assert(w[k] == wd[k]);
            } else {
                assert(w[w.len() - 1] == s[i]);
            }
        }
    }
}

/// Leaving elements out never makes a list longer.
pub proof fn lemma_without_len<T>(s: Seq<T>)
    ensures
        forall|bad: spec_fn(T) -> bool| #[trigger] without(s, bad).len() <= s.len(),
    decreases s.len(),
{
    if s.len() > 0 {
        lemma_without_len(s.drop_last());
        assert forall|bad: spec_fn(T) -> bool| #[trigger] without(s, bad).len() <= s.len() by {
            assert(without(s.drop_last(), bad).len() <= s.drop_last().len());
        }
    }
}

/// After `wo_no_us`, the two worklists share no applied id, and every element of `wo`
/// that was not in `us` is still there.
pub proof fn lemma_wo_us_disjoint(wo: Seq<AppliedIdView>, us: Seq<AppliedIdView>)
    ensures
        forall|i: int|
            0 <= i < without(wo, in_list(us)).len() ==> !us.contains(
                #[trigger] without(wo, in_list(us))[i],
            ),
        forall|i: int|
            0 <= i < wo.len() && !us.contains(#[trigger] wo[i]) ==> without(wo, in_list(us)).contains(
                wo[i],
            ),
{
    lemma_without(wo, in_list(us));
}

/// Membership in a list of applied ids, as a predicate.
pub open spec fn in_list(us: Seq<AppliedIdView>) -> spec_fn(AppliedIdView) -> bool {
    |a: AppliedIdView| us.contains(a)
}

/// A snapshot of the union-find of an e-graph: `canon[i]` is the class that id `i` now
/// belongs to.
pub struct FindTable {
    pub canon: Vec<Id>,
}

impl FindTable {
    /// Every id is in range and is mapped to an id in range.
    pub open spec fn wf(&self) -> bool {
        forall|i: int| 0 <= i < self.canon@.len() ==> #[trigger] self.canon@[i] < self.canon@.len()
    }

    pub open spec fn find(&self, i: Id) -> Id {
        self.canon@[i as int]
    }

    pub open spec fn covers(&self, s: Seq<AppliedId>) -> bool {
        forall|j: int| 0 <= j < s.len() ==> (#[trigger] s[j]).id < self.canon@.len()
    }
}

/// Removes from `wo` every applied id that is in `us`.
pub fn wo_no_us(wo: &mut Vec<AppliedId>, us: &Vec<AppliedId>)
    requires
        all_wf(old(wo)@),
        all_wf(us@),
    ensures
        all_wf(final(wo)@),
        aids_view(final(wo)@) == without(aids_view(old(wo)@), in_list(aids_view(us@))),
{
    let ghost bad = in_list(aids_view(us@));
    let ghost src = wo@;
    let mut out: Vec<AppliedId> = Vec::new();
    let mut i: usize = 0;
    while i < wo.len()
        invariant
            wo@ == src,
            all_wf(src),
            all_wf(us@),
            bad == in_list(aids_view(us@)),
            0 <= i <= src.len(),
            all_wf(out@),
            aids_view(out@) == without(aids_view(src.subrange(0, i as int)), bad),
        decreases src.len() - i,
    {
        let found = contains_aid(us, &wo[i]);
        let ghost prev = aids_view(src.subrange(0, i as int));
        let ghost next = aids_view(src.subrange(0, i + 1));
        assert(next.drop_last() =~= prev);
        assert(next.last() == src[i as int]@);
        if !found {
            out.push(wo[i].duplicate());
            assert(aids_view(out@) =~= without(next, bad));
        } else {
            assert(aids_view(out@) =~= without(next, bad));
        }
        i = i + 1;
    }
    assert(src.subrange(0, i as int) =~= src);
    *wo = out;
}

/// Whether an applied id equal to `a` is in `v`.
pub fn contains_aid(v: &Vec<AppliedId>, a: &AppliedId) -> (r: bool)
    requires
        all_wf(v@),
        a.wf(),
    ensures
        r == aids_view(v@).contains(a@),
{
    let mut i: usize = 0;
    while i < v.len()
        invariant
            all_wf(v@),
            a.wf(),
            0 <= i <= v@.len(),
            forall|j: int| 0 <= j < i ==> (#[trigger] v@[j])@ != a@,
        decreases v@.len() - i,
    {
        if v[i].equals(a) {
            assert(aids_view(v@)[i as int] == a@);
            return true;
        }
        i = i + 1;
    }
    proof {
        if aids_view(v@).contains(a@) {
            let j = choose|j: int| 0 <= j < v@.len() && aids_view(v@)[j] == a@;
            assert(v@[j]@ == a@);
        }
    }
    false
}

/// Removes from the worklist every applied id equal to `target` (the representative of
/// the class to be dropped).
pub fn delete_element(worklist: &mut Vec<AppliedId>, target: &AppliedId)
    requires
        all_wf(old(worklist)@),
        target.wf(),
    ensures
        all_wf(final(worklist)@),
        aids_view(final(worklist)@) == without(
            aids_view(old(worklist)@),
            |a: AppliedIdView| a == target@,
        ),
{
    let ghost bad = |a: AppliedIdView| a == target@;
    let ghost src = worklist@;
    let mut out: Vec<AppliedId> = Vec::new();
    let mut i: usize = 0;
    while i < worklist.len()
        invariant
            worklist@ == src,
            all_wf(src),
            target.wf(),
            bad == (|a: AppliedIdView| a == target@),
            0 <= i <= src.len(),
            all_wf(out@),
            aids_view(out@) == without(aids_view(src.subrange(0, i as int)), bad),
        decreases src.len() - i,
    {
        let same = worklist[i].equals(target);
        let ghost prev = aids_view(src.subrange(0, i as int));
        let ghost next = aids_view(src.subrange(0, i + 1));
        assert(next.drop_last() =~= prev);
        assert(next.last() == src[i as int]@);
        if !same {
            out.push(worklist[i].duplicate());
            assert(aids_view(out@) =~= without(next, bad));
        } else {
            assert(aids_view(out@) =~= without(next, bad));
        }
        i = i + 1;
    }
    assert(src.subrange(0, i as int) =~= src);
    *worklist = out;
}

/// Adds the class id `i` to `v` unless it is there already.
pub fn push_unique_id(v: &mut Vec<Id>, i: Id)
    ensures
        final(v)@ == (if old(v)@.contains(i) {
            old(v)@
        } else {
            old(v)@.push(i)
        }),
{
    let mut k: usize = 0;
    while k < v.len()
        invariant
            0 <= k <= v@.len(),
            forall|j: int| 0 <= j < k ==> v@[j] != i,
        decreases v@.len() - k,
    {
        if v[k] == i {
            assert(v@[k as int] == i);
            return;
        }
        k = k + 1;
    }
    v.push(i);
}

/// Some element of the list lies in the class of `c0`.
pub open spec fn has_class(find: Seq<Id>, s: Seq<AppliedId>, c0: Id) -> bool {
    exists|j: int| 0 <= j < s.len() && find[(#[trigger] s[j]).id as int] == find[c0 as int]
}

/// Whether some element of the worklist lies in the class of `c0`.
pub fn contains_id(find: &FindTable, worklist: &Vec<AppliedId>, c0: &AppliedId) -> (r: bool)
    requires
        find.covers(worklist@),
        c0.id < find.canon@.len(),
    ensures
        r == has_class(find.canon@, worklist@, c0.id),
{
    let target = find.canon[c0.id];
    let mut i: usize = 0;
    while i < worklist.len()
        invariant
            find.covers(worklist@),
            target == find.canon@[c0.id as int],
            0 <= i <= worklist@.len(),
            forall|j: int| 0 <= j < i ==> find.canon@[(#[trigger] worklist@[j]).id as int] != target,
        decreases worklist@.len() - i,
    {
        if find.canon[worklist[i].id] == target {
            return true;
        }
        i = i + 1;
    }
    false
}

/// The list keeping only the first element of each class.
pub open spec fn class_dedup(find: Seq<Id>, s: Seq<AppliedId>) -> Seq<AppliedId>
    decreases s.len(),
{
    if s.len() == 0 {
        s
    } else {
        let d = class_dedup(find, s.drop_last());
        if has_class(find, d, s.last().id) {
            d
        } else {
            d.push(s.last())
        }
    }
}

/// After `update`, no two elements of a worklist lie in the same class.
pub proof fn lemma_class_dedup_distinct(find: Seq<Id>, s: Seq<AppliedId>)
    ensures
        forall|i: int, j: int|
            0 <= i < j < class_dedup(find, s).len() ==> find[(#[trigger] class_dedup(find, s)[i]).id as int]
                != find[(#[trigger] class_dedup(find, s)[j]).id as int],
    decreases s.len(),
{
    if s.len() > 0 {
        lemma_class_dedup_distinct(find, s.drop_last());
        let d = class_dedup(find, s.drop_last());
        let r = class_dedup(find, s);
        if !has_class(find, d, s.last().id) {
            assert forall|i: int, j: int| 0 <= i < j < r.len() implies find[(#[trigger] r[i]).id as int]
                != find[(#[trigger] r[j]).id as int] by {
                if j < d.len() {
                    assert(r[i] == d[i] && r[j] == d[j]);
                } else {
                    assert(r[i] == d[i]);
                    assert(r[j] == s.last());
                }
            }
        }
    }
}

/// Rebuilds a worklist from the representatives of its elements' classes (given in
/// order), keeping one element per class.
pub fn update(find: &FindTable, representatives: &Vec<AppliedId>) -> (r: Vec<AppliedId>)
    requires
        find.covers(representatives@),
    ensures
        r@.len() <= representatives@.len(),
        aids_view(r@) == aids_view(class_dedup(find.canon@, representatives@)),
        find.covers(r@),
{
    let ghost src = representatives@;
    let mut out: Vec<AppliedId> = Vec::new();
    let mut i: usize = 0;
    while i < representatives.len()
        invariant
            find.covers(src),
            src == representatives@,
            0 <= i <= src.len(),
            aids_view(out@) == aids_view(class_dedup(find.canon@, src.subrange(0, i as int))),
            out@.len() == class_dedup(find.canon@, src.subrange(0, i as int)).len(),
            forall|j: int|
                0 <= j < out@.len() ==> (#[trigger] out@[j]).id == class_dedup(
                    find.canon@,
                    src.subrange(0, i as int),
                )[j].id,
            out@.len() <= i,
            find.covers(out@),
        decreases src.len() - i,
    {
        let ghost prev = src.subrange(0, i as int);
        let ghost next = src.subrange(0, i + 1);
        assert(next.drop_last() =~= prev);
        let ghost d = class_dedup(find.canon@, prev);
        let present = contains_id(find, &out, &representatives[i]);
        assert(present == has_class(find.canon@, d, src[i as int].id)) by {
            if present {
                let j = choose|j: int|
                    0 <= j < out@.len() && find.canon@[(#[trigger] out@[j]).id as int]
                        == find.canon@[src[i as int].id as int];
                assert(d[j].id == out@[j].id);
            }
            if has_class(find.canon@, d, src[i as int].id) {
                let j = choose|j: int|
                    0 <= j < d.len() && find.canon@[(#[trigger] d[j]).id as int]
                        == find.canon@[src[i as int].id as int];
                assert(out@[j].id == d[j].id);
            }
        }
        assert(next.last() == src[i as int]);
        if !present {
            assert(class_dedup(find.canon@, next) == d.push(src[i as int]));
            let ghost o0 = out@;
            let x = representatives[i].duplicate();
            out.push(x);
            assert(out@ == o0.push(x));
            assert forall|j: int| 0 <= j < out@.len() implies aids_view(out@)[j] == aids_view(
                d.push(src[i as int]),
            )[j] by {
                if j < o0.len() {
                    assert(aids_view(o0)[j] == aids_view(d)[j]);
                }
            }
            assert(aids_view(out@) =~= aids_view(class_dedup(find.canon@, next)));
        } else {
            assert(aids_view(out@) =~= aids_view(class_dedup(find.canon@, next)));
        }
        i = i + 1;
    }
    assert(src.subrange(0, i as int) =~= src);
    out
}

/// The number of e-nodes, given the number in each class.
pub fn count_nodes(class_sizes: &Vec<usize>) -> (r: usize)
    requires
        class_sizes@.fold_left(0int, |acc: int, x: usize| acc + x) <= usize::MAX,
    ensures
        r == class_sizes@.fold_left(0int, |acc: int, x: usize| acc + x),
{
    let mut sum: usize = 0;
    let mut i: usize = 0;
    while i < class_sizes.len()
        invariant
            0 <= i <= class_sizes@.len(),
            class_sizes@.fold_left(0int, |acc: int, x: usize| acc + x) <= usize::MAX,
            sum == class_sizes@.subrange(0, i as int).fold_left(0int, |acc: int, x: usize| acc + x),
        decreases class_sizes@.len() - i,
    {
        proof {
            let p = class_sizes@.subrange(0, i + 1);
            assert(p.drop_last() =~= class_sizes@.subrange(0, i as int));
            lemma_fold_prefix_le(class_sizes@, i + 1);
        }
        sum = sum + class_sizes[i];
        i = i + 1;
    }
    assert(class_sizes@.subrange(0, i as int) =~= class_sizes@);
    sum
}

proof fn lemma_fold_prefix_le(s: Seq<usize>, k: int)
    requires
        0 <= k <= s.len(),
    ensures
        s.subrange(0, k).fold_left(0int, |acc: int, x: usize| acc + x) <= s.fold_left(
            0int,
            |acc: int, x: usize| acc + x,
        ),
        s.subrange(0, k).fold_left(0int, |acc: int, x: usize| acc + x) >= 0,
    decreases s.len(),
{
    let f = |acc: int, x: usize| acc + x;
    if s.len() == 0 {
        assert(s.subrange(0, k) =~= s);
    } else if k == s.len() {
        assert(s.subrange(0, k) =~= s);
        lemma_fold_prefix_le(s.drop_last(), s.len() - 1);
        assert(s.drop_last().subrange(0, s.len() - 1) =~= s.drop_last());
    } else {
        lemma_fold_prefix_le(s.drop_last(), k);
        assert(s.drop_last().subrange(0, k) =~= s.subrange(0, k));
        lemma_fold_prefix_le(s.drop_last(), s.len() - 1);
        assert(s.drop_last().subrange(0, s.len() - 1) =~= s.drop_last());
    }
}

/// `s` with `a` added at the end unless it is there.
pub open spec fn push_unique_spec(s: Seq<AppliedIdView>, a: AppliedIdView) -> Seq<AppliedIdView> {
    if s.contains(a) {
        s
    } else {
        s.push(a)
    }
}

/// `s` with each of `items` added in turn unless it is there.
pub open spec fn push_all_unique(s: Seq<AppliedIdView>, items: Seq<AppliedIdView>) -> Seq<AppliedIdView>
    decreases items.len(),
{
    if items.len() == 0 {
        s
    } else {
        push_unique_spec(push_all_unique(s, items.drop_last()), items.last())
    }
}

/// `s` without each of `items` in turn.
pub open spec fn drop_all(s: Seq<AppliedIdView>, items: Seq<AppliedIdView>) -> Seq<AppliedIdView>
    decreases items.len(),
{
    if items.len() == 0 {
        s
    } else {
        without(drop_all(s, items.drop_last()), |x: AppliedIdView| x == items.last())
    }
}

/// Dropping classes keeps nothing that was not there.
pub proof fn lemma_drop_all_within(s: Seq<AppliedIdView>, items: Seq<AppliedIdView>)
    ensures
        forall|i: int| 0 <= i < drop_all(s, items).len() ==> s.contains(#[trigger] drop_all(s, items)[i]),
    decreases items.len(),
{
    if items.len() > 0 {
        let d = drop_all(s, items.drop_last());
        lemma_drop_all_within(s, items.drop_last());
        let bad = |x: AppliedIdView| x == items.last();
        lemma_without(d, bad);
        assert forall|i: int| 0 <= i < drop_all(s, items).len() implies s.contains(#[trigger] drop_all(s, items)[i]) by {
            let w = without(d, bad);
            assert(d.contains(w[i]));
            let j = choose|j: int| 0 <= j < d.len() && d[j] == w[i];
        }
    }
}

/// Adding classes keeps what was there, and holds each added class.
pub proof fn lemma_push_all_unique_holds(s: Seq<AppliedIdView>, items: Seq<AppliedIdView>)
    ensures
        forall|i: int| 0 <= i < s.len() ==> push_all_unique(s, items).contains(#[trigger] s[i]),
        forall|i: int| 0 <= i < items.len() ==> push_all_unique(s, items).contains(#[trigger] items[i]),
    decreases items.len(),
{
    if items.len() > 0 {
        let p = items.drop_last();
        lemma_push_all_unique_holds(s, p);
        let q = push_all_unique(s, p);
        let r = push_all_unique(s, items);
        assert forall|z: AppliedIdView| q.contains(z) implies r.contains(z) by {
            let j = choose|j: int| 0 <= j < q.len() && q[j] == z;
            if !q.contains(items.last()) {
                assert(r[j] == q[j]);
            }
        }
        if !q.contains(items.last()) {
            assert(r[q.len() as int] == items.last());
        }
        assert forall|i: int| 0 <= i < items.len() implies r.contains(#[trigger] items[i]) by {
            if i < p.len() {
                assert(p[i] == items[i]);
                assert(q.contains(p[i]));
            }
        }
        assert forall|i: int| 0 <= i < s.len() implies r.contains(#[trigger] s[i]) by {
            assert(q.contains(s[i]));
        }
    }
}

/// Drops each class of `items` from the worklist, in turn.
pub fn drop_classes(worklist: &mut Vec<AppliedId>, items: &Vec<AppliedId>)
    requires
        all_wf(old(worklist)@),
        all_wf(items@),
    ensures
        all_wf(final(worklist)@),
        aids_view(final(worklist)@) == drop_all(aids_view(old(worklist)@), aids_view(items@)),
{
    let ghost w0 = aids_view(worklist@);
    let ghost iv = aids_view(items@);
    let mut i: usize = 0;
    while i < items.len()
        invariant
            all_wf(worklist@),
            all_wf(items@),
            iv == aids_view(items@),
            0 <= i <= items@.len(),
            aids_view(worklist@) == drop_all(w0, iv.subrange(0, i as int)),
        decreases items@.len() - i,
    {
        proof {
            let sub = iv.subrange(0, i + 1);
            assert(sub.drop_last() =~= iv.subrange(0, i as int));
            assert(sub.last() == items@[i as int]@);
        }
        assert(items@[i as int].wf());
        delete_element(worklist, &items[i]);
        i = i + 1;
    }
    assert(iv.subrange(0, i as int) =~= iv);
}

/// Adds each class of `items` to the worklist unless it is there, in turn.
pub fn push_classes(worklist: &mut Vec<AppliedId>, items: &Vec<AppliedId>)
    requires
        all_wf(old(worklist)@),
        all_wf(items@),
    ensures
        all_wf(final(worklist)@),
        aids_view(final(worklist)@) == push_all_unique(aids_view(old(worklist)@), aids_view(items@)),
{
    let ghost w0 = aids_view(worklist@);
    let ghost iv = aids_view(items@);
    let mut i: usize = 0;
    while i < items.len()
        invariant
            all_wf(worklist@),
            all_wf(items@),
            iv == aids_view(items@),
            0 <= i <= items@.len(),
            aids_view(worklist@) == push_all_unique(w0, iv.subrange(0, i as int)),
        decreases items@.len() - i,
    {
        proof {
            let sub = iv.subrange(0, i + 1);
            assert(sub.drop_last() =~= iv.subrange(0, i as int));
            assert(sub.last() == items@[i as int]@);
        }
        assert(items@[i as int].wf());
        crate::equations::push_unique(worklist, items[i].duplicate());
        i = i + 1;
    }
    assert(iv.subrange(0, i as int) =~= iv);
}

} // verus!
