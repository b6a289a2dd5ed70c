use vstd::prelude::*;
use crate::slots::{AppliedId, Id};
use crate::worklist::{FindTable, aids_view, without};

verus! {

/// `y` is reached from `sources` by climbing at most `k` parent edges; an edge
/// `(child, parent)` leads from a child class to a class with an application node
/// over it.
pub open spec fn reach_within(edges: Seq<(Id, Id)>, sources: Set<Id>, y: Id, k: nat) -> bool
    decreases k,
{
    sources.contains(y) || (k > 0 && exists|e: int|
        0 <= e < edges.len() && (#[trigger] edges[e]).1 == y && reach_within(
            edges,
            sources,
            edges[e].0,
            (k - 1) as nat,
        ))
}

/// `y` is reached from `sources` by climbing parent edges.
pub open spec fn reachable(edges: Seq<(Id, Id)>, sources: Set<Id>, y: Id) -> bool {
    exists|k: nat| #[trigger] reach_within(edges, sources, y, k)
}

/// The classes of the changed ids.
pub open spec fn sources_of(find: Seq<Id>, changed: Seq<Id>) -> Set<Id> {
    Set::new(|y: Id| exists|j: int| 0 <= j < changed.len() && find[changed[j] as int] == y)
}

/// The number of marks set.
pub open spec fn count_true(s: Seq<bool>) -> nat
    decreases s.len(),
{
    if s.len() == 0 {
        0
    } else {
        count_true(s.drop_last()) + if s.last() {
            1nat
        } else {
            0nat
        }
    }
}

proof fn lemma_count_true_le(s: Seq<bool>)
    ensures
        count_true(s) <= s.len(),
    decreases s.len(),
{
    if s.len() > 0 {
        lemma_count_true_le(s.drop_last());
    }
}

proof fn lemma_count_true_set(s: Seq<bool>, i: int)
    requires
        0 <= i < s.len(),
        !s[i],
    ensures
        count_true(s.update(i, true)) == count_true(s) + 1,
    decreases s.len(),
{
    let t = s.update(i, true);
    if i == s.len() - 1 {
        assert(t.drop_last() =~= s.drop_last());
    } else {
        lemma_count_true_set(s.drop_last(), i);
        assert(t.drop_last() =~= s.drop_last().update(i, true));
    }
}

proof fn lemma_count_true_none(s: Seq<bool>)
    requires
        forall|v: int| 0 <= v < s.len() ==> !s[v],
    ensures
        count_true(s) == 0,
    decreases s.len(),
{
    if s.len() > 0 {
        lemma_count_true_none(s.drop_last());
    }
}

/// Marks `p` and queues it, unless it is marked already.
fn mark(marked: &mut Vec<bool>, queue: &mut Vec<Id>, p: Id)
    requires
        p < old(marked)@.len(),
        old(queue)@.len() == count_true(old(marked)@),
        forall|v: Id| v < old(marked)@.len() ==> (old(marked)@[v as int] <==> old(queue)@.contains(v)),
    ensures
        final(marked)@.len() == old(marked)@.len(),
        final(marked)@[p as int],
        forall|v: int| 0 <= v < old(marked)@.len() && old(marked)@[v] ==> final(marked)@[v],
        forall|v: int| 0 <= v < old(marked)@.len() && v != p ==> final(marked)@[v] == old(marked)@[v],
        final(queue)@.len() == count_true(final(marked)@),
        forall|v: Id| v < final(marked)@.len() ==> (final(marked)@[v as int] <==> final(queue)@.contains(v)),
        final(queue)@ == old(queue)@ || final(queue)@ == old(queue)@.push(p),
        old(marked)@[p as int] ==> final(queue)@ == old(queue)@,
{
    if !marked[p] {
        let ghost m0 = marked@;
        let ghost q0 = queue@;
        proof {
            lemma_count_true_set(m0, p as int);
        }
        marked.set(p, true);
        queue.push(p);
        proof {
            assert forall|v: Id| v < marked@.len() implies (marked@[v as int] <==> queue@.contains(v)) by {
                if v == p {
                    assert(queue@[q0.len() as int] == p);
                } else {
                    if queue@.contains(v) {
                        let j = choose|j: int| 0 <= j < queue@.len() && queue@[j] == v;
                        if j < q0.len() {
                            assert(q0[j] == v);
                        }
                    }
                    if q0.contains(v) {
                        let j = choose|j: int| 0 <= j < q0.len() && q0[j] == v;
                        assert(queue@[j] == v);
                    }
                }
            }
        }
    }
}

proof fn lemma_reach_step(edges: Seq<(Id, Id)>, sources: Set<Id>, e: int)
    requires
        0 <= e < edges.len(),
        reachable(edges, sources, edges[e].0),
    ensures
        reachable(edges, sources, edges[e].1),
{
    let k = choose|k: nat| #[trigger] reach_within(edges, sources, edges[e].0, k);
    assert(reach_within(edges, sources, edges[e].1, k + 1));
}

proof fn lemma_closed_contains_reachable(
    edges: Seq<(Id, Id)>,
    sources: Set<Id>,
    marked: Seq<bool>,
    y: Id,
    k: nat,
)
    requires
        forall|s: Id| #[trigger] sources.contains(s) ==> s < marked.len() && marked[s as int],
        forall|e: int|
            0 <= e < edges.len() ==> (#[trigger] edges[e]).0 < marked.len() && edges[e].1
                < marked.len(),
        forall|e: int|
            0 <= e < edges.len() && #[trigger] marked[edges[e].0 as int] ==> marked[edges[e].1 as int],
        reach_within(edges, sources, y, k),
    ensures
        y < marked.len(),
        marked[y as int],
    decreases k,
{
    if !sources.contains(y) {
        let e = choose|e: int|
            0 <= e < edges.len() && (#[trigger] edges[e]).1 == y && reach_within(
                edges,
                sources,
                edges[e].0,
                (k - 1) as nat,
            );
        lemma_closed_contains_reachable(edges, sources, marked, edges[e].0, (k - 1) as nat);
    }
}

/// The elements of the worklist whose class is reached, by climbing parent edges, from
/// the class of some changed id.
pub fn rec_parents(
    find: &FindTable,
    edges: &Vec<(Id, Id)>,
    wo: &Vec<AppliedId>,
    changed: &Vec<Id>,
) -> (r: Vec<AppliedId>)
    requires
        find.wf(),
        find.covers(wo@),
        forall|e: int|
            0 <= e < edges@.len() ==> (#[trigger] edges@[e]).0 < find.canon@.len() && edges@[e].1
                < find.canon@.len(),
        forall|j: int| 0 <= j < changed@.len() ==> #[trigger] changed@[j] < find.canon@.len(),
    ensures
        aids_view(r@) == aids_view(
            without(
                wo@,
                |c: AppliedId|
                    !reachable(
                        edges@,
                        sources_of(find.canon@, changed@),
                        find.canon@[c.id as int],
                    ),
            ),
        ),
{
    let n = find.canon.len();
    let ghost sources = sources_of(find.canon@, changed@);
    let mut marked: Vec<bool> = Vec::new();
    let mut i: usize = 0;
    while i < n
        invariant
            0 <= i <= n,
            marked@.len() == i,
            forall|v: int| 0 <= v < i ==> !marked@[v],
        decreases n - i,
    {
        marked.push(false);
        i = i + 1;
    }
    proof {
        lemma_count_true_none(marked@);
    }
    let mut queue: Vec<Id> = Vec::new();
    let mut j: usize = 0;
    while j < changed.len()
        invariant
            find.wf(),
            n == find.canon@.len(),
            marked@.len() == n,
            sources == sources_of(find.canon@, changed@),
            forall|j: int| 0 <= j < changed@.len() ==> #[trigger] changed@[j] < find.canon@.len(),
            0 <= j <= changed@.len(),
            forall|h: int| 0 <= h < queue@.len() ==> #[trigger] queue@[h] < n,
            queue@.len() == count_true(marked@),
            forall|v: Id| v < n ==> (marked@[v as int] <==> queue@.contains(v)),
            forall|v: Id| v < n && #[trigger] marked@[v as int] ==> reachable(edges@, sources, v),
            forall|t: int| 0 <= t < j ==> #[trigger] marked@[find.canon@[changed@[t] as int] as int],
        decreases changed@.len() - j,
    {
        let c = find.canon[changed[j]];
        proof {
            assert(sources.contains(c));
            assert(reach_within(edges@, sources, c, 0));
        }
        mark(&mut marked, &mut queue, c);
        j = j + 1;
    }
    let mut head: usize = 0;
    while head < queue.len()
        invariant
            find.wf(),
            n == find.canon@.len(),
            marked@.len() == n,
            sources == sources_of(find.canon@, changed@),
            forall|e: int|
                0 <= e < edges@.len() ==> (#[trigger] edges@[e]).0 < n && edges@[e].1 < n,
            0 <= head <= queue@.len(),
            forall|h: int| 0 <= h < queue@.len() ==> #[trigger] queue@[h] < n,
            queue@.len() == count_true(marked@),
            forall|v: Id| v < n ==> (marked@[v as int] <==> queue@.contains(v)),
            forall|v: Id| v < n && #[trigger] marked@[v as int] ==> reachable(edges@, sources, v),
            forall|s: Id| #[trigger] sources.contains(s) ==> s < n && marked@[s as int],
            forall|h: int, e: int|
                0 <= h < head && 0 <= e < edges@.len() && (#[trigger] edges@[e]).0 == #[trigger] queue@[h]
                    ==> marked@[edges@[e].1 as int],
        decreases n - queue@.len(), queue@.len() - head,
    {
        proof {
            lemma_count_true_le(marked@);
        }
        let v = queue[head];
        let ghost q_start = queue@;
        let mut e: usize = 0;
        while e < edges.len()
            invariant
                find.wf(),
                n == find.canon@.len(),
                marked@.len() == n,
                sources == sources_of(find.canon@, changed@),
                forall|e: int|
                    0 <= e < edges@.len() ==> (#[trigger] edges@[e]).0 < n && edges@[e].1 < n,
                0 <= head < q_start.len(),
                v == q_start[head as int],
                q_start.len() <= queue@.len(),
                forall|h: int| 0 <= h < q_start.len() ==> #[trigger] queue@[h] == q_start[h],
                forall|h: int| 0 <= h < queue@.len() ==> #[trigger] queue@[h] < n,
                queue@.len() == count_true(marked@),
                forall|v: Id| v < n ==> (marked@[v as int] <==> queue@.contains(v)),
                forall|v: Id| v < n && #[trigger] marked@[v as int] ==> reachable(edges@, sources, v),
                forall|s: Id| #[trigger] sources.contains(s) ==> s < n && marked@[s as int],
                forall|h: int, e: int|
                    0 <= h < head && 0 <= e < edges@.len() && (#[trigger] edges@[e]).0 == #[trigger] queue@[h]
                        ==> marked@[edges@[e].1 as int],
                0 <= e <= edges@.len(),
                forall|f: int| 0 <= f < e && (#[trigger] edges@[f]).0 == v ==> marked@[edges@[f].1 as int],
            decreases edges@.len() - e,
        {
            let (child, parent) = edges[e];
            if child == v {
                proof {
                    assert(queue@[head as int] == v);
                    assert(queue@.contains(v));
                    assert(marked@[v as int]);
                    lemma_reach_step(edges@, sources, e as int);
                }
                let ghost m0 = marked@;
                let ghost q0 = queue@;
                mark(&mut marked, &mut queue, parent);
                proof {
                    assert forall|h: int| 0 <= h < q_start.len() implies #[trigger] queue@[h] == q_start[h] by {
                        assert(q0[h] == q_start[h]);
                    }
                    assert forall|u: Id| u < n && #[trigger] marked@[u as int] implies reachable(edges@, sources, u) by {
                        if u != parent {
                            assert(m0[u as int]);
                        }
                    }
                    assert forall|h: int, f: int|
                        0 <= h < head && 0 <= f < edges@.len() && (#[trigger] edges@[f]).0 == #[trigger] queue@[h]
                            implies marked@[edges@[f].1 as int] by {
                        assert(q0[h] == queue@[h]);
                        assert(m0[edges@[f].1 as int]);
                    }
                }
            }
            e = e + 1;
        }
        proof {
            lemma_count_true_le(marked@);
        }
        head = head + 1;
    }
    proof {
        assert forall|f: int|
            0 <= f < edges@.len() && #[trigger] marked@[edges@[f].0 as int] implies marked@[edges@[f].1 as int] by {
            let u = edges@[f].0;
            assert(queue@.contains(u));
            let h = choose|h: int| 0 <= h < queue@.len() && queue@[h] == u;
            assert(edges@[f].0 == queue@[h]);
        }
    }
    let ghost keep = |c: AppliedId|
        !reachable(edges@, sources_of(find.canon@, changed@), find.canon@[c.id as int]);
    let mut out: Vec<AppliedId> = Vec::new();
    let mut k: usize = 0;
    while k < wo.len()
        invariant
            find.wf(),
            find.covers(wo@),
            n == find.canon@.len(),
            marked@.len() == n,
            sources == sources_of(find.canon@, changed@),
            keep == (|c: AppliedId|
                !reachable(edges@, sources_of(find.canon@, changed@), find.canon@[c.id as int])),
            forall|e: int|
                0 <= e < edges@.len() ==> (#[trigger] edges@[e]).0 < n && edges@[e].1 < n,
            forall|v: Id| v < n && #[trigger] marked@[v as int] ==> reachable(edges@, sources, v),
            forall|s: Id| #[trigger] sources.contains(s) ==> s < n && marked@[s as int],
            forall|f: int|
                0 <= f < edges@.len() && #[trigger] marked@[edges@[f].0 as int] ==> marked@[edges@[f].1 as int],
            0 <= k <= wo@.len(),
            aids_view(out@) == aids_view(without(wo@.subrange(0, k as int), keep)),
        decreases wo@.len() - k,
    {
        let c = find.canon[wo[k].id];
        let hit = marked[c];
        proof {
            if reachable(edges@, sources, c) {
                let kk = choose|kk: nat| #[trigger] reach_within(edges@, sources, c, kk);
                lemma_closed_contains_reachable(edges@, sources, marked@, c, kk);
            }
            assert(hit == !keep(wo@[k as int]));
        }
        let ghost prev = wo@.subrange(0, k as int);
        let ghost next = wo@.subrange(0, k + 1);
        assert(next.drop_last() =~= prev);
        assert(next.last() == wo@[k as int]);
        if hit {
            let ghost o0 = out@;
            let x = wo[k].duplicate();
            out.push(x);
            assert(out@ == o0.push(x));
            assert(without(next, keep) == without(prev, keep).push(wo@[k as int]));
            assert forall|t: int| 0 <= t < out@.len() implies aids_view(out@)[t] == aids_view(
                without(next, keep),
            )[t] by {
                let w = without(prev, keep);
                assert(aids_view(o0).len() == o0.len());
                assert(aids_view(w).len() == w.len());
                assert(o0.len() == w.len());
                if t < o0.len() {
                    assert(aids_view(o0)[t] == aids_view(w)[t]);
                    assert(out@[t] == o0[t]);
                    assert(w.push(wo@[k as int])[t] == w[t]);
                } else {
                    assert(out@[t] == x);
                    assert(w.push(wo@[k as int])[t] == wo@[k as int]);
                }
            }
            assert(without(prev, keep).len() + 1 == without(next, keep).len());
            assert(aids_view(without(prev, keep)).len() == without(prev, keep).len());
            assert(aids_view(out@).len() == aids_view(without(next, keep)).len());
            assert(aids_view(out@) =~= aids_view(without(next, keep)));
        } else {
            assert(without(next, keep) == without(prev, keep));
        }
        k = k + 1;
    }
    assert(wo@.subrange(0, k as int) =~= wo@);
    out
}

} // verus!
