use vstd::prelude::*;
use crate::slots::{Slot, AppliedId};
use crate::unifier::{Unifier, AppliedIdView};
use crate::analysis::SimpleLang;
use crate::egraph::{EGraphView, ENodeView, node_view, node_wf};
use crate::mgu::unifier_below;
use crate::parents::count_true;

verus! {

/// A pair of classes: the one that subsumes first, the one subsumed second.
pub type PairView = (AppliedIdView, AppliedIdView);

/// The e-node `na` of the subsuming class stands for the e-node `nb` of the subsumed
/// class `y`, given the pairs `r` taken to subsume: an application by an application
/// whose functions and arguments are pairs of `r`; a symbol or a number by the same; a
/// variable that `mu` leaves free by the same variable; a variable that `mu` binds by
/// anything, where the class it is bound to subsumes `y`.
pub open spec fn node_match(
    g: EGraphView,
    mu: Map<Slot, AppliedIdView>,
    r: Set<PairView>,
    y: AppliedIdView,
    na: ENodeView,
    nb: ENodeView,
) -> bool {
    match na {
        ENodeView::Var(t) => if mu.contains_key(t) {
            r.contains((g.find_spec(mu[t]), y))
        } else {
            nb == ENodeView::Var(t)
        },
        ENodeView::App(ca, da) => match nb {
            ENodeView::App(cb, db) => r.contains((g.find_spec(ca), g.find_spec(cb))) && r.contains(
                (g.find_spec(da), g.find_spec(db)),
            ),
            _ => false,
        },
        ENodeView::Symbol(f) => nb == ENodeView::Symbol(f),
        ENodeView::Number(k) => nb == ENodeView::Number(k),
    }
}

/// Some e-node of `nas` stands for `nb`.
pub open spec fn node_matched(
    g: EGraphView,
    mu: Map<Slot, AppliedIdView>,
    r: Set<PairView>,
    y: AppliedIdView,
    nas: Seq<ENodeView>,
    nb: ENodeView,
) -> bool {
    exists|i: int| 0 <= i < nas.len() && #[trigger] node_match(g, mu, r, y, nas[i], nb)
}

/// The first class of the pair subsumes the second, given the pairs `r` taken to
/// subsume: they are one class, or every symbol of the second is one of the first and
/// every e-node of the second is stood for by an e-node of the first.
pub open spec fn class_match(g: EGraphView, mu: Map<Slot, AppliedIdView>, r: Set<PairView>, p: PairView) -> bool {
    let nas = g.enodes_spec(p.0);
    let nbs = g.enodes_spec(p.1);
    g.find_id_spec(p.0.0) == g.find_id_spec(p.1.0) || (g.symbols_spec(p.1.0).subset_of(
        g.symbols_spec(p.0.0),
    ) && forall|j: int| 0 <= j < nbs.len() ==> #[trigger] node_matched(g, mu, r, p.1, nas, nbs[j]))
}

/// Every pair of `r` is justified by pairs of `r`: `r` is a morphism, taken as a relation
/// from the classes below the subsumed class to those below the subsuming one.
pub open spec fn is_simulation(g: EGraphView, mu: Map<Slot, AppliedIdView>, r: Set<PairView>) -> bool {
    forall|p: PairView| #[trigger] r.contains(p) ==> class_match(g, mu, r, p)
}

/// `a` subsumes `b` under `mu`: some morphism relates the class of `b` to that of `a`.
pub open spec fn subsumes(g: EGraphView, mu: Map<Slot, AppliedIdView>, a: AppliedIdView, b: AppliedIdView) -> bool {
    exists|r: Set<PairView>| #[trigger] is_simulation(g, mu, r) && r.contains((g.find_spec(a), g.find_spec(b)))
}

/// The pairs that the matching of `na` with `nb` looks at.
pub open spec fn pair_succs(
    g: EGraphView,
    mu: Map<Slot, AppliedIdView>,
    y: AppliedIdView,
    na: ENodeView,
    nb: ENodeView,
) -> Seq<PairView> {
    match na {
        ENodeView::Var(t) => if mu.contains_key(t) {
            seq![(g.find_spec(mu[t]), y)]
        } else {
            Seq::empty()
        },
        ENodeView::App(ca, da) => match nb {
            ENodeView::App(cb, db) => seq![(g.find_spec(ca), g.find_spec(cb)), (g.find_spec(da), g.find_spec(db))],
            _ => Seq::empty(),
        },
        _ => Seq::empty(),
    }
}

/// `q` is one of the pairs that deciding `p` looks at.
pub open spec fn is_succ(g: EGraphView, mu: Map<Slot, AppliedIdView>, p: PairView, q: PairView) -> bool {
    exists|i: int, j: int, k: int|
        0 <= i < g.enodes_spec(p.0).len() && 0 <= j < g.enodes_spec(p.1).len() && 0 <= k < pair_succs(
            g,
            mu,
            p.1,
            g.enodes_spec(p.0)[i],
            g.enodes_spec(p.1)[j],
        ).len() && #[trigger] pair_succs(g, mu, p.1, g.enodes_spec(p.0)[i], g.enodes_spec(p.1)[j])[k] == q
}

/// `path` starts at `root` and goes on by steps of `is_succ`.
pub open spec fn is_path(g: EGraphView, mu: Map<Slot, AppliedIdView>, root: PairView, path: Seq<PairView>) -> bool {
    &&& path.len() >= 1
    &&& path[0] == root
    &&& forall|i: int| 0 <= i < path.len() - 1 ==> is_succ(g, mu, #[trigger] path[i], path[i + 1])
}

/// The pairs that deciding `root` looks at, directly or not.
pub open spec fn reach_set(g: EGraphView, mu: Map<Slot, AppliedIdView>, root: PairView) -> Set<PairView> {
    Set::new(|q: PairView| exists|path: Seq<PairView>| #[trigger] is_path(g, mu, root, path) && path.last() == q)
}

/// The pairs that deciding `root` looks at fit in memory.
pub open spec fn fits(g: EGraphView, mu: Map<Slot, AppliedIdView>, root: PairView) -> bool {
    reach_set(g, mu, root).finite() && reach_set(g, mu, root).len() < usize::MAX
}

/// What the subsumption test answers: whether `a` subsumes `b` under `mu`, where the
/// pairs it looks at fit in memory; no otherwise.
pub open spec fn decides(g: EGraphView, mu: Map<Slot, AppliedIdView>, a: AppliedIdView, b: AppliedIdView) -> bool {
    fits(g, mu, (g.find_spec(a), g.find_spec(b))) && subsumes(g, mu, a, b)
}

/// A class subsumes itself, whatever `mu`.
pub proof fn lemma_subsumes_refl(g: EGraphView, mu: Map<Slot, AppliedIdView>, a: AppliedIdView)
    ensures
        subsumes(g, mu, a, a),
{
    let p = (g.find_spec(a), g.find_spec(a));
    let r = Set::empty().insert(p);
    assert(is_simulation(g, mu, r)) by {
        assert forall|q: PairView| #[trigger] r.contains(q) implies class_match(g, mu, r, q) by {
            assert(q == p);
        }
    }
}

/// More pairs taken to subsume keep every e-node match that the pairs it looks at allow.
proof fn lemma_node_match_mono(
    g: EGraphView,
    mu: Map<Slot, AppliedIdView>,
    s: Set<PairView>,
    r: Set<PairView>,
    y: AppliedIdView,
    na: ENodeView,
    nb: ENodeView,
)
    requires
        node_match(g, mu, s, y, na, nb),
        forall|k: int|
            0 <= k < pair_succs(g, mu, y, na, nb).len() && s.contains(
                #[trigger] pair_succs(g, mu, y, na, nb)[k],
            ) ==> r.contains(pair_succs(g, mu, y, na, nb)[k]),
    ensures
        node_match(g, mu, r, y, na, nb),
{
    let ps = pair_succs(g, mu, y, na, nb);
    match na {
        ENodeView::Var(t) => {
            if mu.contains_key(t) {
                assert(ps[0] == (g.find_spec(mu[t]), y));
            }
        },
        ENodeView::App(ca, da) => {
            match nb {
                ENodeView::App(cb, db) => {
                    assert(ps[0] == (g.find_spec(ca), g.find_spec(cb)));
                    assert(ps[1] == (g.find_spec(da), g.find_spec(db)));
                },
                _ => {},
            }
        },
        _ => {},
    }
}

/// A pair that matches given `s` matches given `r` where every pair it looks at and `s`
/// holds is in `r`.
proof fn lemma_class_match_mono(
    g: EGraphView,
    mu: Map<Slot, AppliedIdView>,
    s: Set<PairView>,
    r: Set<PairView>,
    p: PairView,
)
    requires
        class_match(g, mu, s, p),
        forall|q: PairView| is_succ(g, mu, p, q) && s.contains(q) ==> #[trigger] r.contains(q),
    ensures
        class_match(g, mu, r, p),
{
    let nas = g.enodes_spec(p.0);
    let nbs = g.enodes_spec(p.1);
    if g.find_id_spec(p.0.0) != g.find_id_spec(p.1.0) {
        assert forall|j: int| 0 <= j < nbs.len() implies #[trigger] node_matched(g, mu, r, p.1, nas, nbs[j]) by {
            assert(node_matched(g, mu, s, p.1, nas, nbs[j]));
            let i = choose|i: int| 0 <= i < nas.len() && #[trigger] node_match(g, mu, s, p.1, nas[i], nbs[j]);
            let ps = pair_succs(g, mu, p.1, nas[i], nbs[j]);
            assert forall|k: int| 0 <= k < ps.len() && s.contains(#[trigger] ps[k]) implies r.contains(ps[k]) by {
                assert(is_succ(g, mu, p, ps[k]));
            }
            lemma_node_match_mono(g, mu, s, r, p.1, nas[i], nbs[j]);
        }
    }
}

/// The views of a list of pairs.
pub open spec fn pairs_view(u: Seq<(AppliedId, AppliedId)>) -> Seq<PairView> {
    u.map_values(|p: (AppliedId, AppliedId)| (p.0@, p.1@))
}

/// The pairs of the list that are still taken to subsume.
pub open spec fn alive_set(u: Seq<PairView>, alive: Seq<bool>) -> Set<PairView> {
    Set::new(|q: PairView| exists|i: int| 0 <= i < u.len() && u[i] == q && #[trigger] alive[i])
}

/// Every pair of the list is well formed and names classes below `n`.
pub open spec fn pairs_ok(u: Seq<(AppliedId, AppliedId)>, n: nat) -> bool {
    forall|i: int|
        0 <= i < u.len() ==> (#[trigger] u[i]).0.wf() && u[i].1.wf() && u[i].0.id < n && u[i].1.id < n
}

/// The position of the pair `(x, y)` in the list.
fn pair_index(u: &Vec<(AppliedId, AppliedId)>, x: &AppliedId, y: &AppliedId, Ghost(n): Ghost<nat>) -> (r: Option<usize>)
    requires
        pairs_ok(u@, n),
        x.wf(),
        y.wf(),
    ensures
        match r {
            Some(i) => i < u@.len() && pairs_view(u@)[i as int] == (x@, y@),
            None => !pairs_view(u@).contains((x@, y@)),
        },
{
    let mut i: usize = 0;
    while i < u.len()
        invariant
            pairs_ok(u@, n),
            x.wf(),
            y.wf(),
            0 <= i <= u@.len(),
            forall|j: int| 0 <= j < i ==> pairs_view(u@)[j] != (x@, y@),
        decreases u@.len() - i,
    {
        assert(u@[i as int].0.wf() && u@[i as int].1.wf());
        if u[i].0.equals(x) && u[i].1.equals(y) {
            return Some(i);
        }
        i = i + 1;
    }
    proof {
        if pairs_view(u@).contains((x@, y@)) {
            let j = choose|j: int| 0 <= j < pairs_view(u@).len() && pairs_view(u@)[j] == (x@, y@);
        }
    }
    None
}

/// Whether the pair `(x, y)` is still taken to subsume.
fn member(u: &Vec<(AppliedId, AppliedId)>, alive: &Vec<bool>, x: &AppliedId, y: &AppliedId, Ghost(n): Ghost<nat>) -> (r: bool)
    requires
        pairs_ok(u@, n),
        pairs_view(u@).no_duplicates(),
        alive@.len() == u@.len(),
        x.wf(),
        y.wf(),
    ensures
        r == alive_set(pairs_view(u@), alive@).contains((x@, y@)),
{
    match pair_index(u, x, y, Ghost(n)) {
        Some(i) => {
            proof {
                let pv = pairs_view(u@);
                if alive_set(pv, alive@).contains((x@, y@)) {
                    let j = choose|j: int| 0 <= j < pv.len() && pv[j] == (x@, y@) && #[trigger] alive@[j];
                    assert(j == i);
                }
                if alive@[i as int] {
                    assert(alive_set(pv, alive@).contains((x@, y@)));
                }
            }
            alive[i]
        },
        None => {
            proof {
                let pv = pairs_view(u@);
                if alive_set(pv, alive@).contains((x@, y@)) {
                    let j = choose|j: int| 0 <= j < pv.len() && pv[j] == (x@, y@) && #[trigger] alive@[j];
                    assert(pv.contains((x@, y@)));
                }
            }
            false
        },
    }
}

/// Whether `na` stands for `nb`, given the pairs still taken to subsume.
fn node_match_exec(
    g: &EGraphView,
    mu: &Unifier,
    u: &Vec<(AppliedId, AppliedId)>,
    alive: &Vec<bool>,
    y: &AppliedId,
    na: &SimpleLang,
    nb: &SimpleLang,
) -> (r: bool)
    requires
        g.wf(),
        mu.wf(),
        unifier_below(mu@, g.len()),
        pairs_ok(u@, g.len()),
        pairs_view(u@).no_duplicates(),
        alive@.len() == u@.len(),
        y.wf(),
        node_wf(*na, g.len()),
        node_wf(*nb, g.len()),
    ensures
        r == node_match(*g, mu@, alive_set(pairs_view(u@), alive@), y@, node_view(*na), node_view(*nb)),
{
    match na {
        SimpleLang::Var(t) => match mu.get(*t) {
            Some(c) => {
                let fc = g.find_applied_id(c);
                member(u, alive, &fc, y, Ghost(g.len()))
            },
            None => match nb {
                SimpleLang::Var(s) => *s == *t,
                _ => false,
            },
        },
        SimpleLang::App(ca, da) => match nb {
            SimpleLang::App(cb, db) => {
                let fca = g.find_applied_id(ca);
                let fcb = g.find_applied_id(cb);
                let fda = g.find_applied_id(da);
                let fdb = g.find_applied_id(db);
                let first = member(u, alive, &fca, &fcb, Ghost(g.len()));
                let second = member(u, alive, &fda, &fdb, Ghost(g.len()));
                first && second
            },
            _ => false,
        },
        SimpleLang::Symbol(f) => match nb {
            SimpleLang::Symbol(h) => *f == *h,
            _ => false,
        },
        SimpleLang::Number(k) => match nb {
            SimpleLang::Number(q) => *k == *q,
            _ => false,
        },
    }
}

/// Whether the pair `(x, y)` matches, given the pairs still taken to subsume.
fn class_match_exec(
    g: &EGraphView,
    mu: &Unifier,
    u: &Vec<(AppliedId, AppliedId)>,
    alive: &Vec<bool>,
    x: &AppliedId,
    y: &AppliedId,
) -> (r: bool)
    requires
        g.wf(),
        mu.wf(),
        unifier_below(mu@, g.len()),
        pairs_ok(u@, g.len()),
        pairs_view(u@).no_duplicates(),
        alive@.len() == u@.len(),
        x.wf(),
        y.wf(),
        x.id < g.len(),
        y.id < g.len(),
    ensures
        r == class_match(*g, mu@, alive_set(pairs_view(u@), alive@), (x@, y@)),
{
    let ghost rs = alive_set(pairs_view(u@), alive@);
    if g.find_id(x.id) == g.find_id(y.id) {
        return true;
    }
    if !g.symbols(y.id).is_subset(g.symbols(x.id)) {
        return false;
    }
    let nas = g.enodes_applied(x);
    let nbs = g.enodes_applied(y);
    let ghost nav = nas@.map_values(|e: SimpleLang| node_view(e));
    let ghost nbv = nbs@.map_values(|e: SimpleLang| node_view(e));
    let mut j: usize = 0;
    while j < nbs.len()
        invariant
            g.wf(),
            mu.wf(),
            unifier_below(mu@, g.len()),
            pairs_ok(u@, g.len()),
            pairs_view(u@).no_duplicates(),
            alive@.len() == u@.len(),
            y.wf(),
            rs == alive_set(pairs_view(u@), alive@),
            nav == nas@.map_values(|e: SimpleLang| node_view(e)),
            nbv == nbs@.map_values(|e: SimpleLang| node_view(e)),
            nav == g.enodes_spec(x@),
            nbv == g.enodes_spec(y@),
            g.find_id_spec(x@.0) != g.find_id_spec(y@.0),
            g.symbols_spec(y@.0).subset_of(g.symbols_spec(x@.0)),
            forall|q: int| 0 <= q < nas@.len() ==> node_wf(#[trigger] nas@[q], g.len()),
            forall|q: int| 0 <= q < nbs@.len() ==> node_wf(#[trigger] nbs@[q], g.len()),
            0 <= j <= nbs@.len(),
            forall|q: int| 0 <= q < j ==> #[trigger] node_matched(*g, mu@, rs, y@, nav, nbv[q]),
        decreases nbs@.len() - j,
    {
        let mut found = false;
        let mut i: usize = 0;
        while i < nas.len()
            invariant
                g.wf(),
                mu.wf(),
                unifier_below(mu@, g.len()),
                pairs_ok(u@, g.len()),
                pairs_view(u@).no_duplicates(),
                alive@.len() == u@.len(),
                y.wf(),
                rs == alive_set(pairs_view(u@), alive@),
                nav == nas@.map_values(|e: SimpleLang| node_view(e)),
                nbv == nbs@.map_values(|e: SimpleLang| node_view(e)),
                nav == g.enodes_spec(x@),
                nbv == g.enodes_spec(y@),
                g.find_id_spec(x@.0) != g.find_id_spec(y@.0),
                forall|q: int| 0 <= q < nas@.len() ==> node_wf(#[trigger] nas@[q], g.len()),
                forall|q: int| 0 <= q < nbs@.len() ==> node_wf(#[trigger] nbs@[q], g.len()),
                0 <= j < nbs@.len(),
                0 <= i <= nas@.len(),
                found == exists|q: int| 0 <= q < i && #[trigger] node_match(*g, mu@, rs, y@, nav[q], nbv[j as int]),
            decreases nas@.len() - i,
        {
            proof {
                assert(node_wf(nas@[i as int], g.len()));
                assert(node_wf(nbs@[j as int], g.len()));
            }
            let m = node_match_exec(g, mu, u, alive, y, &nas[i], &nbs[j]);
            proof {
                assert(nav[i as int] == node_view(nas@[i as int]));
                assert(nbv[j as int] == node_view(nbs@[j as int]));
            }
            if m {
                found = true;
            }
            i = i + 1;
        }
        if !found {
            proof {
                assert(!node_matched(*g, mu@, rs, y@, nav, nbv[j as int]));
                assert(nbv.len() == nbs@.len());
                assert(g.find_id_spec(x@.0) != g.find_id_spec(y@.0));
            }
            return false;
        }
        j = j + 1;
    }
    proof {
        assert forall|q: int| 0 <= q < nbv.len() implies #[trigger] node_matched(*g, mu@, rs, y@, nav, nbv[q]) by {}
    }
    true
}

/// The pairs that the matching of `na` with `nb` looks at.
fn pair_succs_exec(
    g: &EGraphView,
    mu: &Unifier,
    y: &AppliedId,
    na: &SimpleLang,
    nb: &SimpleLang,
) -> (r: Vec<(AppliedId, AppliedId)>)
    requires
        g.wf(),
        mu.wf(),
        unifier_below(mu@, g.len()),
        y.wf(),
        y.id < g.len(),
        node_wf(*na, g.len()),
        node_wf(*nb, g.len()),
    ensures
        pairs_ok(r@, g.len()),
        pairs_view(r@) == pair_succs(*g, mu@, y@, node_view(*na), node_view(*nb)),
{
    let mut out: Vec<(AppliedId, AppliedId)> = Vec::new();
    match na {
        SimpleLang::Var(t) => match mu.get(*t) {
            Some(c) => {
                out.push((g.find_applied_id(c), y.duplicate()));
            },
            None => {},
        },
        SimpleLang::App(ca, da) => match nb {
            SimpleLang::App(cb, db) => {
                out.push((g.find_applied_id(ca), g.find_applied_id(cb)));
                out.push((g.find_applied_id(da), g.find_applied_id(db)));
            },
            _ => {},
        },
        _ => {},
    }
    assert(pairs_view(out@) =~= pair_succs(*g, mu@, y@, node_view(*na), node_view(*nb)));
    out
}

/// Adds the pair `(x, y)` to the list unless it is there; `false`, with the list left as
/// it is, where it is not there and the list cannot grow further.
fn add_pair(u: &mut Vec<(AppliedId, AppliedId)>, x: AppliedId, y: AppliedId, Ghost(n): Ghost<nat>) -> (r: bool)
    requires
        pairs_ok(old(u)@, n),
        pairs_view(old(u)@).no_duplicates(),
        x.wf(),
        y.wf(),
        x.id < n,
        y.id < n,
    ensures
        pairs_ok(final(u)@, n),
        pairs_view(final(u)@).no_duplicates(),
        r ==> pairs_view(final(u)@) == (if pairs_view(old(u)@).contains((x@, y@)) {
            pairs_view(old(u)@)
        } else {
            pairs_view(old(u)@).push((x@, y@))
        }),
        r ==> final(u)@.len() < usize::MAX || final(u)@ == old(u)@,
        !r ==> final(u)@ == old(u)@ && !pairs_view(old(u)@).contains((x@, y@)) && old(u)@.len() + 1
            >= usize::MAX,
{
    match pair_index(u, &x, &y, Ghost(n)) {
        Some(_) => true,
        None => {
            if u.len() >= usize::MAX - 1 {
                return false;
            }
            let ghost before = u@;
            u.push((x, y));
            proof {
                assert(pairs_view(u@) =~= pairs_view(before).push((x@, y@)));
                let pv = pairs_view(u@);
                assert forall|i: int, j: int| 0 <= i < pv.len() && 0 <= j < pv.len() && i != j implies pv[i]
                    != pv[j] by {
                    if i == before.len() {
                        assert(pv[j] == pairs_view(before)[j]);
                    } else if j == before.len() {
                        assert(pv[i] == pairs_view(before)[i]);
                    } else {
                        assert(pv[i] == pairs_view(before)[i]);
                        assert(pv[j] == pairs_view(before)[j]);
                    }
                }
            }
            true
        },
    }
}

/// Every pair of a path is in a list closed under `is_succ` that holds its start.
proof fn lemma_reach_closed(g: EGraphView, mu: Map<Slot, AppliedIdView>, root: PairView, pv: Seq<PairView>, path: Seq<PairView>)
    requires
        pv.contains(root),
        forall|j: int, z: PairView| 0 <= j < pv.len() && #[trigger] is_succ(g, mu, pv[j], z) ==> pv.contains(z),
        is_path(g, mu, root, path),
    ensures
        forall|i: int| 0 <= i < path.len() ==> pv.contains(#[trigger] path[i]),
{
    assert forall|i: int| 0 <= i < path.len() implies pv.contains(#[trigger] path[i]) by {
        lemma_path_prefix_in(g, mu, root, pv, path, i);
    }
}

proof fn lemma_path_prefix_in(g: EGraphView, mu: Map<Slot, AppliedIdView>, root: PairView, pv: Seq<PairView>, path: Seq<PairView>, i: int)
    requires
        pv.contains(root),
        forall|j: int, z: PairView| 0 <= j < pv.len() && #[trigger] is_succ(g, mu, pv[j], z) ==> pv.contains(z),
        is_path(g, mu, root, path),
        0 <= i < path.len(),
    ensures
        pv.contains(path[i]),
    decreases i,
{
    if i > 0 {
        lemma_path_prefix_in(g, mu, root, pv, path, i - 1);
        let j = choose|j: int| 0 <= j < pv.len() && pv[j] == path[i - 1];
        assert(is_succ(g, mu, path[i - 1], path[i]));
        assert(is_succ(g, mu, pv[j], path[i]));
    }
}

/// A successor of a reached pair is reached.
proof fn lemma_reach_succ(g: EGraphView, mu: Map<Slot, AppliedIdView>, root: PairView, p: PairView, q: PairView)
    requires
        reach_set(g, mu, root).contains(p),
        is_succ(g, mu, p, q),
    ensures
        reach_set(g, mu, root).contains(q),
{
    let path = choose|path: Seq<PairView>| #[trigger] is_path(g, mu, root, path) && path.last() == p;
    let p2 = path.push(q);
    assert forall|i: int| 0 <= i < p2.len() - 1 implies is_succ(g, mu, #[trigger] p2[i], p2[i + 1]) by {
        if i < path.len() - 1 {
            assert(p2[i] == path[i] && p2[i + 1] == path[i + 1]);
        } else {
            assert(p2[i] == p);
        }
    }
    assert(is_path(g, mu, root, p2));
    assert(p2.last() == q);
}

/// Adds each pair of `ps` to the list unless it is there; `false` where the list cannot
/// hold them, which happens only where the pairs reached from `root` do not fit.
fn add_all(
    u: &mut Vec<(AppliedId, AppliedId)>,
    ps: &Vec<(AppliedId, AppliedId)>,
    Ghost(n): Ghost<nat>,
    Ghost(g): Ghost<EGraphView>,
    Ghost(mu): Ghost<Map<Slot, AppliedIdView>>,
    Ghost(root): Ghost<PairView>,
) -> (r: bool)
    requires
        pairs_ok(old(u)@, n),
        pairs_ok(ps@, n),
        pairs_view(old(u)@).no_duplicates(),
        old(u)@.len() < usize::MAX,
        forall|j: int| 0 <= j < old(u)@.len() ==> reach_set(g, mu, root).contains(#[trigger] pairs_view(old(u)@)[j]),
        forall|k: int| 0 <= k < ps@.len() ==> reach_set(g, mu, root).contains(#[trigger] pairs_view(ps@)[k]),
    ensures
        r ==> {
            &&& pairs_ok(final(u)@, n)
            &&& pairs_view(final(u)@).no_duplicates()
            &&& final(u)@.len() < usize::MAX
            &&& final(u)@.len() >= old(u)@.len()
            &&& pairs_view(final(u)@).subrange(0, old(u)@.len() as int) == pairs_view(old(u)@)
            &&& forall|j: int| 0 <= j < final(u)@.len() ==> reach_set(g, mu, root).contains(#[trigger] pairs_view(final(u)@)[j])
            &&& forall|k: int| 0 <= k < ps@.len() ==> pairs_view(final(u)@).contains(#[trigger] pairs_view(ps@)[k])
        },
        !r ==> !fits(g, mu, root),
{
    let ghost u0 = pairs_view(u@);
    let ghost psv = pairs_view(ps@);
    let mut k: usize = 0;
    while k < ps.len()
        invariant
            pairs_ok(u@, n),
            pairs_ok(ps@, n),
            psv == pairs_view(ps@),
            pairs_view(u@).no_duplicates(),
            u@.len() < usize::MAX,
            u@.len() >= u0.len(),
            pairs_view(u@).subrange(0, u0.len() as int) == u0,
            forall|j: int| 0 <= j < u@.len() ==> reach_set(g, mu, root).contains(#[trigger] pairs_view(u@)[j]),
            forall|k: int| 0 <= k < ps@.len() ==> reach_set(g, mu, root).contains(#[trigger] psv[k]),
            0 <= k <= ps@.len(),
            forall|kk: int| 0 <= kk < k ==> pairs_view(u@).contains(#[trigger] psv[kk]),
        decreases ps@.len() - k,
    {
        let ghost pb = pairs_view(u@);
        assert(ps@[k as int].0.wf() && ps@[k as int].1.wf());
        let qx = ps[k].0.duplicate();
        let qy = ps[k].1.duplicate();
        assert(psv[k as int] == (qx@, qy@));
        if !add_pair(u, qx, qy, Ghost(n)) {
            proof {
                let rs = reach_set(g, mu, root);
                if rs.finite() {
                    let big = pb.to_set().insert((qx@, qy@));
                    assert(big.subset_of(rs)) by {
                        assert forall|z: PairView| big.contains(z) implies rs.contains(z) by {
                            if z != (qx@, qy@) {
                                let w = choose|w: int| 0 <= w < pb.len() && pb[w] == z;
                            }
                        }
                    }
                    pb.unique_seq_to_set();
                    assert(!pb.to_set().contains((qx@, qy@)));
                    assert(big.len() == pb.to_set().len() + 1);
                    vstd::set_lib::lemma_len_subset(big, rs);
                }
            }
            return false;
        }
        proof {
            let pn = pairs_view(u@);
            if !pb.contains((qx@, qy@)) {
                assert(pn[pb.len() as int] == (qx@, qy@));
                assert(pn.subrange(0, pb.len() as int) =~= pb);
            } else {
                assert(pn == pb);
            }
            assert(pn.subrange(0, u0.len() as int) =~= u0) by {
                assert forall|j: int| 0 <= j < u0.len() implies pn[j] == u0[j] by {
                    assert(pn[j] == pb[j]);
                    assert(pb.subrange(0, u0.len() as int)[j] == u0[j]);
                }
            }
            assert forall|j: int| 0 <= j < u@.len() implies reach_set(g, mu, root).contains(#[trigger] pn[j]) by {
                if j < pb.len() {
                    assert(pn[j] == pb[j]);
                } else {
                    assert(pn.len() != pb.len());
                    assert(!pb.contains((qx@, qy@)));
                    assert(pn == pb.push((qx@, qy@)));
                    assert(j == pb.len());
                    assert(pn[j] == (qx@, qy@));
                }
            }
            assert forall|kk: int| 0 <= kk <= k implies pn.contains(#[trigger] psv[kk]) by {
                if kk < k {
                    let w = choose|w: int| 0 <= w < pb.len() && pb[w] == psv[kk];
                    assert(pn[w] == pb[w]);
                }
            }
        }
        k = k + 1;
    }
    true
}

/// The pairs that deciding `(ra, rb)` looks at, the first being `(ra, rb)` itself; `None`
/// where they do not fit in memory.
fn explore(g: &EGraphView, mu: &Unifier, ra: &AppliedId, rb: &AppliedId) -> (r: Option<Vec<(AppliedId, AppliedId)>>)
    requires
        g.wf(),
        mu.wf(),
        unifier_below(mu@, g.len()),
        ra.wf(),
        rb.wf(),
        ra.id < g.len(),
        rb.id < g.len(),
    ensures
        match r {
            Some(u) => {
                &&& u@.len() >= 1
                &&& pairs_view(u@)[0] == (ra@, rb@)
                &&& pairs_ok(u@, g.len())
                &&& pairs_view(u@).no_duplicates()
                &&& forall|j: int, z: PairView|
                    0 <= j < u@.len() && #[trigger] is_succ(*g, mu@, pairs_view(u@)[j], z) ==> pairs_view(
                        u@,
                    ).contains(z)
                &&& fits(*g, mu@, (ra@, rb@))
            },
            None => !fits(*g, mu@, (ra@, rb@)),
        },
{
    let ghost n = g.len();
    let ghost root = (ra@, rb@);
    let mut u: Vec<(AppliedId, AppliedId)> = Vec::new();
    u.push((ra.duplicate(), rb.duplicate()));
    proof {
        assert(pairs_view(u@) =~= seq![root]);
        assert(is_path(*g, mu@, root, seq![root]));
        assert(seq![root].last() == root);
        assert(reach_set(*g, mu@, root).contains(root));
    }
    let mut i: usize = 0;
    while i < u.len()
        invariant
            g.wf(),
            n == g.len(),
            mu.wf(),
            unifier_below(mu@, n),
            pairs_ok(u@, n),
            pairs_view(u@).no_duplicates(),
            u@.len() >= 1,
            u@.len() < usize::MAX,
            pairs_view(u@)[0] == root,
            root == (ra@, rb@),
            0 <= i <= u@.len(),
            forall|j: int, z: PairView|
                0 <= j < i && #[trigger] is_succ(*g, mu@, pairs_view(u@)[j], z) ==> pairs_view(u@).contains(z),
            forall|j: int| 0 <= j < u@.len() ==> reach_set(*g, mu@, root).contains(#[trigger] pairs_view(u@)[j]),
        decreases usize::MAX - u@.len(), u@.len() - i,
    {
        let x = u[i].0.duplicate();
        let y = u[i].1.duplicate();
        let ghost pi = pairs_view(u@)[i as int];
        assert(pi == (x@, y@));
        let nas = g.enodes_applied(&x);
        let nbs = g.enodes_applied(&y);
        let ghost nav = nas@.map_values(|e: SimpleLang| node_view(e));
        let ghost nbv = nbs@.map_values(|e: SimpleLang| node_view(e));
        let ghost len0 = u@.len();
        let mut ia: usize = 0;
        while ia < nas.len()
            invariant
                g.wf(),
                n == g.len(),
                mu.wf(),
                unifier_below(mu@, n),
                pairs_ok(u@, n),
                pairs_view(u@).no_duplicates(),
                u@.len() >= len0,
                u@.len() < usize::MAX,
                len0 > i,
                pairs_view(u@)[0] == root,
                root == (ra@, rb@),
                pairs_view(u@)[i as int] == pi,
                pi == (x@, y@),
                y.wf(),
                y.id < n,
                nav == nas@.map_values(|e: SimpleLang| node_view(e)),
                nbv == nbs@.map_values(|e: SimpleLang| node_view(e)),
                nav == g.enodes_spec(x@),
                nbv == g.enodes_spec(y@),
                forall|q: int| 0 <= q < nas@.len() ==> node_wf(#[trigger] nas@[q], n),
                forall|q: int| 0 <= q < nbs@.len() ==> node_wf(#[trigger] nbs@[q], n),
                0 <= ia <= nas@.len(),
                forall|j: int, z: PairView|
                    0 <= j < i && #[trigger] is_succ(*g, mu@, pairs_view(u@)[j], z) ==> pairs_view(u@).contains(z),
                forall|j: int| 0 <= j < u@.len() ==> reach_set(*g, mu@, root).contains(#[trigger] pairs_view(u@)[j]),
                forall|p: int, q: int, k: int|
                    0 <= p < ia && 0 <= q < nbv.len() && 0 <= k < pair_succs(*g, mu@, y@, nav[p], nbv[q]).len()
                        ==> pairs_view(u@).contains(#[trigger] pair_succs(*g, mu@, y@, nav[p], nbv[q])[k]),
            decreases nas@.len() - ia,
        {
            let mut ib: usize = 0;
            while ib < nbs.len()
                invariant
                    g.wf(),
                    n == g.len(),
                    mu.wf(),
                    unifier_below(mu@, n),
                    pairs_ok(u@, n),
                    pairs_view(u@).no_duplicates(),
                    u@.len() >= len0,
                    u@.len() < usize::MAX,
                    len0 > i,
                    pairs_view(u@)[0] == root,
                    root == (ra@, rb@),
                    pairs_view(u@)[i as int] == pi,
                    pi == (x@, y@),
                    y.wf(),
                    y.id < n,
                    nav == nas@.map_values(|e: SimpleLang| node_view(e)),
                    nbv == nbs@.map_values(|e: SimpleLang| node_view(e)),
                    nav == g.enodes_spec(x@),
                    nbv == g.enodes_spec(y@),
                    forall|q: int| 0 <= q < nas@.len() ==> node_wf(#[trigger] nas@[q], n),
                    forall|q: int| 0 <= q < nbs@.len() ==> node_wf(#[trigger] nbs@[q], n),
                    0 <= ia < nas@.len(),
                    0 <= ib <= nbs@.len(),
                    forall|j: int, z: PairView|
                        0 <= j < i && #[trigger] is_succ(*g, mu@, pairs_view(u@)[j], z) ==> pairs_view(u@).contains(z),
                    forall|j: int| 0 <= j < u@.len() ==> reach_set(*g, mu@, root).contains(#[trigger] pairs_view(u@)[j]),
                    forall|p: int, q: int, k: int|
                        0 <= p < nav.len() && 0 <= q < nbv.len() && (p < ia || (p == ia && q < ib)) && 0 <= k
                            < pair_succs(*g, mu@, y@, nav[p], nbv[q]).len() ==> pairs_view(u@).contains(
                            #[trigger] pair_succs(*g, mu@, y@, nav[p], nbv[q])[k],
                        ),
                decreases nbs@.len() - ib,
            {
                proof {
                    assert(node_wf(nas@[ia as int], n));
                    assert(node_wf(nbs@[ib as int], n));
                    assert(nav[ia as int] == node_view(nas@[ia as int]));
                    assert(nbv[ib as int] == node_view(nbs@[ib as int]));
                }
                let ps = pair_succs_exec(g, mu, &y, &nas[ia], &nbs[ib]);
                let ghost psv = pairs_view(ps@);
                let ghost pb = pairs_view(u@);
                proof {
                    assert(pi.0 == x@ && pi.1 == y@);
                    assert forall|kk: int| 0 <= kk < psv.len() implies reach_set(*g, mu@, root).contains(#[trigger] psv[kk]) by {
                        assert(pair_succs(*g, mu@, pi.1, g.enodes_spec(pi.0)[ia as int], g.enodes_spec(pi.1)[ib as int])[kk]
                            == psv[kk]);
                        assert(is_succ(*g, mu@, pi, psv[kk]));
                        lemma_reach_succ(*g, mu@, root, pi, psv[kk]);
                    }
                }
                if !add_all(&mut u, &ps, Ghost(n), Ghost(*g), Ghost(mu@), Ghost(root)) {
                    return None;
                }
                proof {
                    let pn = pairs_view(u@);
                    assert forall|z: PairView| pb.contains(z) implies pn.contains(z) by {
                        let w = choose|w: int| 0 <= w < pb.len() && pb[w] == z;
                        assert(pn[w] == pb[w]);
                    }
                    assert(pn[0] == pb[0]);
                    assert(pn[i as int] == pb[i as int]);
                    assert forall|j: int, z: PairView|
                        0 <= j < i && #[trigger] is_succ(*g, mu@, pn[j], z) implies pn.contains(z) by {
                        assert(pn[j] == pb[j]);
                        assert(pb.contains(z));
                    }
                    assert forall|p: int, q: int, kk: int|
                        0 <= p < nav.len() && 0 <= q < nbv.len() && (p < ia || (p == ia && q < ib + 1)) && 0 <= kk
                            < pair_succs(*g, mu@, y@, nav[p], nbv[q]).len() implies pn.contains(
                            #[trigger] pair_succs(*g, mu@, y@, nav[p], nbv[q])[kk],
                        ) by {
                        if p == ia && q == ib {
                            assert(psv[kk] == pair_succs(*g, mu@, y@, nav[p], nbv[q])[kk]);
                        } else {
                            assert(pb.contains(pair_succs(*g, mu@, y@, nav[p], nbv[q])[kk]));
                        }
                    }
                }
                ib = ib + 1;
            }
            ia = ia + 1;
        }
        proof {
            let pv = pairs_view(u@);
            assert forall|j: int, z: PairView| 0 <= j < i + 1 && #[trigger] is_succ(*g, mu@, pv[j], z) implies pv.contains(z) by {
                if j == i {
                    let (p, q, kk) = choose|p: int, q: int, kk: int|
                        0 <= p < g.enodes_spec(pv[j].0).len() && 0 <= q < g.enodes_spec(pv[j].1).len() && 0 <= kk
                            < pair_succs(*g, mu@, pv[j].1, g.enodes_spec(pv[j].0)[p], g.enodes_spec(pv[j].1)[q]).len()
                            && #[trigger] pair_succs(*g, mu@, pv[j].1, g.enodes_spec(pv[j].0)[p], g.enodes_spec(pv[j].1)[q])[kk]
                            == z;
                    assert(pair_succs(*g, mu@, y@, nav[p], nbv[q])[kk] == z);
                }
            }
        }
        i = i + 1;
    }
    proof {
        let pv = pairs_view(u@);
        let rs = reach_set(*g, mu@, root);
        assert(pv.contains(root)) by {
            assert(pv[0] == root);
        }
        assert forall|z: PairView| rs.contains(z) implies pv.to_set().contains(z) by {
            let path = choose|path: Seq<PairView>| #[trigger] is_path(*g, mu@, root, path) && path.last() == z;
            lemma_reach_closed(*g, mu@, root, pv, path);
            assert(path[path.len() - 1] == z);
        }
        assert forall|z: PairView| pv.to_set().contains(z) implies rs.contains(z) by {
            let w = choose|w: int| 0 <= w < pv.len() && pv[w] == z;
        }
        assert(rs =~= pv.to_set());
        pv.unique_seq_to_set();
    }
    Some(u)
}

/// Taking back one `true` lowers the count of `true`s.
proof fn lemma_count_kill(s: Seq<bool>, i: int)
    requires
        0 <= i < s.len(),
        s[i],
    ensures
        count_true(s.update(i, false)) + 1 == count_true(s),
    decreases s.len(),
{
    let t = s.update(i, false);
    if i == s.len() - 1 {
        assert(t.drop_last() =~= s.drop_last());
    } else {
        assert(t.drop_last() =~= s.drop_last().update(i, false));
        lemma_count_kill(s.drop_last(), i);
    }
}

/// The pairs of the list that some morphism holds, found by taking back, round after
/// round, every pair that the others no longer justify: what is left is a morphism, and
/// every morphism keeps within it.
fn refine(g: &EGraphView, mu: &Unifier, u: &Vec<(AppliedId, AppliedId)>) -> (alive: Vec<bool>)
    requires
        g.wf(),
        mu.wf(),
        unifier_below(mu@, g.len()),
        pairs_ok(u@, g.len()),
        pairs_view(u@).no_duplicates(),
        forall|j: int, z: PairView|
            0 <= j < u@.len() && #[trigger] is_succ(*g, mu@, pairs_view(u@)[j], z) ==> pairs_view(u@).contains(z),
    ensures
        alive@.len() == u@.len(),
        is_simulation(*g, mu@, alive_set(pairs_view(u@), alive@)),
        forall|sim: Set<PairView>, i: int|
            #[trigger] is_simulation(*g, mu@, sim) && 0 <= i < u@.len() && #[trigger] sim.contains(pairs_view(u@)[i]) ==> alive@[i],
{
    let ghost pv = pairs_view(u@);
    let mut alive: Vec<bool> = Vec::new();
    let mut k: usize = 0;
    while k < u.len()
        invariant
            0 <= k <= u@.len(),
            alive@.len() == k,
            forall|j: int| 0 <= j < k ==> #[trigger] alive@[j],
        decreases u@.len() - k,
    {
        alive.push(true);
        k = k + 1;
    }
    let mut changed = true;
    while changed
        invariant
            g.wf(),
            mu.wf(),
            unifier_below(mu@, g.len()),
            pairs_ok(u@, g.len()),
            pv == pairs_view(u@),
            pv.no_duplicates(),
            forall|j: int, z: PairView| 0 <= j < u@.len() && #[trigger] is_succ(*g, mu@, pv[j], z) ==> pv.contains(z),
            alive@.len() == u@.len(),
            forall|sim: Set<PairView>, i: int|
                #[trigger] is_simulation(*g, mu@, sim) && 0 <= i < u@.len() && #[trigger] sim.contains(pv[i]) ==> alive@[i],
            !changed ==> is_simulation(*g, mu@, alive_set(pv, alive@)),
        decreases count_true(alive@) + (if changed { 1nat } else { 0nat }),
    {
        let ghost start = alive@;
        changed = false;
        let mut i: usize = 0;
        while i < u.len()
            invariant
                g.wf(),
                mu.wf(),
                unifier_below(mu@, g.len()),
                pairs_ok(u@, g.len()),
                pv == pairs_view(u@),
                pv.no_duplicates(),
                forall|j: int, z: PairView| 0 <= j < u@.len() && #[trigger] is_succ(*g, mu@, pv[j], z) ==> pv.contains(z),
                alive@.len() == u@.len(),
                start.len() == u@.len(),
                forall|sim: Set<PairView>, i: int|
                    #[trigger] is_simulation(*g, mu@, sim) && 0 <= i < u@.len() && #[trigger] sim.contains(pv[i]) ==> alive@[i],
                0 <= i <= u@.len(),
                !changed ==> alive@ == start,
                changed ==> count_true(alive@) < count_true(start),
                !changed ==> forall|j: int|
                    0 <= j < i && #[trigger] alive@[j] ==> class_match(*g, mu@, alive_set(pv, alive@), pv[j]),
            decreases u@.len() - i,
        {
            if alive[i] {
                assert(u@[i as int].0.wf() && u@[i as int].1.wf());
                let ok = class_match_exec(g, mu, u, &alive, &u[i].0, &u[i].1);
                if !ok {
                    let ghost before = alive@;
                    let ghost rs = alive_set(pv, before);
                    proof {
                        assert(pv[i as int] == (u@[i as int].0@, u@[i as int].1@));
                        assert forall|sim: Set<PairView>|
                            #[trigger] is_simulation(*g, mu@, sim) implies !sim.contains(pv[i as int]) by {
                            if sim.contains(pv[i as int]) {
                                assert(class_match(*g, mu@, sim, pv[i as int]));
                                assert forall|z: PairView| is_succ(*g, mu@, pv[i as int], z) && sim.contains(z) implies #[trigger] rs.contains(z) by {
                                    assert(pv.contains(z));
                                    let w = choose|w: int| 0 <= w < pv.len() && pv[w] == z;
                                    assert(before[w]);
                                }
                                lemma_class_match_mono(*g, mu@, sim, rs, pv[i as int]);
                            }
                        }
                        lemma_count_kill(before, i as int);
                        if changed {
                            assert(count_true(before) < count_true(start));
                        }
                    }
                    alive.set(i, false);
                    changed = true;
                    proof {
                        assert(alive@ == before.update(i as int, false));
                    }
                }
            }
            i = i + 1;
        }
        proof {
            if !changed {
                let rs = alive_set(pv, alive@);
                assert forall|p: PairView| #[trigger] rs.contains(p) implies class_match(*g, mu@, rs, p) by {
                    let j = choose|j: int| 0 <= j < pv.len() && pv[j] == p && #[trigger] alive@[j];
                }
            }
        }
    }
    alive
}

/// Whether `a` subsumes `b` under `mu`: some morphism relates the class of `b` to that of
/// `a`, where the pairs of classes it looks at fit in memory.
pub fn decide_subsumption(g: &EGraphView, a: &AppliedId, b: &AppliedId, mu: &Unifier) -> (r: bool)
    requires
        g.wf(),
        a.wf(),
        b.wf(),
        a.id < g.len(),
        b.id < g.len(),
        mu.wf(),
        unifier_below(mu@, g.len()),
    ensures
        r == decides(*g, mu@, a@, b@),
{
    let fa = g.find_applied_id(a);
    let fb = g.find_applied_id(b);
    match explore(g, mu, &fa, &fb) {
        None => false,
        Some(u) => {
            let alive = refine(g, mu, &u);
            let r = alive[0];
            proof {
                let pv = pairs_view(u@);
                let rs = alive_set(pv, alive@);
                if r {
                    assert(rs.contains(pv[0]));
                    assert(is_simulation(*g, mu@, rs) && rs.contains((g.find_spec(a@), g.find_spec(b@))));
                }
                if subsumes(*g, mu@, a@, b@) {
                    let sim = choose|sim: Set<PairView>|
                        #[trigger] is_simulation(*g, mu@, sim) && sim.contains((g.find_spec(a@), g.find_spec(b@)));
                    assert(sim.contains(pv[0]));
                }
            }
            r
        },
    }
}

} // verus!
