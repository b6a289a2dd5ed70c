use vstd::prelude::*;
use crate::slots::{Id, Slot, AppliedId, applied_slots, lemma_key_pos, key_pos, map_values};
use crate::analysis::{SimpleLang, Sym};
use crate::unifier::{Unifier, AppliedIdView};
use crate::egraph::{EGraphView, PairTable, ENodeView, node_view};
use crate::mgu::unifier_below;
use crate::morphism::{decides, decide_subsumption};

verus! {

/// What is known of pairs of classes: `None` while a pair is being looked at, `Some(v)`
/// once it is decided.
pub type Visited = PairTable<Option<bool>>;

/// `visited` holds a decision for the pair `k`.
pub open spec fn decided(visited: Map<(Id, Id), Option<bool>>, k: (Id, Id)) -> bool {
    visited.contains_key(k) && visited[k] is Some
}

/// Whether `a` subsumes `b` under the substitution `mu`: where `visited` holds a
/// decision for the pair of their classes, that decision; otherwise whether some
/// morphism relates the class of `b` to that of `a` (`decides`), which is then recorded.
pub fn test_subsumption_withunifier_norec(
    g: &EGraphView,
    a: &AppliedId,
    b: &AppliedId,
    mu: &Unifier,
    visited: &mut Visited,
) -> (r: bool)
    requires
        g.wf(),
        a.wf(),
        b.wf(),
        a.id < g.len(),
        b.id < g.len(),
        mu.wf(),
        unifier_below(mu@, g.len()),
        old(visited).wf(),
    ensures
        final(visited).wf(),
        ({
            let k = (g.find_spec(a@).0, g.find_spec(b@).0);
            &&& decided(old(visited)@, k) ==> r == old(visited)@[k]->0 && final(visited)@ == old(visited)@
            &&& !decided(old(visited)@, k) ==> r == decides(*g, mu@, a@, b@) && final(visited)@ == old(
                visited,
            )@.insert(k, Some(r))
        }),
{
    let fa = g.find_applied_id(a);
    let fb = g.find_applied_id(b);
    match visited.get(fa.id, fb.id) {
        Some(Some(v)) => {
            return *v;
        },
        _ => {},
    }
    let r = decide_subsumption(g, a, b, mu);
    visited.insert(fa.id, fb.id, Some(r));
    r
}

/// The answer of the subsumption test where no unifier is needed: an applied id does
/// not count as subsuming itself; `a` cannot subsume `b` unless every symbol of `b` is
/// one of `a`; and where `a`'s class has no slots, whether some morphism relates the
/// class of `b` to that of `a` decides. `None` where the unifiers of the two classes are
/// needed.
pub open spec fn subsumption_start(g: EGraphView, a: AppliedIdView, b: AppliedIdView) -> Option<bool> {
    if a == b {
        Some(false)
    } else if !g.symbols_spec(b.0).subset_of(g.symbols_spec(a.0)) {
        Some(false)
    } else if g.classes@[a.0 as int].slots@.len() == 0 {
        Some(decides(g, Map::empty(), a, b))
    } else {
        None
    }
}

/// The symbol filter of the subsumption test: `a` is declared not to subsume `b` by it
/// exactly when some symbol of the class of `b` is missing from the class of `a`; where
/// none is and `a`'s class has slots, the answer is left to the unifiers of the two
/// classes; an applied id is not taken to subsume itself.
pub proof fn lemma_subsumption_start_filter(g: EGraphView, a: AppliedIdView, b: AppliedIdView)
    ensures
        a == b ==> subsumption_start(g, a, b) == Some(false),
        a != b && (exists|f: Sym| #[trigger] g.symbols_spec(b.0).contains(f) && !g.symbols_spec(a.0).contains(f))
            ==> subsumption_start(g, a, b) == Some(false),
        a != b && (forall|f: Sym| #[trigger] g.symbols_spec(b.0).contains(f) ==> g.symbols_spec(a.0).contains(f))
            && g.classes@[a.0 as int].slots@.len() > 0 ==> subsumption_start(g, a, b) is None,
        a != b && (forall|f: Sym| #[trigger] g.symbols_spec(b.0).contains(f) ==> g.symbols_spec(a.0).contains(f))
            && g.classes@[a.0 as int].slots@.len() == 0 ==> subsumption_start(g, a, b) is Some,
{
    if a != b && (exists|f: Sym| #[trigger] g.symbols_spec(b.0).contains(f) && !g.symbols_spec(a.0).contains(f)) {
        let f = choose|f: Sym| #[trigger] g.symbols_spec(b.0).contains(f) && !g.symbols_spec(a.0).contains(f);
        assert(!g.symbols_spec(b.0).subset_of(g.symbols_spec(a.0)));
    }
}

/// The substitution binds none of the slots of `b`.
pub open spec fn avoids_slots(mu: Map<Slot, AppliedIdView>, b: AppliedIdView) -> bool {
    forall|z: Slot| #[trigger] applied_slots(b).contains(z) ==> !mu.dom().contains(z)
}

/// The subsumption test of `a` over `b`, as far as it needs no unifier of the two
/// classes.
pub fn test_subsumption_start(g: &EGraphView, a: &AppliedId, b: &AppliedId) -> (r: Option<bool>)
    requires
        g.wf(),
        a.wf(),
        b.wf(),
        a.id < g.len(),
        b.id < g.len(),
    ensures
        r == subsumption_start(*g, a@, b@),
        a@ != b@ && (exists|f: Sym| #[trigger] g.symbols_spec(b.id).contains(f) && !g.symbols_spec(a.id).contains(f))
            ==> r == Some(false),
        a@ != b@ && (forall|f: Sym| #[trigger] g.symbols_spec(b.id).contains(f) ==> g.symbols_spec(a.id).contains(f))
            && g.classes@[a.id as int].slots@.len() > 0 ==> r is None,
{
    proof {
        lemma_subsumption_start_filter(*g, a@, b@);
    }
    if a.equals(b) {
        return Some(false);
    }
    if !g.symbols(b.id).is_subset(g.symbols(a.id)) {
        return Some(false);
    }
    if g.slots_empty(a.id) {
        let mu = Unifier::new();
        let mut visited = Visited::new();
        return Some(test_subsumption_withunifier_norec(g, a, b, &mu, &mut visited));
    }
    None
}

/// Whether `mu` binds one of the slots of `b`.
pub fn binds_slot_of(mu: &Unifier, b: &AppliedId) -> (r: bool)
    requires
        mu.wf(),
        b.wf(),
    ensures
        r == !avoids_slots(mu@, b@),
{
    let n = b.m.pairs.len();
    let mut j: usize = 0;
    while j < n
        invariant
            mu.wf(),
            b.wf(),
            n == b.m.pairs@.len(),
            0 <= j <= n,
            forall|q: int| 0 <= q < j ==> !mu@.dom().contains(#[trigger] b.m.pairs@[q].1),
        decreases n - j,
    {
        let z = b.m.pairs[j].1;
        if mu.contains_key(z) {
            proof {
                lemma_key_pos(b.m.pairs@, j as int);
                assert(applied_slots(b@).contains(z));
            }
            return true;
        }
        j = j + 1;
    }
    proof {
        assert forall|z: Slot| #[trigger] applied_slots(b@).contains(z) implies !mu@.dom().contains(z) by {
            let x = choose|x: Slot| b.m@.dom().contains(x) && #[trigger] b.m@[x] == z;
            let q = key_pos(b.m.pairs@, x);
            lemma_key_pos(b.m.pairs@, q);
        }
    }
    false
}

/// The bindings of `mu` of the slots of `a`.
fn restrict_to_slots(mu: &Unifier, a: &AppliedId) -> (r: Unifier)
    requires
        mu.wf(),
        a.wf(),
    ensures
        r.wf(),
        r@ == mu@.restrict(applied_slots(a@)),
{
    let mut out = Unifier::new();
    let n = a.m.pairs.len();
    let mut j: usize = 0;
    while j < n
        invariant
            mu.wf(),
            a.wf(),
            out.wf(),
            n == a.m.pairs@.len(),
            0 <= j <= n,
            out@ == mu@.restrict(a.m.pairs@.subrange(0, j as int).map_values(|p: (Slot, Slot)| p.1).to_set()),
        decreases n - j,
    {
        let z = a.m.pairs[j].1;
        let ghost before = a.m.pairs@.subrange(0, j as int).map_values(|p: (Slot, Slot)| p.1);
        proof {
            assert(a.m.pairs@.subrange(0, j + 1).map_values(|p: (Slot, Slot)| p.1) =~= before.push(z));
            before.lemma_push_to_set_commute(z);
        }
        match mu.get(z) {
            Some(c) => {
                out.insert(z, c.duplicate());
            },
            None => {},
        }
        assert(out@ =~= mu@.restrict(a.m.pairs@.subrange(0, j + 1).map_values(|p: (Slot, Slot)| p.1).to_set()));
        j = j + 1;
    }
    proof {
        let ws = a.m.pairs@.map_values(|p: (Slot, Slot)| p.1);
        let vs = ws.to_set();
        assert(a.m.pairs@.subrange(0, n as int) =~= a.m.pairs@);
        assert forall|z: Slot| vs.contains(z) <==> #[trigger] applied_slots(a@).contains(z) by {
            if vs.contains(z) {
                let q = choose|q: int| 0 <= q < ws.len() && #[trigger] ws[q] == z;
                lemma_key_pos(a.m.pairs@, q);
            }
            if applied_slots(a@).contains(z) {
                let x = choose|x: Slot| a.m@.dom().contains(x) && #[trigger] a.m@[x] == z;
                let q = key_pos(a.m.pairs@, x);
                lemma_key_pos(a.m.pairs@, q);
                assert(ws[q] == z);
            }
        }
        assert(vs =~= applied_slots(a@));
    }
    out
}

/// The subsumption test of `a` over `b` once the unifiers of the two classes are
/// known: it holds where one of them binds none of the slots of `b` and, under its
/// bindings of `a`'s slots, some morphism relates the class of `b` to that of `a`.
pub fn test_subsumption_with_mgus(g: &EGraphView, a: &AppliedId, b: &AppliedId, mus: &Vec<Unifier>) -> (r:
    bool)
    requires
        g.wf(),
        a.wf(),
        b.wf(),
        a.id < g.len(),
        b.id < g.len(),
        forall|i: int| 0 <= i < mus@.len() ==> (#[trigger] mus@[i]).wf() && unifier_below(mus@[i]@, g.len()),
    ensures
        r == exists|i: int|
            0 <= i < mus@.len() && avoids_slots((#[trigger] mus@[i])@, b@) && decides(
                *g,
                mus@[i]@.restrict(applied_slots(a@)),
                a@,
                b@,
            ),
{
    let mut i: usize = 0;
    while i < mus.len()
        invariant
            g.wf(),
            a.wf(),
            b.wf(),
            a.id < g.len(),
            b.id < g.len(),
            forall|q: int| 0 <= q < mus@.len() ==> (#[trigger] mus@[q]).wf() && unifier_below(mus@[q]@, g.len()),
            0 <= i <= mus@.len(),
            forall|q: int|
                0 <= q < i ==> !(avoids_slots((#[trigger] mus@[q])@, b@) && decides(
                    *g,
                    mus@[q]@.restrict(applied_slots(a@)),
                    a@,
                    b@,
                )),
        decreases mus@.len() - i,
    {
        let mu = &mus[i];
        assert(mu.wf() && unifier_below(mu@, g.len()));
        if !binds_slot_of(mu, b) {
            let new_mu = restrict_to_slots(mu, a);
            let mut visited = Visited::new();
            if test_subsumption_withunifier_norec(g, a, b, &new_mu, &mut visited) {
                return true;
            }
        }
        i = i + 1;
    }
    false
}

/// What is known of pairs of classes, by their views.
pub type VisitedMap = Map<(Id, Id), Option<bool>>;

/// The recursive subsumption test of `a` over `b` under `mu` from what `visited` knows,
/// within `fuel` levels of recursion: the answer and what is known afterwards. The
/// canonical pair is looked up first: a decided pair gives its decision, a pair being
/// looked at counts as holding. Otherwise it is marked as being looked at; a pair of one
/// class holds; else the e-nodes of `b` are walked (`walk_b`), and the answer recorded.
pub open spec fn tswu_spec(
    g: EGraphView,
    a: AppliedIdView,
    b: AppliedIdView,
    mu: Map<Slot, AppliedIdView>,
    v: VisitedMap,
    fuel: nat,
) -> Option<(bool, VisitedMap)>
    decreases fuel, 2nat, 0nat,
{
    if fuel == 0 {
        None
    } else {
        let a1 = g.find_spec(a);
        let b1 = g.find_spec(b);
        let k = (a1.0, b1.0);
        if v.contains_key(k) {
            match v[k] {
                Some(x) => Some((x, v)),
                None => Some((true, v.insert(k, Some(true)))),
            }
        } else if g.find_id_spec(a1.0) == g.find_id_spec(b1.0) {
            Some((true, v.insert(k, None).insert(k, Some(true))))
        } else {
            match walk_b(
                g,
                a1,
                b1,
                mu,
                v.insert(k, None),
                g.enodes_spec(b1),
                g.enodes_spec(a1),
                0,
                fuel,
            ) {
                Some((r, v2)) => Some((r, v2.insert(k, Some(r)))),
                None => None,
            }
        }
    }
}

/// The walk over the e-nodes of `b1` from position `ib` on: each must be matched by the
/// e-nodes of `a1` (`walk_a`); the first that is not makes the answer no.
pub open spec fn walk_b(
    g: EGraphView,
    a1: AppliedIdView,
    b1: AppliedIdView,
    mu: Map<Slot, AppliedIdView>,
    v: VisitedMap,
    nbs: Seq<ENodeView>,
    nas: Seq<ENodeView>,
    ib: int,
    fuel: nat,
) -> Option<(bool, VisitedMap)>
    decreases fuel, 1nat, nbs.len() - ib,
{
    if fuel == 0 {
        None
    } else if ib < 0 || ib >= nbs.len() {
        Some((true, v))
    } else {
        let nb = nbs[ib];
        let ce = nb is Symbol || nb is Var;
        match walk_a(g, a1, b1, mu, v, nb, ce, nas, 0, false, fuel) {
            None => None,
            Some((stop, m, v2)) => if stop || (!ce && !m) {
                Some((false, v2))
            } else {
                walk_b(g, a1, b1, mu, v2, nbs, nas, ib + 1, fuel)
            },
        }
    }
}

/// The comparison of the e-node `nb` of `b1` with one e-node of `a1`: whether they were
/// compared, whether `nb` is matched so far, and what is known afterwards.
pub open spec fn compare_nodes(
    g: EGraphView,
    b1: AppliedIdView,
    mu: Map<Slot, AppliedIdView>,
    v: VisitedMap,
    nb: ENodeView,
    na: ENodeView,
    m: bool,
    fuel: nat,
) -> Option<(bool, bool, VisitedMap)>
    decreases fuel, 0nat, 0nat,
{
    if fuel == 0 {
        None
    } else {
        match (nb, na) {
            (ENodeView::App(cb, db), ENodeView::App(ca, da)) => match tswu_spec(
                g,
                ca,
                cb,
                mu,
                v,
                (fuel - 1) as nat,
            ) {
                None => None,
                Some((r1, v1)) => if r1 {
                    match tswu_spec(g, da, db, mu, v1, (fuel - 1) as nat) {
                        None => None,
                        Some((r2, v2)) => Some((true, m || r2, v2)),
                    }
                } else {
                    Some((true, m, v1))
                },
            },
            (ENodeView::Number(p), ENodeView::Number(q)) => Some((true, m || p == q, v)),
            (ENodeView::Symbol(f), ENodeView::Symbol(h)) => Some((true, m || f == h, v)),
            (ENodeView::Var(x), ENodeView::Var(y)) => if !mu.contains_key(y) {
                Some((true, m || x == y, v))
            } else {
                match tswu_spec(g, mu[y], b1, mu, v, (fuel - 1) as nat) {
                    None => None,
                    Some((r, v1)) => Some((true, m || r, v1)),
                }
            },
            (_, ENodeView::Var(y)) => if mu.contains_key(y) {
                match tswu_spec(g, mu[y], b1, mu, v, (fuel - 1) as nat) {
                    None => None,
                    Some((r, v1)) => Some((true, m || r, v1)),
                }
            } else {
                Some((false, m, v))
            },
            _ => Some((false, m, v)),
        }
    }
}

/// The walk over the e-nodes of `a1` from position `ia` on for the e-node `nb` of `b1`:
/// whether the walk over `b1` stops here with no (`ce`: each compared e-node must match),
/// whether `nb` is matched, and what is known afterwards.
pub open spec fn walk_a(
    g: EGraphView,
    a1: AppliedIdView,
    b1: AppliedIdView,
    mu: Map<Slot, AppliedIdView>,
    v: VisitedMap,
    nb: ENodeView,
    ce: bool,
    nas: Seq<ENodeView>,
    ia: int,
    m: bool,
    fuel: nat,
) -> Option<(bool, bool, VisitedMap)>
    decreases fuel, 0nat, nas.len() - ia + 1,
{
    if fuel == 0 {
        None
    } else if ia < 0 || ia >= nas.len() {
        Some((false, m, v))
    } else {
        match compare_nodes(g, b1, mu, v, nb, nas[ia], m, fuel) {
            None => None,
            Some((compared, m2, v2)) => if compared && ce && !m2 {
                Some((true, m2, v2))
            } else {
                walk_a(g, a1, b1, mu, v2, nb, ce, nas, ia + 1, m2, fuel)
            },
        }
    }
}

/// The walk over the e-nodes of `b1` at position `ib`, with the walk over the e-nodes
/// of `a1` for it at position `ia` and `m` telling whether it is matched so far.
pub open spec fn walk_b_from(
    g: EGraphView,
    a1: AppliedIdView,
    b1: AppliedIdView,
    mu: Map<Slot, AppliedIdView>,
    v: VisitedMap,
    nbs: Seq<ENodeView>,
    nas: Seq<ENodeView>,
    ib: int,
    ia: int,
    m: bool,
    fuel: nat,
) -> Option<(bool, VisitedMap)> {
    let nb = nbs[ib];
    let ce = nb is Symbol || nb is Var;
    match walk_a(g, a1, b1, mu, v, nb, ce, nas, ia, m, fuel) {
        None => None,
        Some((stop, m2, v2)) => if stop || (!ce && !m2) {
            Some((false, v2))
        } else {
            walk_b(g, a1, b1, mu, v2, nbs, nas, ib + 1, fuel)
        },
    }
}

/// More fuel does not change a result that was reached.
pub proof fn lemma_tswu_fuel(
    g: EGraphView,
    a: AppliedIdView,
    b: AppliedIdView,
    mu: Map<Slot, AppliedIdView>,
    v: VisitedMap,
    f1: nat,
    f2: nat,
)
    requires
        f1 <= f2,
        tswu_spec(g, a, b, mu, v, f1) is Some,
    ensures
        tswu_spec(g, a, b, mu, v, f2) == tswu_spec(g, a, b, mu, v, f1),
    decreases f1, 2nat, 0nat,
{
    let a1 = g.find_spec(a);
    let b1 = g.find_spec(b);
    let k = (a1.0, b1.0);
    if !v.contains_key(k) && g.find_id_spec(a1.0) != g.find_id_spec(b1.0) {
        lemma_walk_b_fuel(g, a1, b1, mu, v.insert(k, None), g.enodes_spec(b1), g.enodes_spec(a1), 0, f1, f2);
    }
}

proof fn lemma_walk_b_fuel(
    g: EGraphView,
    a1: AppliedIdView,
    b1: AppliedIdView,
    mu: Map<Slot, AppliedIdView>,
    v: VisitedMap,
    nbs: Seq<ENodeView>,
    nas: Seq<ENodeView>,
    ib: int,
    f1: nat,
    f2: nat,
)
    requires
        f1 <= f2,
        walk_b(g, a1, b1, mu, v, nbs, nas, ib, f1) is Some,
    ensures
        walk_b(g, a1, b1, mu, v, nbs, nas, ib, f2) == walk_b(g, a1, b1, mu, v, nbs, nas, ib, f1),
    decreases f1, 1nat, nbs.len() - ib,
{
    if 0 <= ib < nbs.len() {
        let nb = nbs[ib];
        let ce = nb is Symbol || nb is Var;
        lemma_walk_a_fuel(g, a1, b1, mu, v, nb, ce, nas, 0, false, f1, f2);
        match walk_a(g, a1, b1, mu, v, nb, ce, nas, 0, false, f1) {
            None => {},
            Some((stop, m, v2)) => if !(stop || (!ce && !m)) {
                lemma_walk_b_fuel(g, a1, b1, mu, v2, nbs, nas, ib + 1, f1, f2);
            },
        }
    }
}

proof fn lemma_compare_fuel(
    g: EGraphView,
    b1: AppliedIdView,
    mu: Map<Slot, AppliedIdView>,
    v: VisitedMap,
    nb: ENodeView,
    na: ENodeView,
    m: bool,
    f1: nat,
    f2: nat,
)
    requires
        f1 <= f2,
        compare_nodes(g, b1, mu, v, nb, na, m, f1) is Some,
    ensures
        compare_nodes(g, b1, mu, v, nb, na, m, f2) == compare_nodes(g, b1, mu, v, nb, na, m, f1),
    decreases f1, 0nat, 0nat,
{
    let h1 = (f1 - 1) as nat;
    let h2 = (f2 - 1) as nat;
    match (nb, na) {
        (ENodeView::App(cb, db), ENodeView::App(ca, da)) => {
            lemma_tswu_fuel(g, ca, cb, mu, v, h1, h2);
            match tswu_spec(g, ca, cb, mu, v, h1) {
                Some((r1, v1)) => if r1 {
                    lemma_tswu_fuel(g, da, db, mu, v1, h1, h2);
                },
                None => {},
            }
        },
        (ENodeView::Var(x), ENodeView::Var(y)) => {
            if mu.contains_key(y) {
                lemma_tswu_fuel(g, mu[y], b1, mu, v, h1, h2);
            }
        },
        (_, ENodeView::Var(y)) => {
            if mu.contains_key(y) {
                lemma_tswu_fuel(g, mu[y], b1, mu, v, h1, h2);
            }
        },
        _ => {},
    }
}

proof fn lemma_walk_a_fuel(
    g: EGraphView,
    a1: AppliedIdView,
    b1: AppliedIdView,
    mu: Map<Slot, AppliedIdView>,
    v: VisitedMap,
    nb: ENodeView,
    ce: bool,
    nas: Seq<ENodeView>,
    ia: int,
    m: bool,
    f1: nat,
    f2: nat,
)
    requires
        f1 <= f2,
        walk_a(g, a1, b1, mu, v, nb, ce, nas, ia, m, f1) is Some,
    ensures
        walk_a(g, a1, b1, mu, v, nb, ce, nas, ia, m, f2) == walk_a(g, a1, b1, mu, v, nb, ce, nas, ia, m, f1),
    decreases f1, 0nat, nas.len() - ia + 1,
{
    if 0 <= ia < nas.len() {
        lemma_compare_fuel(g, b1, mu, v, nb, nas[ia], m, f1, f2);
        match compare_nodes(g, b1, mu, v, nb, nas[ia], m, f1) {
            None => {},
            Some((compared, m2, v2)) => if !(compared && ce && !m2) {
                lemma_walk_a_fuel(g, a1, b1, mu, v2, nb, ce, nas, ia + 1, m2, f1, f2);
            },
        }
    }
}

/// Whether `a` subsumes `b` under the substitution `mu`, by recursion over the e-nodes
/// of the two classes: every e-node of `b` must be matched by an e-node of `a` (an
/// application by an application whose children subsume, a number or a symbol by the
/// same, a variable by itself), a variable of `a` bound in `mu` standing for the class
/// it is bound to; a variable of `a` that `mu` leaves free is compared only with a
/// variable. A symbol or a variable of `b` must be matched by each e-node of `a` that is
/// compared with it. Decisions are recorded in `visited`; a pair met again while
/// it is being looked at counts as holding. The canonical pair ends up recorded with the
/// answer, and what was already decided of it is the answer. The answer and what is
/// known afterwards are those of `tswu_spec`.
#[verifier::loop_isolation(false)]
#[verifier::rlimit(100)]
pub fn test_subsumption_withunifier(
    g: &EGraphView,
    a: &AppliedId,
    b: &AppliedId,
    mu: &Unifier,
    visited: &mut Visited,
) -> (r: bool)
    requires
        g.wf(),
        a.wf(),
        b.wf(),
        a.id < g.len(),
        b.id < g.len(),
        mu.wf(),
        unifier_below(mu@, g.len()),
        old(visited).wf(),
        old(visited).keys_below(g.len()),
    ensures
        final(visited).wf(),
        final(visited).keys_below(g.len()),
        old(visited)@.dom().subset_of(final(visited)@.dom()),
        final(visited).entries@.len() >= old(visited).entries@.len(),
        exists|f: nat| tswu_spec(*g, a@, b@, mu@, old(visited)@, f) == Some((r, final(visited)@)),
        ({
            let k = (g.find_spec(a@).0, g.find_spec(b@).0);
            &&& old(visited)@.contains_key(k) && old(visited)@[k] is Some ==> r == old(visited)@[k]->0
                && final(visited)@ == old(visited)@
            &&& old(visited)@.contains_key(k) && old(visited)@[k] is None ==> r && final(visited)@
                == old(visited)@.insert(k, Some(true))
            &&& !old(visited)@.contains_key(k) ==> final(visited)@.contains_key(k) && final(visited)@[k]
                == Some(r)
            &&& !old(visited)@.contains_key(k) && k.0 == k.1 ==> r
        }),
    decreases g.len() * g.len() - old(visited).entries@.len(),
{
    let ghost n = g.len();
    let ghost d0 = old(visited)@.dom();
    let ghost e0 = old(visited).entries@.len();
    let ghost v0 = old(visited)@;
    let ghost a0 = a@;
    let ghost b0 = b@;
    let ghost gv = *g;
    let ghost muv = mu@;
    proof {
        old(visited).lemma_len_bound(n);
    }
    let a = g.find_applied_id(a);
    let b = g.find_applied_id(b);
    let ghost k = (a.id, b.id);
    match visited.get(a.id, b.id) {
        Some(Some(v)) => {
            assert(tswu_spec(gv, a0, b0, muv, v0, 1) == Some((*v, visited@)));
            return *v;
        },
        Some(None) => {
            visited.insert(a.id, b.id, Some(true));
            assert(tswu_spec(gv, a0, b0, muv, v0, 1) == Some((true, visited@)));
            return true;
        },
        None => {
            visited.insert(a.id, b.id, None);
        },
    }
    let ghost v1 = visited@;
    if g.find_id(a.id) == g.find_id(b.id) {
        visited.insert(a.id, b.id, Some(true));
        assert(tswu_spec(gv, a0, b0, muv, v0, 1) == Some((true, visited@)));
        return true;
    }
    let nbs = g.enodes_applied(&b);
    let nas = g.enodes_applied(&a);
    let ghost nbv = nbs@.map_values(|e: SimpleLang| node_view(e));
    let ghost nav = nas@.map_values(|e: SimpleLang| node_view(e));
    let ghost mut fc: nat = 1;
    proof {
        assert forall|f: nat| f >= 1 implies #[trigger] tswu_spec(gv, a0, b0, muv, v0, f) == match walk_b(
            gv,
            a@,
            b@,
            muv,
            v1,
            nbv,
            nav,
            0,
            f,
        ) {
            Some((r, v2)) => Some((r, v2.insert(k, Some(r)))),
            None => None,
        } by {}
    }
    let mut ib: usize = 0;
    while ib < nbs.len()
        invariant
            g.wf(),
            n == g.len(),
            a.wf(),
            b.wf(),
            a.id < n,
            b.id < n,
            k == (a.id, b.id),
            mu.wf(),
            unifier_below(mu@, n),
            visited.wf(),
            visited.keys_below(n),
            d0.subset_of(visited@.dom()),
            visited@.contains_key(k),
            visited.entries@.len() > e0,
            e0 <= n * n,
            forall|j: int| 0 <= j < nas@.len() ==> crate::egraph::node_wf(#[trigger] nas@[j], n),
            forall|j: int| 0 <= j < nbs@.len() ==> crate::egraph::node_wf(#[trigger] nbs@[j], n),
            0 <= ib <= nbs@.len(),
            fc >= 1,
            forall|f: nat|
                f >= fc ==> #[trigger] walk_b(gv, a@, b@, muv, v1, nbv, nav, 0, f) == walk_b(
                    gv,
                    a@,
                    b@,
                    muv,
                    visited@,
                    nbv,
                    nav,
                    ib as int,
                    f,
                ),
        decreases nbs@.len() - ib,
    {
        let nb = &nbs[ib];
        let mut match_nb = false;
        let checks_each = match nb {
            SimpleLang::Symbol(_) => true,
            SimpleLang::Var(_) => true,
            _ => false,
        };
        let ghost nbw = nbv[ib as int];
        proof {
            assert(nbw == node_view(*nb));
            assert(checks_each == (nbw is Symbol || nbw is Var));
            assert forall|f: nat| f >= fc implies #[trigger] walk_b(gv, a@, b@, muv, v1, nbv, nav, 0, f)
                == walk_b_from(gv, a@, b@, muv, visited@, nbv, nav, ib as int, 0, false, f) by {
                assert(walk_b(gv, a@, b@, muv, v1, nbv, nav, 0, f) == walk_b(
                    gv,
                    a@,
                    b@,
                    muv,
                    visited@,
                    nbv,
                    nav,
                    ib as int,
                    f,
                ));
            }
        }
        let mut ia: usize = 0;
        while ia < nas.len()
            invariant
                g.wf(),
                n == g.len(),
                a.wf(),
                b.wf(),
                a.id < n,
                b.id < n,
                k == (a.id, b.id),
                mu.wf(),
                unifier_below(mu@, n),
                visited.wf(),
                visited.keys_below(n),
                d0.subset_of(visited@.dom()),
                visited@.contains_key(k),
                visited.entries@.len() > e0,
                e0 <= n * n,
                forall|j: int| 0 <= j < nas@.len() ==> crate::egraph::node_wf(#[trigger] nas@[j], n),
                forall|j: int| 0 <= j < nbs@.len() ==> crate::egraph::node_wf(#[trigger] nbs@[j], n),
                0 <= ib < nbs@.len(),
                nb == nbs@[ib as int],
                nbw == node_view(*nb),
                checks_each == (nbw is Symbol || nbw is Var),
                0 <= ia <= nas@.len(),
                fc >= 1,
                forall|f: nat|
                    f >= fc ==> #[trigger] walk_b(gv, a@, b@, muv, v1, nbv, nav, 0, f) == walk_b_from(
                        gv,
                        a@,
                        b@,
                        muv,
                        visited@,
                        nbv,
                        nav,
                        ib as int,
                        ia as int,
                        match_nb,
                        f,
                    ),
            decreases nas@.len() - ia,
        {
            proof {
                assert(crate::egraph::node_wf(nas@[ia as int], n));
                assert(crate::egraph::node_wf(nbs@[ib as int], n));
            }
            let ghost vb = visited@;
            let ghost mb = match_nb;
            let ghost naw = nav[ia as int];
            assert(naw == node_view(nas@[ia as int]));
            let ghost mut fnew: nat = fc;
            let mut compared = true;
            match (nb, &nas[ia]) {
                (SimpleLang::App(cb, db), SimpleLang::App(ca, da)) => {
                    proof {
                        visited.lemma_len_bound(n);
                    }
                    let r1 = test_subsumption_withunifier(g, ca, cb, mu, visited);
                    let ghost f1 = choose|f: nat| tswu_spec(gv, ca@, cb@, muv, vb, f) == Some((r1, visited@));
                    let ghost vm = visited@;
                    proof {
                        fnew = if fc > f1 + 1 { fc } else { f1 + 1 };
                    }
                    if r1 {
                        proof {
                            visited.lemma_len_bound(n);
                        }
                        let r2 = test_subsumption_withunifier(g, da, db, mu, visited);
                        let ghost f2 = choose|f: nat| tswu_spec(gv, da@, db@, muv, vm, f) == Some((r2, visited@));
                        proof {
                            fnew = if fnew > f2 + 1 { fnew } else { f2 + 1 };
                            assert forall|f: nat| f >= fnew implies #[trigger] compare_nodes(gv, b@, muv, vb, nbw, naw, mb, f)
                                == Some((true, mb || r2, visited@)) by {
                                lemma_tswu_fuel(gv, ca@, cb@, muv, vb, f1, (f - 1) as nat);
                                lemma_tswu_fuel(gv, da@, db@, muv, vm, f2, (f - 1) as nat);
                            }
                        }
                        if r2 {
                            match_nb = true;
                        }
                    } else {
                        proof {
                            assert forall|f: nat| f >= fnew implies #[trigger] compare_nodes(gv, b@, muv, vb, nbw, naw, mb, f)
                                == Some((true, mb, visited@)) by {
                                lemma_tswu_fuel(gv, ca@, cb@, muv, vb, f1, (f - 1) as nat);
                            }
                        }
                    }
                },
                (SimpleLang::Number(p), SimpleLang::Number(q)) => {
                    if *p == *q {
                        match_nb = true;
                    }
                },
                (SimpleLang::Symbol(f), SimpleLang::Symbol(h)) => {
                    if *f == *h {
                        match_nb = true;
                    }
                },
                (SimpleLang::Var(x), SimpleLang::Var(y)) => match mu.get(*y) {
                    None => {
                        if *x == *y {
                            match_nb = true;
                        }
                    },
                    Some(c) => {
                        proof {
                            visited.lemma_len_bound(n);
                        }
                        let r1 = test_subsumption_withunifier(g, c, &b, mu, visited);
                        let ghost f1 = choose|f: nat| tswu_spec(gv, c@, b@, muv, vb, f) == Some((r1, visited@));
                        proof {
                            fnew = if fc > f1 + 1 { fc } else { f1 + 1 };
                            assert forall|f: nat| f >= fnew implies #[trigger] compare_nodes(gv, b@, muv, vb, nbw, naw, mb, f)
                                == Some((true, mb || r1, visited@)) by {
                                lemma_tswu_fuel(gv, c@, b@, muv, vb, f1, (f - 1) as nat);
                            }
                        }
                        if r1 {
                            match_nb = true;
                        }
                    },
                },
                (_, SimpleLang::Var(y)) => match mu.get(*y) {
                    Some(c) => {
                        proof {
                            visited.lemma_len_bound(n);
                        }
                        let r1 = test_subsumption_withunifier(g, c, &b, mu, visited);
                        let ghost f1 = choose|f: nat| tswu_spec(gv, c@, b@, muv, vb, f) == Some((r1, visited@));
                        proof {
                            fnew = if fc > f1 + 1 { fc } else { f1 + 1 };
                            assert forall|f: nat| f >= fnew implies #[trigger] compare_nodes(gv, b@, muv, vb, nbw, naw, mb, f)
                                == Some((true, mb || r1, visited@)) by {
                                lemma_tswu_fuel(gv, c@, b@, muv, vb, f1, (f - 1) as nat);
                            }
                        }
                        if r1 {
                            match_nb = true;
                        }
                    },
                    None => {
                        compared = false;
                    },
                },
                _ => {
                    compared = false;
                },
            }
            proof {
                assert forall|f: nat| f >= fnew implies #[trigger] compare_nodes(gv, b@, muv, vb, nbw, naw, mb, f)
                    == Some((compared, match_nb, visited@)) by {}
                assert forall|f: nat| f >= fnew implies #[trigger] walk_a(gv, a@, b@, muv, vb, nbw, checks_each, nav, ia as int, mb, f)
                    == (if compared && checks_each && !match_nb {
                    Some((true, match_nb, visited@))
                } else {
                    walk_a(gv, a@, b@, muv, visited@, nbw, checks_each, nav, ia + 1, match_nb, f)
                }) by {
                    assert(compare_nodes(gv, b@, muv, vb, nbw, naw, mb, f) == Some((compared, match_nb, visited@)));
                }
            }
            if compared && checks_each && !match_nb {
                let ghost vs = visited@;
                visited.insert(a.id, b.id, Some(false));
                proof {
                    assert(walk_b(gv, a@, b@, muv, v1, nbv, nav, 0, fnew) == Some((false, vs)));
                    assert(tswu_spec(gv, a0, b0, muv, v0, fnew) == Some((false, visited@)));
                }
                return false;
            }
            proof {
                assert forall|f: nat| f >= fnew implies #[trigger] walk_b(gv, a@, b@, muv, v1, nbv, nav, 0, f)
                    == walk_b_from(gv, a@, b@, muv, visited@, nbv, nav, ib as int, ia + 1, match_nb, f) by {
                    assert(walk_a(gv, a@, b@, muv, vb, nbw, checks_each, nav, ia as int, mb, f) == walk_a(
                        gv,
                        a@,
                        b@,
                        muv,
                        visited@,
                        nbw,
                        checks_each,
                        nav,
                        ia + 1,
                        match_nb,
                        f,
                    ));
                }
                fc = fnew;
            }
            ia = ia + 1;
        }
        if !checks_each && !match_nb {
            let ghost vs = visited@;
            visited.insert(a.id, b.id, Some(false));
            proof {
                assert(walk_b(gv, a@, b@, muv, v1, nbv, nav, 0, fc) == Some((false, vs)));
                assert(tswu_spec(gv, a0, b0, muv, v0, fc) == Some((false, visited@)));
            }
            return false;
        }
        proof {
            assert forall|f: nat| f >= fc implies #[trigger] walk_b(gv, a@, b@, muv, v1, nbv, nav, 0, f)
                == walk_b(gv, a@, b@, muv, visited@, nbv, nav, ib + 1, f) by {
                assert(walk_b(gv, a@, b@, muv, v1, nbv, nav, 0, f) == walk_b_from(
                    gv,
                    a@,
                    b@,
                    muv,
                    visited@,
                    nbv,
                    nav,
                    ib as int,
                    nas@.len() as int,
                    match_nb,
                    f,
                ));
            }
        }
        ib = ib + 1;
    }
    let ghost vs = visited@;
    visited.insert(a.id, b.id, Some(true));
    proof {
        assert(walk_b(gv, a@, b@, muv, v1, nbv, nav, 0, fc) == Some((true, vs)));
        assert(tswu_spec(gv, a0, b0, muv, v0, fc) == Some((true, visited@)));
    }
    true
}

} // verus!
