use vstd::prelude::*;
use crate::slots::Slot;
use crate::unifier::AppliedIdView;
use crate::renaming::{
    rename, renamed_unifier, unifier_renamable, pair_renaming_result, transport_result, dedup,
    occ_spec,
};
use crate::egraph::{EGraphView, ENodeView};
use crate::mgu::{
    MemoView, MguOutcome, mgus_spec, entered_spec, pairs_spec, pair_spec, dec_spec, push_new_spec, push_all_spec,
    lemma_dedup_subset,
};

verus! {

/// A substitution: slots bound to classes.
pub type Subst = Map<Slot, AppliedIdView>;

/// The substitution `s` makes the classes `x` and `y` equal, within `f` levels: they are
/// the same, or an e-node of `x` and an e-node of `y` are made equal (`pairs_unified`).
pub open spec fn unified(g: EGraphView, s: Subst, x: AppliedIdView, y: AppliedIdView, f: nat) -> bool
    decreases f, 2nat, 0nat, 0nat,
{
    if f == 0 {
        false
    } else {
        x == y || pairs_unified(g, s, x, y, g.enodes_spec(x), g.enodes_spec(y), 0, 0, f)
    }
}

/// Some e-node of `nas` from position `i` on (and of `nbs` from `j` on for the first)
/// is made equal to some e-node of `nbs`.
pub open spec fn pairs_unified(
    g: EGraphView,
    s: Subst,
    x: AppliedIdView,
    y: AppliedIdView,
    nas: Seq<ENodeView>,
    nbs: Seq<ENodeView>,
    i: int,
    j: int,
    f: nat,
) -> bool
    decreases f, 1nat, nas.len() - i, nbs.len() - j,
{
    if f == 0 || i < 0 || i >= nas.len() {
        false
    } else if j < 0 || j >= nbs.len() {
        pairs_unified(g, s, x, y, nas, nbs, i + 1, 0, f)
    } else {
        node_unified(g, s, x, y, nas[i], nbs[j], f) || pairs_unified(g, s, x, y, nas, nbs, i, j + 1, f)
    }
}

/// The substitution `s` makes the e-node `na` of `x` equal to the e-node `nb` of `y`:
/// applications whose functions and arguments it unifies; the same symbol or number; the
/// same variable; a variable bound in `s` whose class it unifies with the other class.
pub open spec fn node_unified(
    g: EGraphView,
    s: Subst,
    x: AppliedIdView,
    y: AppliedIdView,
    na: ENodeView,
    nb: ENodeView,
    f: nat,
) -> bool
    decreases f, 0nat, 0nat, 0nat,
{
    if f == 0 {
        false
    } else {
        let h = (f - 1) as nat;
        match na {
            ENodeView::Var(p) => nb == ENodeView::Var(p) || (s.contains_key(p) && unified(
                g,
                s,
                g.find_spec(s[p]),
                g.find_spec(y),
                h,
            )),
            _ => match nb {
                ENodeView::Var(q) => s.contains_key(q) && unified(g, s, g.find_spec(x), g.find_spec(s[q]), h),
                _ => match (na, nb) {
                    (ENodeView::App(c1, c2), ENodeView::App(c3, c4)) => unified(
                        g,
                        s,
                        g.find_spec(c1),
                        g.find_spec(c3),
                        h,
                    ) && unified(g, s, g.find_spec(c2), g.find_spec(c4), h),
                    (ENodeView::Symbol(p), ENodeView::Symbol(q)) => p == q,
                    (ENodeView::Number(p), ENodeView::Number(q)) => p == q,
                    _ => false,
                },
            },
        }
    }
}

/// The unifiers of an outcome.
pub open spec fn out_results(o: Option<MguOutcome>) -> Seq<Subst> {
    match o {
        Some(t) => t.0,
        None => Seq::empty(),
    }
}

/// The memo of an outcome.
pub open spec fn out_memo(o: Option<MguOutcome>) -> Map<(usize, usize), MemoView> {
    match o {
        Some(t) => t.1,
        None => Map::empty(),
    }
}

/// `s` makes the classes `x` and `y` equal.
pub open spec fn unifies_classes(g: EGraphView, s: Subst, x: AppliedIdView, y: AppliedIdView) -> bool {
    exists|f: nat| #[trigger] unified(g, s, x, y, f)
}

/// Each unifier of `l` extends `mu` and makes `x` and `y` equal.
pub open spec fn results_ok(g: EGraphView, l: Seq<Subst>, mu: Subst, x: AppliedIdView, y: AppliedIdView) -> bool {
    forall|i: int| 0 <= i < l.len() ==> mu.submap_of(#[trigger] l[i]) && unifies_classes(g, l[i], x, y)
}

/// Every finished memo entry holds unifiers that extend its context and make its pair of
/// classes equal.
pub open spec fn memo_ok(g: EGraphView, m: Map<(usize, usize), MemoView>) -> bool {
    forall|k: (usize, usize)| #[trigger] m.contains_key(k) ==> match m[k] {
        MemoView::InProgress => true,
        MemoView::Done(ra, rb, mr, res) => results_ok(g, res, mr, ra, rb),
    }
}

/// Carrying memoised results over to another pair of classes keeps them unifiers of the
/// pair they are carried to.
pub open spec fn transport_keeps_unifiers(g: EGraphView) -> bool {
    forall|ra: AppliedIdView, rb: AppliedIdView, mr: Subst, res: Seq<Subst>, a: AppliedIdView, b: AppliedIdView, mu: Subst|
        #[trigger] transport_result(ra, rb, mr, res, a, b, mu) is Some && results_ok(g, res, mr, ra, rb) ==> forall|j: int|
            0 <= j < transport_result(ra, rb, mr, res, a, b, mu)->0.len() ==> unifies_classes(
                g,
                #[trigger] transport_result(ra, rb, mr, res, a, b, mu)->0[j],
                a,
                b,
            )
}

// ---------------------------------------------------------------------------
// Unification of classes: monotonicity and introduction

/// More levels and more bindings keep classes unified.
pub proof fn lemma_unified_mono(g: EGraphView, s: Subst, s2: Subst, x: AppliedIdView, y: AppliedIdView, f: nat, f2: nat)
    requires
        unified(g, s, x, y, f),
        s.submap_of(s2),
        f <= f2,
    ensures
        unified(g, s2, x, y, f2),
    decreases f, 2nat, 0nat, 0nat,
{
    if x != y {
        lemma_pairs_mono(g, s, s2, x, y, g.enodes_spec(x), g.enodes_spec(y), 0, 0, f, f2);
    }
}

proof fn lemma_pairs_mono(
    g: EGraphView,
    s: Subst,
    s2: Subst,
    x: AppliedIdView,
    y: AppliedIdView,
    nas: Seq<ENodeView>,
    nbs: Seq<ENodeView>,
    i: int,
    j: int,
    f: nat,
    f2: nat,
)
    requires
        pairs_unified(g, s, x, y, nas, nbs, i, j, f),
        s.submap_of(s2),
        f <= f2,
    ensures
        pairs_unified(g, s2, x, y, nas, nbs, i, j, f2),
    decreases f, 1nat, nas.len() - i, nbs.len() - j,
{
    if j < 0 || j >= nbs.len() {
        lemma_pairs_mono(g, s, s2, x, y, nas, nbs, i + 1, 0, f, f2);
    } else if node_unified(g, s, x, y, nas[i], nbs[j], f) {
        lemma_node_mono(g, s, s2, x, y, nas[i], nbs[j], f, f2);
    } else {
        lemma_pairs_mono(g, s, s2, x, y, nas, nbs, i, j + 1, f, f2);
    }
}

proof fn lemma_node_mono(
    g: EGraphView,
    s: Subst,
    s2: Subst,
    x: AppliedIdView,
    y: AppliedIdView,
    na: ENodeView,
    nb: ENodeView,
    f: nat,
    f2: nat,
)
    requires
        node_unified(g, s, x, y, na, nb, f),
        s.submap_of(s2),
        f <= f2,
    ensures
        node_unified(g, s2, x, y, na, nb, f2),
    decreases f, 0nat, 0nat, 0nat,
{
    let h = (f - 1) as nat;
    let h2 = (f2 - 1) as nat;
    match na {
        ENodeView::Var(p) => {
            if nb != ENodeView::Var(p) && s.contains_key(p) && unified(g, s, g.find_spec(s[p]), g.find_spec(y), h) {
                assert(s.dom().contains(p) && s2.dom().contains(p));
                assert(s2[p] == s[p]);
                lemma_unified_mono(g, s, s2, g.find_spec(s[p]), g.find_spec(y), h, h2);
            }
        },
        _ => match nb {
            ENodeView::Var(q) => {
                if s.contains_key(q) && unified(g, s, g.find_spec(x), g.find_spec(s[q]), h) {
                    assert(s.dom().contains(q) && s2.dom().contains(q));
                    assert(s2[q] == s[q]);
                    lemma_unified_mono(g, s, s2, g.find_spec(x), g.find_spec(s[q]), h, h2);
                }
            },
            _ => match (na, nb) {
                (ENodeView::App(c1, c2), ENodeView::App(c3, c4)) => {
                    lemma_unified_mono(g, s, s2, g.find_spec(c1), g.find_spec(c3), h, h2);
                    lemma_unified_mono(g, s, s2, g.find_spec(c2), g.find_spec(c4), h, h2);
                },
                _ => {},
            },
        },
    }
}

/// Unifying one e-node of `nas` from position `i` with one of `nbs` from position `j`
/// makes the search from any earlier position succeed.
proof fn lemma_pairs_intro(
    g: EGraphView,
    s: Subst,
    x: AppliedIdView,
    y: AppliedIdView,
    nas: Seq<ENodeView>,
    nbs: Seq<ENodeView>,
    p: int,
    q: int,
    i: int,
    j: int,
    f: nat,
)
    requires
        0 <= p,
        0 <= q,
        0 <= i < nas.len(),
        0 <= j < nbs.len(),
        p < i || (p == i && q <= j),
        node_unified(g, s, x, y, nas[i], nbs[j], f),
    ensures
        pairs_unified(g, s, x, y, nas, nbs, p, q, f),
    decreases nas.len() - p, nbs.len() - q,
{
    if p == i && q == j {
    } else if q >= nbs.len() {
        lemma_pairs_intro(g, s, x, y, nas, nbs, p + 1, 0, i, j, f);
    } else {
        lemma_pairs_intro(g, s, x, y, nas, nbs, p, q + 1, i, j, f);
    }
}

/// Unifying one e-node of each class unifies the classes, one level up.
pub proof fn lemma_unified_intro(g: EGraphView, s: Subst, x: AppliedIdView, y: AppliedIdView, i: int, j: int, f: nat)
    requires
        0 <= i < g.enodes_spec(x).len(),
        0 <= j < g.enodes_spec(y).len(),
        node_unified(g, s, x, y, g.enodes_spec(x)[i], g.enodes_spec(y)[j], f),
    ensures
        unified(g, s, x, y, f),
{
    lemma_pairs_intro(g, s, x, y, g.enodes_spec(x), g.enodes_spec(y), 0, 0, i, j, f);
}

/// Two unifiers of the same pair hold with a common number of levels.
proof fn lemma_unifies_at(g: EGraphView, s: Subst, x: AppliedIdView, y: AppliedIdView) -> (f: nat)
    requires
        unifies_classes(g, s, x, y),
    ensures
        unified(g, s, x, y, f),
{
    choose|f: nat| #[trigger] unified(g, s, x, y, f)
}

// ---------------------------------------------------------------------------
// Lists of unifiers

proof fn lemma_submap_trans(a: Subst, b: Subst, c: Subst)
    requires
        a.submap_of(b),
        b.submap_of(c),
    ensures
        a.submap_of(c),
{
    assert forall|k: Slot| #[trigger] a.dom().contains(k) implies c.dom().contains(k) && a[k] == c[k] by {
        assert(b.dom().contains(k));
        assert(c.dom().contains(k));
    }
}

proof fn lemma_push_new_ok(g: EGraphView, l: Seq<Subst>, u: Subst, mu: Subst, x: AppliedIdView, y: AppliedIdView)
    requires
        results_ok(g, l, mu, x, y),
        mu.submap_of(u),
        unifies_classes(g, u, x, y),
    ensures
        results_ok(g, push_new_spec(l, u), mu, x, y),
{
    if !l.contains(u) {
        let l2 = l.push(u);
        assert forall|i: int| 0 <= i < l2.len() implies mu.submap_of(#[trigger] l2[i]) && unifies_classes(g, l2[i], x, y) by {
            if i < l.len() {
                assert(l2[i] == l[i]);
            }
        }
    }
}

proof fn lemma_push_all_ok(g: EGraphView, l: Seq<Subst>, src: Seq<Subst>, mu: Subst, x: AppliedIdView, y: AppliedIdView)
    requires
        results_ok(g, l, mu, x, y),
        results_ok(g, src, mu, x, y),
    ensures
        results_ok(g, push_all_spec(l, src), mu, x, y),
    decreases src.len(),
{
    if src.len() > 0 {
        let p = src.drop_last();
        assert(results_ok(g, p, mu, x, y)) by {
            assert forall|i: int| 0 <= i < p.len() implies mu.submap_of(#[trigger] p[i]) && unifies_classes(g, p[i], x, y) by {
                assert(p[i] == src[i]);
            }
        }
        lemma_push_all_ok(g, l, p, mu, x, y);
        assert(src[src.len() - 1] == src.last());
        lemma_push_new_ok(g, push_all_spec(l, p), src.last(), mu, x, y);
    }
}

/// Carrying results over keeps them extensions of the context they are carried to.
proof fn lemma_transport_submap(
    ra: AppliedIdView,
    rb: AppliedIdView,
    mr: Subst,
    res: Seq<Subst>,
    a: AppliedIdView,
    b: AppliedIdView,
    mu: Subst,
)
    requires
        transport_result(ra, rb, mr, res, a, b, mu) is Some,
        forall|i: int| 0 <= i < res.len() ==> mr.submap_of(#[trigger] res[i]),
    ensures
        forall|j: int|
            0 <= j < transport_result(ra, rb, mr, res, a, b, mu)->0.len() ==> mu.submap_of(
                #[trigger] transport_result(ra, rb, mr, res, a, b, mu)->0[j],
            ),
{
    let r = pair_renaming_result(ra, rb, a, b)->0;
    let f = |u: Subst| renamed_unifier(u, r);
    let out = transport_result(ra, rb, mr, res, a, b, mu)->0;
    assert(out == dedup(res.map_values(f)));
    assert(mu == renamed_unifier(mr, r));
    assert forall|j: int| 0 <= j < out.len() implies mu.submap_of(#[trigger] out[j]) by {
        assert(dedup(res.map_values(f)).contains(out[j]));
        lemma_dedup_subset(res.map_values(f), out[j]);
        let i = choose|i: int| 0 <= i < res.map_values(f).len() && res.map_values(f)[i] == out[j];
        let sigma = res[i];
        assert(unifier_renamable(sigma, r));
        let rm = renamed_unifier(mr, r);
        let rs = renamed_unifier(sigma, r);
        assert forall|k: Slot| #[trigger] rm.dom().contains(k) implies rs.dom().contains(k) && rm[k] == rs[k] by {
            let s1 = choose|s: Slot| mr.dom().contains(s) && #[trigger] rename(r, s) == k;
            assert(mr.dom().contains(s1) && sigma.dom().contains(s1));
            let s2 = choose|s: Slot| sigma.dom().contains(s) && #[trigger] rename(r, s) == k;
            if s1 != s2 {
                assert(rename(r, s1) != rename(r, s2));
            }
        }
        assert(rs == out[j]);
    }
}

// ---------------------------------------------------------------------------
// Unification of classes gives unifiers

/// Every unifier that unification of the classes of `a` and `b` gives extends the
/// context `mu` and makes the two classes equal (`unified`), as does every memoised
/// result afterwards, where it holds of the memoised results beforehand and carrying
/// results over to another pair of classes keeps them unifiers.
pub proof fn lemma_mgus_unify(
    g: EGraphView,
    a: AppliedIdView,
    b: AppliedIdView,
    mu: Subst,
    m: Map<(usize, usize), MemoView>,
    budget: nat,
    cur: nat,
    max: nat,
    fuel: nat,
)
    requires
        memo_ok(g, m),
        transport_keeps_unifiers(g),
        mgus_spec(g, a, b, mu, m, budget, cur, max, fuel) is Some,
    ensures
        results_ok(g, out_results(mgus_spec(g, a, b, mu, m, budget, cur, max, fuel)), mu, g.find_spec(a), g.find_spec(b)),
        memo_ok(g, out_memo(mgus_spec(g, a, b, mu, m, budget, cur, max, fuel))),
    decreases fuel, 3nat, 0nat, 0nat,
{
    if cur < max {
        lemma_entered_unify(g, a, b, mu, m, budget, cur + 1, max, fuel);
    }
}

proof fn lemma_entered_unify(
    g: EGraphView,
    a: AppliedIdView,
    b: AppliedIdView,
    mu: Subst,
    m: Map<(usize, usize), MemoView>,
    budget: nat,
    cur: nat,
    max: nat,
    fuel: nat,
)
    requires
        memo_ok(g, m),
        transport_keeps_unifiers(g),
        entered_spec(g, a, b, mu, m, budget, cur, max, fuel) is Some,
    ensures
        results_ok(g, out_results(entered_spec(g, a, b, mu, m, budget, cur, max, fuel)), mu, g.find_spec(a), g.find_spec(b)),
        memo_ok(g, out_memo(entered_spec(g, a, b, mu, m, budget, cur, max, fuel))),
    decreases fuel, 2nat, 0nat, 0nat,
{
    let a1 = g.find_spec(a);
    let b1 = g.find_spec(b);
    let key = (a1.0, b1.0);
    let early: Option<Seq<Subst>> = if m.contains_key(key) {
        match m[key] {
            MemoView::InProgress => Some(Seq::empty()),
            MemoView::Done(ra, rb, mr, res) => transport_result(ra, rb, mr, res, a1, b1, mu),
        }
    } else if m.contains_key((b1.0, a1.0)) && m[(b1.0, a1.0)] is InProgress {
        Some(Seq::empty())
    } else {
        None
    };
    if early is Some {
        if m.contains_key(key) {
            match m[key] {
                MemoView::Done(ra, rb, mr, res) => {
                    assert(results_ok(g, res, mr, ra, rb));
                    lemma_transport_submap(ra, rb, mr, res, a1, b1, mu);
                    let out = transport_result(ra, rb, mr, res, a1, b1, mu)->0;
                    assert forall|j: int| 0 <= j < out.len() implies mu.submap_of(#[trigger] out[j]) && unifies_classes(g, out[j], a1, b1) by {
                        assert(transport_result(ra, rb, mr, res, a1, b1, mu)->0[j] == out[j]);
                    }
                },
                _ => {},
            }
        }
    } else {
        let m1 = m.insert(key, MemoView::InProgress);
        assert(memo_ok(g, m1)) by {
            assert forall|k: (usize, usize)| #[trigger] m1.contains_key(k) implies match m1[k] {
                MemoView::InProgress => true,
                MemoView::Done(ra, rb, mr, res) => results_ok(g, res, mr, ra, rb),
            } by {
                if k != key {
                    assert(m.contains_key(k));
                }
            }
        }
        if budget > 0 {
            let e = Seq::<Subst>::empty();
            lemma_pairs_unify(
                g,
                a1,
                b1,
                mu,
                g.enodes_spec(a1),
                g.enodes_spec(b1),
                0,
                0,
                e,
                m1,
                (budget - 1) as nat,
                cur,
                max,
                fuel,
            );
            let (l, m2, b2) = pairs_spec(
                g,
                a1,
                b1,
                mu,
                g.enodes_spec(a1),
                g.enodes_spec(b1),
                0,
                0,
                e,
                m1,
                (budget - 1) as nat,
                cur,
                max,
                fuel,
            )->0;
            let m3 = m2.insert(key, MemoView::Done(a1, b1, mu, l));
            assert(memo_ok(g, m3)) by {
                assert forall|k: (usize, usize)| #[trigger] m3.contains_key(k) implies match m3[k] {
                    MemoView::InProgress => true,
                    MemoView::Done(ra, rb, mr, res) => results_ok(g, res, mr, ra, rb),
                } by {
                    if k != key {
                        assert(m2.contains_key(k));
                    }
                }
            }
        }
    }
}

proof fn lemma_pairs_unify(
    g: EGraphView,
    a1: AppliedIdView,
    b1: AppliedIdView,
    mu: Subst,
    nas: Seq<ENodeView>,
    nbs: Seq<ENodeView>,
    ia: int,
    ib: int,
    l: Seq<Subst>,
    m: Map<(usize, usize), MemoView>,
    budget: nat,
    cur: nat,
    max: nat,
    fuel: nat,
)
    requires
        nas == g.enodes_spec(a1),
        nbs == g.enodes_spec(b1),
        results_ok(g, l, mu, a1, b1),
        memo_ok(g, m),
        transport_keeps_unifiers(g),
        pairs_spec(g, a1, b1, mu, nas, nbs, ia, ib, l, m, budget, cur, max, fuel) is Some,
    ensures
        results_ok(g, out_results(pairs_spec(g, a1, b1, mu, nas, nbs, ia, ib, l, m, budget, cur, max, fuel)), mu, a1, b1),
        memo_ok(g, out_memo(pairs_spec(g, a1, b1, mu, nas, nbs, ia, ib, l, m, budget, cur, max, fuel))),
    decreases fuel, 1nat, nas.len() - ia, nbs.len() - ib,
{
    if 0 <= ia < nas.len() {
        if ib < 0 || ib >= nbs.len() {
            lemma_pairs_unify(g, a1, b1, mu, nas, nbs, ia + 1, 0, l, m, budget, cur, max, fuel);
        } else {
            lemma_pair_unify(g, a1, b1, mu, ia, ib, l, m, budget, cur, max, fuel);
            let (l2, m2, b2) = pair_spec(g, a1, b1, mu, nas[ia], nbs[ib], l, m, budget, cur, max, fuel)->0;
            lemma_pairs_unify(g, a1, b1, mu, nas, nbs, ia, ib + 1, l2, m2, b2, cur, max, fuel);
        }
    }
}

proof fn lemma_pair_unify(
    g: EGraphView,
    a1: AppliedIdView,
    b1: AppliedIdView,
    mu: Subst,
    ia: int,
    ib: int,
    l: Seq<Subst>,
    m: Map<(usize, usize), MemoView>,
    budget: nat,
    cur: nat,
    max: nat,
    fuel: nat,
)
    requires
        0 <= ia < g.enodes_spec(a1).len(),
        0 <= ib < g.enodes_spec(b1).len(),
        results_ok(g, l, mu, a1, b1),
        memo_ok(g, m),
        transport_keeps_unifiers(g),
        pair_spec(g, a1, b1, mu, g.enodes_spec(a1)[ia], g.enodes_spec(b1)[ib], l, m, budget, cur, max, fuel) is Some,
    ensures
        results_ok(
            g,
            out_results(pair_spec(g, a1, b1, mu, g.enodes_spec(a1)[ia], g.enodes_spec(b1)[ib], l, m, budget, cur, max, fuel)),
            mu,
            a1,
            b1,
        ),
        memo_ok(g, out_memo(pair_spec(g, a1, b1, mu, g.enodes_spec(a1)[ia], g.enodes_spec(b1)[ib], l, m, budget, cur, max, fuel))),
    decreases fuel, 0nat, 1nat, 0nat,
{
    let na = g.enodes_spec(a1)[ia];
    let nb = g.enodes_spec(b1)[ib];
    let f1 = (fuel - 1) as nat;
    match (na, nb) {
        (ENodeView::App(c1, c2), ENodeView::App(c3, c4)) => {
            lemma_mgus_unify(g, c1, c3, mu, m, budget, cur, max, f1);
            let (mu2s, m2, b2) = mgus_spec(g, c1, c3, mu, m, budget, cur, max, f1)->0;
            lemma_dec_unify(g, a1, b1, mu, ia, ib, c1, c2, c3, c4, mu2s, 0, l, m2, b2, cur, max, fuel);
        },
        (ENodeView::Symbol(p), ENodeView::Symbol(q)) => {
            if p == q {
                assert(node_unified(g, mu, a1, b1, na, nb, 1));
                lemma_unified_intro(g, mu, a1, b1, ia, ib, 1);
                lemma_push_new_ok(g, l, mu, mu, a1, b1);
            }
        },
        (ENodeView::Number(p), ENodeView::Number(q)) => {
            if p == q {
                assert(node_unified(g, mu, a1, b1, na, nb, 1));
                lemma_unified_intro(g, mu, a1, b1, ia, ib, 1);
                lemma_push_new_ok(g, l, mu, mu, a1, b1);
            }
        },
        (ENodeView::Var(y), _) => {
            if nb == ENodeView::Var(y) {
                assert(node_unified(g, mu, a1, b1, na, nb, 1));
                lemma_unified_intro(g, mu, a1, b1, ia, ib, 1);
                lemma_push_new_ok(g, l, mu, mu, a1, b1);
            } else if mu.contains_key(y) {
                let c = mu[y];
                lemma_mgus_unify(g, c, b1, mu, m, budget, cur, max, f1);
                let (found, m2, b2) = mgus_spec(g, c, b1, mu, m, budget, cur, max, f1)->0;
                assert(results_ok(g, found, mu, a1, b1)) by {
                    assert forall|i: int| 0 <= i < found.len() implies mu.submap_of(#[trigger] found[i]) && unifies_classes(
                        g,
                        found[i],
                        a1,
                        b1,
                    ) by {
                        let u = found[i];
                        let f = lemma_unifies_at(g, u, g.find_spec(c), g.find_spec(b1));
                        assert(mu.dom().contains(y) && u.dom().contains(y));
                        assert(u[y] == c);
                        assert(node_unified(g, u, a1, b1, na, nb, f + 1));
                        lemma_unified_intro(g, u, a1, b1, ia, ib, f + 1);
                    }
                }
                lemma_push_all_ok(g, l, found, mu, a1, b1);
            } else if !occ_spec(mu, b1, y) {
                let u = mu.insert(y, b1);
                assert(mu.submap_of(u));
                assert(unified(g, u, g.find_spec(u[y]), g.find_spec(b1), 1));
                assert(node_unified(g, u, a1, b1, na, nb, 2));
                lemma_unified_intro(g, u, a1, b1, ia, ib, 2);
                lemma_push_new_ok(g, l, u, mu, a1, b1);
            }
        },
        (_, ENodeView::Var(x)) => {
            if mu.contains_key(x) {
                let c = mu[x];
                lemma_mgus_unify(g, a1, c, mu, m, budget, cur, max, f1);
                let (found, m2, b2) = mgus_spec(g, a1, c, mu, m, budget, cur, max, f1)->0;
                assert(results_ok(g, found, mu, a1, b1)) by {
                    assert forall|i: int| 0 <= i < found.len() implies mu.submap_of(#[trigger] found[i]) && unifies_classes(
                        g,
                        found[i],
                        a1,
                        b1,
                    ) by {
                        let u = found[i];
                        let f = lemma_unifies_at(g, u, g.find_spec(a1), g.find_spec(c));
                        assert(mu.dom().contains(x) && u.dom().contains(x));
                        assert(u[x] == c);
                        assert(node_unified(g, u, a1, b1, na, nb, f + 1));
                        lemma_unified_intro(g, u, a1, b1, ia, ib, f + 1);
                    }
                }
                lemma_push_all_ok(g, l, found, mu, a1, b1);
            } else if !occ_spec(mu, a1, x) {
                let u = mu.insert(x, a1);
                assert(mu.submap_of(u));
                assert(unified(g, u, g.find_spec(a1), g.find_spec(u[x]), 1));
                assert(node_unified(g, u, a1, b1, na, nb, 2));
                lemma_unified_intro(g, u, a1, b1, ia, ib, 2);
                lemma_push_new_ok(g, l, u, mu, a1, b1);
            }
        },
        _ => {},
    }
}

proof fn lemma_dec_unify(
    g: EGraphView,
    a1: AppliedIdView,
    b1: AppliedIdView,
    mu: Subst,
    ia: int,
    ib: int,
    c1: AppliedIdView,
    c2: AppliedIdView,
    c3: AppliedIdView,
    c4: AppliedIdView,
    mu2s: Seq<Subst>,
    k: int,
    l: Seq<Subst>,
    m: Map<(usize, usize), MemoView>,
    budget: nat,
    cur: nat,
    max: nat,
    fuel: nat,
)
    requires
        0 <= ia < g.enodes_spec(a1).len(),
        0 <= ib < g.enodes_spec(b1).len(),
        g.enodes_spec(a1)[ia] == ENodeView::App(c1, c2),
        g.enodes_spec(b1)[ib] == ENodeView::App(c3, c4),
        results_ok(g, mu2s, mu, g.find_spec(c1), g.find_spec(c3)),
        results_ok(g, l, mu, a1, b1),
        memo_ok(g, m),
        transport_keeps_unifiers(g),
        dec_spec(g, c2, c4, mu2s, k, l, m, budget, cur, max, fuel) is Some,
    ensures
        results_ok(g, out_results(dec_spec(g, c2, c4, mu2s, k, l, m, budget, cur, max, fuel)), mu, a1, b1),
        memo_ok(g, out_memo(dec_spec(g, c2, c4, mu2s, k, l, m, budget, cur, max, fuel))),
    decreases fuel, 0nat, 0nat, mu2s.len() - k,
{
    if 0 <= k < mu2s.len() {
        let mu2 = mu2s[k];
        let f1 = (fuel - 1) as nat;
        lemma_mgus_unify(g, c2, c4, mu2, m, budget, cur, max, f1);
        let (mu3s, m3, b3) = mgus_spec(g, c2, c4, mu2, m, budget, cur, max, f1)->0;
        assert(results_ok(g, mu3s, mu, a1, b1)) by {
            assert forall|i: int| 0 <= i < mu3s.len() implies mu.submap_of(#[trigger] mu3s[i]) && unifies_classes(
                g,
                mu3s[i],
                a1,
                b1,
            ) by {
                let u = mu3s[i];
                assert(mu.submap_of(mu2) && unifies_classes(g, mu2, g.find_spec(c1), g.find_spec(c3)));
                lemma_submap_trans(mu, mu2, u);
                let fa = lemma_unifies_at(g, mu2, g.find_spec(c1), g.find_spec(c3));
                let fb = lemma_unifies_at(g, u, g.find_spec(c2), g.find_spec(c4));
                let f = if fa > fb { fa } else { fb };
                lemma_unified_mono(g, mu2, u, g.find_spec(c1), g.find_spec(c3), fa, f);
                lemma_unified_mono(g, u, u, g.find_spec(c2), g.find_spec(c4), fb, f);
                assert(node_unified(g, u, a1, b1, ENodeView::App(c1, c2), ENodeView::App(c3, c4), f + 1));
                lemma_unified_intro(g, u, a1, b1, ia, ib, f + 1);
            }
        }
        lemma_push_all_ok(g, l, mu3s, mu, a1, b1);
        lemma_dec_unify(g, a1, b1, mu, ia, ib, c1, c2, c3, c4, mu2s, k + 1, push_all_spec(l, mu3s), m3, b3, cur, max, fuel);
    }
}

} // verus!
