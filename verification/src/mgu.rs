use vstd::prelude::*;
use crate::slots::{Slot, AppliedId};
use crate::unifier::{Unifier, AppliedIdView};
use crate::renaming::{
    MguMemoEntry, rename, renamed_aid, renamed_unifier, unifier_renamable, rename_unifier_result,
    pair_renaming_result, transport_result, transport_results, unifiers_view, dedup, occ,
    push_unique_unifier,
};
use crate::analysis::SimpleLang;
use crate::egraph::{EGraphView, PairTable, ENodeView};
use crate::renaming::occ_spec;
use crate::depth::{RecursionDepth, DepthGuard};

verus! {

/// Memoised unification between pairs of classes.
pub type MguMemo = PairTable<MguMemoEntry>;

/// Every applied id bound by the substitution names a class below `n`.
pub open spec fn unifier_below(m: Map<Slot, AppliedIdView>, n: nat) -> bool {
    forall|s: Slot| #[trigger] m.dom().contains(s) ==> m[s].0 < n
}

/// A unifier that extends the context `mu`, over classes below `n`.
pub open spec fn extends_context(u: Unifier, mu: Map<Slot, AppliedIdView>, n: nat) -> bool {
    &&& u.wf()
    &&& unifier_below(u@, n)
    &&& mu.submap_of(u@)
}

/// Each result of the list extends the context `mu`.
pub open spec fn all_extend(l: Seq<Unifier>, mu: Map<Slot, AppliedIdView>, n: nat) -> bool {
    forall|i: int| 0 <= i < l.len() ==> extends_context(#[trigger] l[i], mu, n)
}

/// Every finished memo entry holds well formed values, and results that extend the
/// context they were computed in.
pub open spec fn memo_inv(memo: Map<(usize, usize), MguMemoEntry>, n: nat) -> bool {
    forall|k: (usize, usize)| #[trigger] memo.contains_key(k) ==> match memo[k] {
        MguMemoEntry::InProgress => true,
        MguMemoEntry::Done(ra, rb, mu_repr, results) => {
            &&& ra.wf()
            &&& rb.wf()
            &&& mu_repr.wf()
            &&& all_extend(results@, mu_repr@, n)
        },
    }
}

/// The pair `k` is being worked on.
pub open spec fn in_progress(memo: Map<(usize, usize), MguMemoEntry>, k: (usize, usize)) -> bool {
    memo.contains_key(k) && memo[k] is InProgress
}

/// A memo entry taken by views.
pub enum MemoView {
    InProgress,
    Done(AppliedIdView, AppliedIdView, Map<Slot, AppliedIdView>, Seq<Map<Slot, AppliedIdView>>),
}

pub open spec fn entry_view(e: MguMemoEntry) -> MemoView {
    match e {
        MguMemoEntry::InProgress => MemoView::InProgress,
        MguMemoEntry::Done(ra, rb, m, r) => MemoView::Done(ra@, rb@, m@, unifiers_view(r@)),
    }
}

/// The memo taken by views.
pub open spec fn memo_view(m: Map<(usize, usize), MguMemoEntry>) -> Map<(usize, usize), MemoView> {
    m.map_values(|e: MguMemoEntry| entry_view(e))
}

/// `l` with `u` added unless it is there already.
pub open spec fn push_new_spec(l: Seq<Map<Slot, AppliedIdView>>, u: Map<Slot, AppliedIdView>) -> Seq<
    Map<Slot, AppliedIdView>,
> {
    if l.contains(u) {
        l
    } else {
        l.push(u)
    }
}

/// `l` with each unifier of `src` added in turn unless it is there already.
pub open spec fn push_all_spec(l: Seq<Map<Slot, AppliedIdView>>, src: Seq<Map<Slot, AppliedIdView>>) -> Seq<
    Map<Slot, AppliedIdView>,
>
    decreases src.len(),
{
    if src.len() == 0 {
        l
    } else {
        push_new_spec(push_all_spec(l, src.drop_last()), src.last())
    }
}

/// What a unification of classes ends with: the unifiers, the memo and the budget.
pub type MguOutcome = (Seq<Map<Slot, AppliedIdView>>, Map<(usize, usize), MemoView>, nat);

/// The unification of the classes of `a` and `b` under `mu`, from the memo `m` with
/// `budget` units left, at recursion depth `cur` of at most `max`, within `fuel` levels:
/// with no level of recursion left, no unifier; otherwise as `entered_spec` one level
/// deeper.
pub open spec fn mgus_spec(
    g: EGraphView,
    a: AppliedIdView,
    b: AppliedIdView,
    mu: Map<Slot, AppliedIdView>,
    m: Map<(usize, usize), MemoView>,
    budget: nat,
    cur: nat,
    max: nat,
    fuel: nat,
) -> Option<MguOutcome>
    decreases fuel, 3nat, 0nat, 0nat,
{
    if fuel == 0 {
        None
    } else if cur >= max {
        Some((Seq::empty(), m, budget))
    } else {
        entered_spec(g, a, b, mu, m, budget, cur + 1, max, fuel)
    }
}

/// The unification of the classes of `a` and `b` once its level of recursion is taken:
/// a pair being worked on (either way round) gives no unifier; memoised results are
/// carried over where the renaming allows; otherwise the pair is marked as being worked
/// on and, where a unit of budget is left, takes it, every pair of e-nodes of the two
/// classes is unified (`pairs_spec`) and the results are memoised.
pub open spec fn entered_spec(
    g: EGraphView,
    a: AppliedIdView,
    b: AppliedIdView,
    mu: Map<Slot, AppliedIdView>,
    m: Map<(usize, usize), MemoView>,
    budget: nat,
    cur: nat,
    max: nat,
    fuel: nat,
) -> Option<MguOutcome>
    decreases fuel, 2nat, 0nat, 0nat,
{
    if fuel == 0 {
        None
    } else {
        let a1 = g.find_spec(a);
        let b1 = g.find_spec(b);
        let key = (a1.0, b1.0);
        let early: Option<Seq<Map<Slot, AppliedIdView>>> = if m.contains_key(key) {
            match m[key] {
                MemoView::InProgress => Some(Seq::empty()),
                MemoView::Done(ra, rb, mr, res) => transport_result(ra, rb, mr, res, a1, b1, mu),
            }
        } else if m.contains_key((b1.0, a1.0)) && m[(b1.0, a1.0)] is InProgress {
            Some(Seq::empty())
        } else {
            None
        };
        match early {
            Some(l) => Some((l, m, budget)),
            None => {
                let m1 = m.insert(key, MemoView::InProgress);
                if budget == 0 {
                    Some((Seq::empty(), m1, 0))
                } else {
                    match pairs_spec(
                        g,
                        a1,
                        b1,
                        mu,
                        g.enodes_spec(a1),
                        g.enodes_spec(b1),
                        0,
                        0,
                        Seq::empty(),
                        m1,
                        (budget - 1) as nat,
                        cur,
                        max,
                        fuel,
                    ) {
                        None => None,
                        Some((l, m2, b2)) => Some((l, m2.insert(key, MemoView::Done(a1, b1, mu, l)), b2)),
                    }
                }
            },
        }
    }
}

/// The unification of every pair of e-nodes from position `(ia, ib)` on, the e-nodes of
/// `a1` outermost, adding to the unifiers `l`.
pub open spec fn pairs_spec(
    g: EGraphView,
    a1: AppliedIdView,
    b1: AppliedIdView,
    mu: Map<Slot, AppliedIdView>,
    nas: Seq<ENodeView>,
    nbs: Seq<ENodeView>,
    ia: int,
    ib: int,
    l: Seq<Map<Slot, AppliedIdView>>,
    m: Map<(usize, usize), MemoView>,
    budget: nat,
    cur: nat,
    max: nat,
    fuel: nat,
) -> Option<MguOutcome>
    decreases fuel, 1nat, nas.len() - ia, nbs.len() - ib,
{
    if fuel == 0 {
        None
    } else if ia < 0 || ia >= nas.len() {
        Some((l, m, budget))
    } else if ib < 0 || ib >= nbs.len() {
        pairs_spec(g, a1, b1, mu, nas, nbs, ia + 1, 0, l, m, budget, cur, max, fuel)
    } else {
        match pair_spec(g, a1, b1, mu, nas[ia], nbs[ib], l, m, budget, cur, max, fuel) {
            None => None,
            Some((l2, m2, b2)) => pairs_spec(g, a1, b1, mu, nas, nbs, ia, ib + 1, l2, m2, b2, cur, max, fuel),
        }
    }
}

/// The unification of the e-node `na` of `a1` with the e-node `nb` of `b1`, adding to
/// `l`: two applications unify their functions, then, under each result, their
/// arguments; equal symbols or numbers, or a variable against itself, give `mu`; a
/// bound variable stands for the class it is bound to; an unbound one is bound to the
/// other class unless it occurs in it through `mu`; anything else gives nothing.
pub open spec fn pair_spec(
    g: EGraphView,
    a1: AppliedIdView,
    b1: AppliedIdView,
    mu: Map<Slot, AppliedIdView>,
    na: ENodeView,
    nb: ENodeView,
    l: Seq<Map<Slot, AppliedIdView>>,
    m: Map<(usize, usize), MemoView>,
    budget: nat,
    cur: nat,
    max: nat,
    fuel: nat,
) -> Option<MguOutcome>
    decreases fuel, 0nat, 1nat, 0nat,
{
    if fuel == 0 {
        None
    } else {
        let f1 = (fuel - 1) as nat;
        match (na, nb) {
            (ENodeView::App(c1, c2), ENodeView::App(c3, c4)) => match mgus_spec(g, c1, c3, mu, m, budget, cur, max, f1) {
                None => None,
                Some((mu2s, m2, b2)) => dec_spec(g, c2, c4, mu2s, 0, l, m2, b2, cur, max, fuel),
            },
            (ENodeView::Symbol(f), ENodeView::Symbol(h)) => Some((if f == h { push_new_spec(l, mu) } else { l }, m, budget)),
            (ENodeView::Number(p), ENodeView::Number(q)) => Some((if p == q { push_new_spec(l, mu) } else { l }, m, budget)),
            (ENodeView::Var(y), _) => if nb == ENodeView::Var(y) {
                Some((push_new_spec(l, mu), m, budget))
            } else if mu.contains_key(y) {
                match mgus_spec(g, mu[y], b1, mu, m, budget, cur, max, f1) {
                    None => None,
                    Some((found, m2, b2)) => Some((push_all_spec(l, found), m2, b2)),
                }
            } else if !occ_spec(mu, b1, y) {
                Some((push_new_spec(l, mu.insert(y, b1)), m, budget))
            } else {
                Some((l, m, budget))
            },
            (_, ENodeView::Var(x)) => if mu.contains_key(x) {
                match mgus_spec(g, a1, mu[x], mu, m, budget, cur, max, f1) {
                    None => None,
                    Some((found, m2, b2)) => Some((push_all_spec(l, found), m2, b2)),
                }
            } else if !occ_spec(mu, a1, x) {
                Some((push_new_spec(l, mu.insert(x, a1)), m, budget))
            } else {
                Some((l, m, budget))
            },
            _ => Some((l, m, budget)),
        }
    }
}

/// The unification of the arguments `c2` and `c4` under each unifier of `mu2s` from
/// position `k` on, adding to `l`.
pub open spec fn dec_spec(
    g: EGraphView,
    c2: AppliedIdView,
    c4: AppliedIdView,
    mu2s: Seq<Map<Slot, AppliedIdView>>,
    k: int,
    l: Seq<Map<Slot, AppliedIdView>>,
    m: Map<(usize, usize), MemoView>,
    budget: nat,
    cur: nat,
    max: nat,
    fuel: nat,
) -> Option<MguOutcome>
    decreases fuel, 0nat, 0nat, mu2s.len() - k,
{
    if fuel == 0 {
        None
    } else if k < 0 || k >= mu2s.len() {
        Some((l, m, budget))
    } else {
        match mgus_spec(g, c2, c4, mu2s[k], m, budget, cur, max, (fuel - 1) as nat) {
            None => None,
            Some((mu3s, m3, b3)) => dec_spec(g, c2, c4, mu2s, k + 1, push_all_spec(l, mu3s), m3, b3, cur, max, fuel),
        }
    }
}

/// More fuel does not change an outcome that was reached.
pub proof fn lemma_mgus_fuel(
    g: EGraphView,
    a: AppliedIdView,
    b: AppliedIdView,
    mu: Map<Slot, AppliedIdView>,
    m: Map<(usize, usize), MemoView>,
    budget: nat,
    cur: nat,
    max: nat,
    f1: nat,
    f2: nat,
)
    requires
        f1 <= f2,
        mgus_spec(g, a, b, mu, m, budget, cur, max, f1) is Some,
    ensures
        mgus_spec(g, a, b, mu, m, budget, cur, max, f2) == mgus_spec(g, a, b, mu, m, budget, cur, max, f1),
    decreases f1, 3nat, 0nat, 0nat,
{
    if cur < max {
        lemma_entered_fuel(g, a, b, mu, m, budget, cur + 1, max, f1, f2);
    }
}

proof fn lemma_entered_fuel(
    g: EGraphView,
    a: AppliedIdView,
    b: AppliedIdView,
    mu: Map<Slot, AppliedIdView>,
    m: Map<(usize, usize), MemoView>,
    budget: nat,
    cur: nat,
    max: nat,
    f1: nat,
    f2: nat,
)
    requires
        f1 <= f2,
        entered_spec(g, a, b, mu, m, budget, cur, max, f1) is Some,
    ensures
        entered_spec(g, a, b, mu, m, budget, cur, max, f2) == entered_spec(g, a, b, mu, m, budget, cur, max, f1),
    decreases f1, 2nat, 0nat, 0nat,
{
    let a1 = g.find_spec(a);
    let b1 = g.find_spec(b);
    let key = (a1.0, b1.0);
    let early: Option<Seq<Map<Slot, AppliedIdView>>> = if m.contains_key(key) {
        match m[key] {
            MemoView::InProgress => Some(Seq::empty()),
            MemoView::Done(ra, rb, mr, res) => transport_result(ra, rb, mr, res, a1, b1, mu),
        }
    } else if m.contains_key((b1.0, a1.0)) && m[(b1.0, a1.0)] is InProgress {
        Some(Seq::empty())
    } else {
        None
    };
    if early is None && budget > 0 {
        lemma_pairs_fuel(
            g,
            a1,
            b1,
            mu,
            g.enodes_spec(a1),
            g.enodes_spec(b1),
            0,
            0,
            Seq::empty(),
            m.insert(key, MemoView::InProgress),
            (budget - 1) as nat,
            cur,
            max,
            f1,
            f2,
        );
    }
}

proof fn lemma_pairs_fuel(
    g: EGraphView,
    a1: AppliedIdView,
    b1: AppliedIdView,
    mu: Map<Slot, AppliedIdView>,
    nas: Seq<ENodeView>,
    nbs: Seq<ENodeView>,
    ia: int,
    ib: int,
    l: Seq<Map<Slot, AppliedIdView>>,
    m: Map<(usize, usize), MemoView>,
    budget: nat,
    cur: nat,
    max: nat,
    f1: nat,
    f2: nat,
)
    requires
        f1 <= f2,
        pairs_spec(g, a1, b1, mu, nas, nbs, ia, ib, l, m, budget, cur, max, f1) is Some,
    ensures
        pairs_spec(g, a1, b1, mu, nas, nbs, ia, ib, l, m, budget, cur, max, f2) == pairs_spec(
            g,
            a1,
            b1,
            mu,
            nas,
            nbs,
            ia,
            ib,
            l,
            m,
            budget,
            cur,
            max,
            f1,
        ),
    decreases f1, 1nat, nas.len() - ia, nbs.len() - ib,
{
    if 0 <= ia < nas.len() {
        if ib < 0 || ib >= nbs.len() {
            lemma_pairs_fuel(g, a1, b1, mu, nas, nbs, ia + 1, 0, l, m, budget, cur, max, f1, f2);
        } else {
            lemma_pair_fuel(g, a1, b1, mu, nas[ia], nbs[ib], l, m, budget, cur, max, f1, f2);
            match pair_spec(g, a1, b1, mu, nas[ia], nbs[ib], l, m, budget, cur, max, f1) {
                None => {},
                Some((l2, m2, b2)) => {
                    lemma_pairs_fuel(g, a1, b1, mu, nas, nbs, ia, ib + 1, l2, m2, b2, cur, max, f1, f2);
                },
            }
        }
    }
}

proof fn lemma_pair_fuel(
    g: EGraphView,
    a1: AppliedIdView,
    b1: AppliedIdView,
    mu: Map<Slot, AppliedIdView>,
    na: ENodeView,
    nb: ENodeView,
    l: Seq<Map<Slot, AppliedIdView>>,
    m: Map<(usize, usize), MemoView>,
    budget: nat,
    cur: nat,
    max: nat,
    f1: nat,
    f2: nat,
)
    requires
        f1 <= f2,
        pair_spec(g, a1, b1, mu, na, nb, l, m, budget, cur, max, f1) is Some,
    ensures
        pair_spec(g, a1, b1, mu, na, nb, l, m, budget, cur, max, f2) == pair_spec(
            g,
            a1,
            b1,
            mu,
            na,
            nb,
            l,
            m,
            budget,
            cur,
            max,
            f1,
        ),
    decreases f1, 0nat, 1nat, 0nat,
{
    let h1 = (f1 - 1) as nat;
    let h2 = (f2 - 1) as nat;
    match (na, nb) {
        (ENodeView::App(c1, c2), ENodeView::App(c3, c4)) => {
            lemma_mgus_fuel(g, c1, c3, mu, m, budget, cur, max, h1, h2);
            match mgus_spec(g, c1, c3, mu, m, budget, cur, max, h1) {
                None => {},
                Some((mu2s, m2, b2)) => {
                    lemma_dec_fuel(g, c2, c4, mu2s, 0, l, m2, b2, cur, max, f1, f2);
                },
            }
        },
        (ENodeView::Var(y), _) => {
            if nb != ENodeView::Var(y) && mu.contains_key(y) {
                lemma_mgus_fuel(g, mu[y], b1, mu, m, budget, cur, max, h1, h2);
            }
        },
        (_, ENodeView::Var(x)) => {
            if mu.contains_key(x) {
                lemma_mgus_fuel(g, a1, mu[x], mu, m, budget, cur, max, h1, h2);
            }
        },
        _ => {},
    }
}

proof fn lemma_dec_fuel(
    g: EGraphView,
    c2: AppliedIdView,
    c4: AppliedIdView,
    mu2s: Seq<Map<Slot, AppliedIdView>>,
    k: int,
    l: Seq<Map<Slot, AppliedIdView>>,
    m: Map<(usize, usize), MemoView>,
    budget: nat,
    cur: nat,
    max: nat,
    f1: nat,
    f2: nat,
)
    requires
        f1 <= f2,
        dec_spec(g, c2, c4, mu2s, k, l, m, budget, cur, max, f1) is Some,
    ensures
        dec_spec(g, c2, c4, mu2s, k, l, m, budget, cur, max, f2) == dec_spec(
            g,
            c2,
            c4,
            mu2s,
            k,
            l,
            m,
            budget,
            cur,
            max,
            f1,
        ),
    decreases f1, 0nat, 0nat, mu2s.len() - k,
{
    if 0 <= k < mu2s.len() {
        let h1 = (f1 - 1) as nat;
        let h2 = (f2 - 1) as nat;
        lemma_mgus_fuel(g, c2, c4, mu2s[k], m, budget, cur, max, h1, h2);
        match mgus_spec(g, c2, c4, mu2s[k], m, budget, cur, max, h1) {
            None => {},
            Some((mu3s, m3, b3)) => {
                lemma_dec_fuel(g, c2, c4, mu2s, k + 1, push_all_spec(l, mu3s), m3, b3, cur, max, f1, f2);
            },
        }
    }
}

/// An element of the `dedup` of a sequence is an element of the sequence.
pub proof fn lemma_dedup_subset<T>(s: Seq<T>, x: T)
    requires
        dedup(s).contains(x),
    ensures
        s.contains(x),
    decreases s.len(),
{
    if s.len() > 0 {
        let p = s.drop_last();
        if x != s.last() {
            if !dedup(p).contains(s.last()) {
                let d = dedup(p);
                let i = choose|i: int| 0 <= i < d.push(s.last()).len() && d.push(s.last())[i] == x;
                assert(d[i] == x);
            }
            lemma_dedup_subset(p, x);
            let i = choose|i: int| 0 <= i < p.len() && p[i] == x;
            assert(s[i] == x);
        } else {
            assert(s[s.len() - 1] == x);
        }
    }
}

/// Transporting a result along a renaming that applies to it keeps it an extension of
/// the transported context.
pub proof fn lemma_renamed_extends(
    mu_repr: Map<Slot, AppliedIdView>,
    sigma: Map<Slot, AppliedIdView>,
    r: Map<Slot, Slot>,
    n: nat,
)
    requires
        unifier_renamable(sigma, r),
        mu_repr.submap_of(sigma),
        unifier_below(sigma, n),
    ensures
        renamed_unifier(mu_repr, r).submap_of(renamed_unifier(sigma, r)),
        unifier_below(renamed_unifier(sigma, r), n),
{
    let rm = renamed_unifier(mu_repr, r);
    let rs = renamed_unifier(sigma, r);
    assert forall|k: Slot| #[trigger] rm.dom().contains(k) implies rs.dom().contains(k) && rm[k]
        == rs[k] by {
        let s1 = choose|s: Slot| mu_repr.dom().contains(s) && #[trigger] rename(r, s) == k;
        assert(sigma.dom().contains(s1));
        let s2 = choose|s: Slot| sigma.dom().contains(s) && #[trigger] rename(r, s) == k;
        if s1 != s2 {
            assert(rename(r, s1) != rename(r, s2));
        }
    }
    assert forall|k: Slot| #[trigger] rs.dom().contains(k) implies rs[k].0 < n by {
        let s2 = choose|s: Slot| sigma.dom().contains(s) && #[trigger] rename(r, s) == k;
        assert(sigma[s2].0 < n);
    }
}

/// The results of a transport extend the context it was asked for.
proof fn lemma_transport_extends(
    ra: AppliedIdView,
    rb: AppliedIdView,
    mu_repr: Map<Slot, AppliedIdView>,
    results: Seq<Unifier>,
    a: AppliedIdView,
    b: AppliedIdView,
    mu: Map<Slot, AppliedIdView>,
    out: Seq<Unifier>,
    n: nat,
)
    requires
        all_extend(results, mu_repr, n),
        transport_result(ra, rb, mu_repr, unifiers_view(results), a, b, mu) == Some(
            unifiers_view(out),
        ),
        forall|i: int| 0 <= i < out.len() ==> (#[trigger] out[i]).wf(),
    ensures
        all_extend(out, mu, n),
{
    let r = pair_renaming_result(ra, rb, a, b)->0;
    let rv = unifiers_view(results);
    let f = |u: Map<Slot, AppliedIdView>| renamed_unifier(u, r);
    assert(unifiers_view(out) == dedup(rv.map_values(f)));
    assert(mu == renamed_unifier(mu_repr, r));
    assert forall|j: int| 0 <= j < out.len() implies extends_context(#[trigger] out[j], mu, n) by {
        assert(unifiers_view(out)[j] == out[j]@);
        assert(dedup(rv.map_values(f)).contains(out[j]@));
        lemma_dedup_subset(rv.map_values(f), out[j]@);
        let i = choose|i: int| 0 <= i < rv.map_values(f).len() && rv.map_values(f)[i] == out[j]@;
        assert(extends_context(results[i], mu_repr, n));
        assert(rv[i] == results[i]@);
        assert(unifier_renamable(rv[i], r));
        lemma_renamed_extends(mu_repr, rv[i], r, n);
    }
}

/// Adds `u` to `l` unless an equal unifier is there already.
fn push_new(l: &mut Vec<Unifier>, u: Unifier, Ghost(mu): Ghost<Map<Slot, AppliedIdView>>, Ghost(n): Ghost<nat>)
    requires
        all_extend(old(l)@, mu, n),
        extends_context(u, mu, n),
    ensures
        all_extend(final(l)@, mu, n),
        unifiers_view(final(l)@) == push_new_spec(unifiers_view(old(l)@), u@),
{
    let ghost before = l@;
    push_unique_unifier(l, u);
    proof {
        if !unifiers_view(before).contains(u@) {
            assert(unifiers_view(l@) =~= unifiers_view(before).push(u@));
        }
    }
}

/// Adds each unifier of `src` to `l` unless an equal one is there already.
fn push_all(l: &mut Vec<Unifier>, src: Vec<Unifier>, Ghost(mu): Ghost<Map<Slot, AppliedIdView>>, Ghost(n): Ghost<nat>)
    requires
        all_extend(old(l)@, mu, n),
        all_extend(src@, mu, n),
    ensures
        all_extend(final(l)@, mu, n),
        unifiers_view(final(l)@) == push_all_spec(unifiers_view(old(l)@), unifiers_view(src@)),
{
    let ghost l0 = unifiers_view(l@);
    let ghost sv = unifiers_view(src@);
    let mut i: usize = 0;
    while i < src.len()
        invariant
            all_extend(l@, mu, n),
            all_extend(src@, mu, n),
            0 <= i <= src@.len(),
            sv == unifiers_view(src@),
            unifiers_view(l@) == push_all_spec(l0, sv.subrange(0, i as int)),
        decreases src@.len() - i,
    {
        let u = src[i].duplicate();
        proof {
            let sub = sv.subrange(0, i + 1);
            assert(sub.drop_last() =~= sv.subrange(0, i as int));
            assert(sub.last() == src@[i as int]@);
        }
        push_new(l, u, Ghost(mu), Ghost(n));
        i = i + 1;
    }
    assert(sv.subrange(0, i as int) =~= sv);
}

/// A copy of each unifier of the list.
fn duplicate_all(l: &Vec<Unifier>, Ghost(mu): Ghost<Map<Slot, AppliedIdView>>, Ghost(n): Ghost<nat>) -> (r: Vec<Unifier>)
    requires
        all_extend(l@, mu, n),
    ensures
        all_extend(r@, mu, n),
        unifiers_view(r@) == unifiers_view(l@),
{
    let mut out: Vec<Unifier> = Vec::new();
    let mut i: usize = 0;
    while i < l.len()
        invariant
            all_extend(l@, mu, n),
            all_extend(out@, mu, n),
            0 <= i <= l@.len(),
            out@.len() == i,
            unifiers_view(out@) == unifiers_view(l@.subrange(0, i as int)),
        decreases l@.len() - i,
    {
        let ghost prev = out@;
        let u = l[i].duplicate();
        out.push(u);
        proof {
            assert(out@ == prev.push(u));
            assert(unifiers_view(out@).len() == unifiers_view(l@.subrange(0, i + 1)).len());
            assert forall|j: int| 0 <= j < out@.len() implies #[trigger] unifiers_view(out@)[j]
                == unifiers_view(l@.subrange(0, i + 1))[j] by {
                if j < i {
                    assert(unifiers_view(prev)[j] == unifiers_view(l@.subrange(0, i as int))[j]);
                }
            }
            assert(unifiers_view(out@) =~= unifiers_view(l@.subrange(0, i + 1)));
        }
        i = i + 1;
    }
    assert(l@.subrange(0, i as int) =~= l@);
    out
}

/// The unifiers of classes `a` and `b` that extend the context `mu`, searched over the
/// e-nodes of the two classes with lazily applied bindings, one level of the recursion
/// budget `depth` taken while it runs. Each pair of classes is memoised in `memo`: a
/// pair still being worked on (either way round) gives no unifier, and finished results
/// are carried over to a new call where the renaming between the calls takes the
/// memoised context to `mu`. Each pair of classes that is worked on takes one unit of
/// `budget`; with none left, none is. The unifiers, the memo and the budget afterwards are
/// those of `mgus_spec`; every unifier extends `mu`.
pub fn compute_mgus(
    g: &EGraphView,
    a: &AppliedId,
    b: &AppliedId,
    mu: &Unifier,
    memo: &mut MguMemo,
    budget: &mut usize,
    depth: &mut RecursionDepth,
) -> (r: Vec<Unifier>)
    requires
        g.wf(),
        a.wf(),
        b.wf(),
        a.id < g.len(),
        b.id < g.len(),
        mu.wf(),
        unifier_below(mu@, g.len()),
        old(memo).wf(),
        memo_inv(old(memo)@, g.len()),
    ensures
        all_extend(r@, mu@, g.len()),
        final(memo).wf(),
        memo_inv(final(memo)@, g.len()),
        *final(budget) <= *old(budget),
        final(depth).max == old(depth).max,
        final(depth).cur == old(depth).cur,
        old(depth).cur >= old(depth).max ==> r@.len() == 0 && final(memo)@ == old(memo)@,
        in_progress(old(memo)@, (g.find_spec(a@).0, g.find_spec(b@).0)) ==> r@.len() == 0 && final(memo)@
            == old(memo)@,
        exists|f: nat|
            mgus_spec(
                *g,
                a@,
                b@,
                mu@,
                memo_view(old(memo)@),
                *old(budget) as nat,
                old(depth).cur as nat,
                old(depth).max as nat,
                f,
            ) == Some((unifiers_view(r@), memo_view(final(memo)@), *final(budget) as nat)),
        crate::mgu_laws::memo_ok(*g, memo_view(old(memo)@)) && crate::mgu_laws::transport_keeps_unifiers(*g)
            ==> crate::mgu_laws::results_ok(*g, unifiers_view(r@), mu@, g.find_spec(a@), g.find_spec(b@))
            && crate::mgu_laws::memo_ok(*g, memo_view(final(memo)@)),
    decreases *old(budget), 1nat,
{
    let ghost m0 = memo_view(memo@);
    let ghost b0 = *budget as nat;
    let ghost c0 = depth.cur as nat;
    let ghost x0 = depth.max as nat;
    let guard = match DepthGuard::enter(depth) {
        Some(d) => d,
        None => {
            let r: Vec<Unifier> = Vec::new();
            assert(unifiers_view(r@) =~= Seq::<Map<Slot, AppliedIdView>>::empty());
            assert(mgus_spec(*g, a@, b@, mu@, m0, b0, c0, x0, 1) == Some((unifiers_view(r@), m0, b0)));
            return r;
        },
    };
    let r = compute_mgus_entered(g, a, b, mu, memo, budget, depth);
    proof {
        let f = choose|f: nat|
            #[trigger] entered_spec(*g, a@, b@, mu@, m0, b0, c0 + 1, x0, f) == Some(
                (unifiers_view(r@), memo_view(memo@), *budget as nat),
            );
        assert(mgus_spec(*g, a@, b@, mu@, m0, b0, c0, x0, f) == Some(
            (unifiers_view(r@), memo_view(memo@), *budget as nat),
        ));
        if crate::mgu_laws::memo_ok(*g, m0) && crate::mgu_laws::transport_keeps_unifiers(*g) {
            crate::mgu_laws::lemma_mgus_unify(*g, a@, b@, mu@, m0, b0, c0, x0, f);
        }
    }
    guard.exit(depth);
    r
}

/// `compute_mgus` once the level of recursion is taken.
fn compute_mgus_entered(
    g: &EGraphView,
    a: &AppliedId,
    b: &AppliedId,
    mu: &Unifier,
    memo: &mut MguMemo,
    budget: &mut usize,
    depth: &mut RecursionDepth,
) -> (r: Vec<Unifier>)
    requires
        g.wf(),
        a.wf(),
        b.wf(),
        a.id < g.len(),
        b.id < g.len(),
        mu.wf(),
        unifier_below(mu@, g.len()),
        old(memo).wf(),
        memo_inv(old(memo)@, g.len()),
    ensures
        all_extend(r@, mu@, g.len()),
        final(memo).wf(),
        memo_inv(final(memo)@, g.len()),
        *final(budget) <= *old(budget),
        final(depth).max == old(depth).max,
        final(depth).cur == old(depth).cur,
        in_progress(old(memo)@, (g.find_spec(a@).0, g.find_spec(b@).0)) ==> r@.len() == 0 && final(memo)@
            == old(memo)@,
        exists|f: nat|
            entered_spec(
                *g,
                a@,
                b@,
                mu@,
                memo_view(old(memo)@),
                *old(budget) as nat,
                old(depth).cur as nat,
                old(depth).max as nat,
                f,
            ) == Some((unifiers_view(r@), memo_view(final(memo)@), *final(budget) as nat)),
    decreases *old(budget), 0nat,
{
    let ghost n = g.len();
    let ghost m0 = memo_view(memo@);
    let ghost bud0 = *budget as nat;
    let ghost cur = depth.cur as nat;
    let ghost max = depth.max as nat;
    let ghost a0 = a@;
    let ghost b0 = b@;
    let ghost empty = Seq::<Map<Slot, AppliedIdView>>::empty();
    let none: Vec<Unifier> = Vec::new();
    assert(unifiers_view(none@) =~= empty);
    let a = g.find_applied_id(a);
    let b = g.find_applied_id(b);
    let ghost key = (a.id, b.id);
    match memo.get(a.id, b.id) {
        Some(MguMemoEntry::InProgress) => {
            assert(m0[key] == MemoView::InProgress);
            assert(entered_spec(*g, a0, b0, mu@, m0, bud0, cur, max, 1) == Some((empty, m0, bud0)));
            return none;
        },
        Some(MguMemoEntry::Done(ra, rb, mu_repr, results)) => {
            assert(memo@.contains_key((a.id, b.id)));
            assert(m0[key] == MemoView::Done(ra@, rb@, mu_repr@, unifiers_view(results@)));
            match transport_results(ra, rb, mu_repr, results, &a, &b, mu) {
                Some(l) => {
                    proof {
                        lemma_transport_extends(
                            ra@,
                            rb@,
                            mu_repr@,
                            results@,
                            a@,
                            b@,
                            mu@,
                            l@,
                            n,
                        );
                        assert(entered_spec(*g, a0, b0, mu@, m0, bud0, cur, max, 1) == Some(
                            (unifiers_view(l@), m0, bud0),
                        ));
                    }
                    return l;
                },
                None => {},
            }
        },
        None => {
            match memo.get(b.id, a.id) {
                Some(MguMemoEntry::InProgress) => {
                    assert(m0[(b.id, a.id)] == MemoView::InProgress);
                    assert(entered_spec(*g, a0, b0, mu@, m0, bud0, cur, max, 1) == Some((empty, m0, bud0)));
                    return none;
                },
                _ => {
                    assert(!(m0.contains_key((b.id, a.id)) && m0[(b.id, a.id)] is InProgress));
                },
            }
        },
    }
    memo.insert(a.id, b.id, MguMemoEntry::InProgress);
    let ghost m1 = memo_view(memo@);
    assert(m1 =~= m0.insert(key, MemoView::InProgress));
    let mut l: Vec<Unifier> = none;
    if *budget == 0 {
        assert(entered_spec(*g, a0, b0, mu@, m0, bud0, cur, max, 1) == Some((empty, m1, 0nat)));
        return l;
    }
    *budget = *budget - 1;
    let ghost b1 = *budget;
    let nas = g.enodes_applied(&a);
    let nbs = g.enodes_applied(&b);
    let ghost nav = nas@.map_values(|e: SimpleLang| crate::egraph::node_view(e));
    let ghost nbv = nbs@.map_values(|e: SimpleLang| crate::egraph::node_view(e));
    let ghost mut fc: nat = 1;
    let ghost start = |f: nat| pairs_spec(*g, a@, b@, mu@, nav, nbv, 0, 0, empty, m1, b1 as nat, cur, max, f);
    let mut ia: usize = 0;
    while ia < nas.len()
        invariant
            g.wf(),
            n == g.len(),
            a.wf(),
            b.wf(),
            a.id < n,
            b.id < n,
            mu.wf(),
            unifier_below(mu@, n),
            memo.wf(),
            memo_inv(memo@, n),
            *budget <= b1,
            b1 < *old(budget),
            depth.max == old(depth).max,
            depth.cur == old(depth).cur,
            cur == depth.cur,
            max == depth.max,
            all_extend(l@, mu@, n),
            forall|j: int| 0 <= j < nas@.len() ==> crate::egraph::node_wf(#[trigger] nas@[j], n),
            forall|j: int| 0 <= j < nbs@.len() ==> crate::egraph::node_wf(#[trigger] nbs@[j], n),
            nav == nas@.map_values(|e: SimpleLang| crate::egraph::node_view(e)),
            nbv == nbs@.map_values(|e: SimpleLang| crate::egraph::node_view(e)),
            0 <= ia <= nas@.len(),
            fc >= 1,
            forall|f: nat|
                f >= fc ==> #[trigger] start(f) == pairs_spec(
                    *g,
                    a@,
                    b@,
                    mu@,
                    nav,
                    nbv,
                    ia as int,
                    0,
                    unifiers_view(l@),
                    memo_view(memo@),
                    *budget as nat,
                    cur,
                    max,
                    f,
                ),
        decreases nas@.len() - ia,
    {
        let mut ib: usize = 0;
        while ib < nbs.len()
            invariant
                g.wf(),
                n == g.len(),
                a.wf(),
                b.wf(),
                a.id < n,
                b.id < n,
                mu.wf(),
                unifier_below(mu@, n),
                memo.wf(),
                memo_inv(memo@, n),
                *budget <= b1,
                b1 < *old(budget),
                depth.max == old(depth).max,
                depth.cur == old(depth).cur,
                cur == depth.cur,
                max == depth.max,
                all_extend(l@, mu@, n),
                forall|j: int| 0 <= j < nas@.len() ==> crate::egraph::node_wf(#[trigger] nas@[j], n),
                forall|j: int| 0 <= j < nbs@.len() ==> crate::egraph::node_wf(#[trigger] nbs@[j], n),
                nav == nas@.map_values(|e: SimpleLang| crate::egraph::node_view(e)),
                nbv == nbs@.map_values(|e: SimpleLang| crate::egraph::node_view(e)),
                0 <= ia < nas@.len(),
                0 <= ib <= nbs@.len(),
                fc >= 1,
                forall|f: nat|
                    f >= fc ==> #[trigger] start(f) == pairs_spec(
                        *g,
                        a@,
                        b@,
                        mu@,
                        nav,
                        nbv,
                        ia as int,
                        ib as int,
                        unifiers_view(l@),
                        memo_view(memo@),
                        *budget as nat,
                        cur,
                        max,
                        f,
                    ),
            decreases nbs@.len() - ib,
        {
            proof {
                assert(crate::egraph::node_wf(nas@[ia as int], n));
                assert(crate::egraph::node_wf(nbs@[ib as int], n));
            }
            let ghost lv = unifiers_view(l@);
            let ghost mv = memo_view(memo@);
            let ghost bv = *budget as nat;
            mgus_pair(g, &a, &b, mu, &nas[ia], &nbs[ib], &mut l, memo, budget, depth);
            proof {
                let fp = choose|f: nat|
                    #[trigger] pair_spec(*g, a@, b@, mu@, nav[ia as int], nbv[ib as int], lv, mv, bv, cur, max, f) == Some(
                        (unifiers_view(l@), memo_view(memo@), *budget as nat),
                    );
                let fnew = if fc > fp { fc } else { fp };
                assert forall|f: nat| f >= fnew implies #[trigger] start(f) == pairs_spec(
                    *g,
                    a@,
                    b@,
                    mu@,
                    nav,
                    nbv,
                    ia as int,
                    ib + 1,
                    unifiers_view(l@),
                    memo_view(memo@),
                    *budget as nat,
                    cur,
                    max,
                    f,
                ) by {
                    lemma_pair_fuel(*g, a@, b@, mu@, nav[ia as int], nbv[ib as int], lv, mv, bv, cur, max, fp, f);
                }
                fc = fnew;
            }
            ib = ib + 1;
        }
        proof {
            assert forall|f: nat| f >= fc implies #[trigger] start(f) == pairs_spec(
                *g,
                a@,
                b@,
                mu@,
                nav,
                nbv,
                ia + 1,
                0,
                unifiers_view(l@),
                memo_view(memo@),
                *budget as nat,
                cur,
                max,
                f,
            ) by {}
        }
        ia = ia + 1;
    }
    let results = duplicate_all(&l, Ghost(mu@), Ghost(n));
    let ghost m2 = memo_view(memo@);
    memo.insert(a.id, b.id, MguMemoEntry::Done(a.duplicate(), b.duplicate(), mu.duplicate(), results));
    proof {
        assert(memo_view(memo@) =~= m2.insert(key, MemoView::Done(a@, b@, mu@, unifiers_view(l@))));
        assert(start(fc) == Some((unifiers_view(l@), m2, *budget as nat)));
        assert(entered_spec(*g, a0, b0, mu@, m0, bud0, cur, max, fc) == Some(
            (unifiers_view(l@), memo_view(memo@), *budget as nat),
        ));
    }
    l
}

/// The unification of the e-node `na` of the class of `a` with the e-node `nb` of the
/// class of `b`, adding its unifiers to `l`.
fn mgus_pair(
    g: &EGraphView,
    a: &AppliedId,
    b: &AppliedId,
    mu: &Unifier,
    na: &SimpleLang,
    nb: &SimpleLang,
    l: &mut Vec<Unifier>,
    memo: &mut MguMemo,
    budget: &mut usize,
    depth: &mut RecursionDepth,
)
    requires
        g.wf(),
        a.wf(),
        b.wf(),
        a.id < g.len(),
        b.id < g.len(),
        mu.wf(),
        unifier_below(mu@, g.len()),
        crate::egraph::node_wf(*na, g.len()),
        crate::egraph::node_wf(*nb, g.len()),
        all_extend(old(l)@, mu@, g.len()),
        old(memo).wf(),
        memo_inv(old(memo)@, g.len()),
    ensures
        all_extend(final(l)@, mu@, g.len()),
        final(memo).wf(),
        memo_inv(final(memo)@, g.len()),
        *final(budget) <= *old(budget),
        final(depth).max == old(depth).max,
        final(depth).cur == old(depth).cur,
        exists|f: nat|
            pair_spec(
                *g,
                a@,
                b@,
                mu@,
                crate::egraph::node_view(*na),
                crate::egraph::node_view(*nb),
                unifiers_view(old(l)@),
                memo_view(old(memo)@),
                *old(budget) as nat,
                old(depth).cur as nat,
                old(depth).max as nat,
                f,
            ) == Some((unifiers_view(final(l)@), memo_view(final(memo)@), *final(budget) as nat)),
    decreases *old(budget), 2nat,
{
    let ghost n = g.len();
    let ghost l0 = unifiers_view(l@);
    let ghost m0 = memo_view(memo@);
    let ghost bud0 = *budget as nat;
    let ghost cur = depth.cur as nat;
    let ghost max = depth.max as nat;
    let ghost nav = crate::egraph::node_view(*na);
    let ghost nbv = crate::egraph::node_view(*nb);
    match (na, nb) {
        (SimpleLang::App(c1, c2), SimpleLang::App(c3, c4)) => {
            let mu2s = compute_mgus(g, c1, c3, mu, memo, budget, depth);
            let ghost mu2v = unifiers_view(mu2s@);
            let ghost f1 = choose|f: nat|
                #[trigger] mgus_spec(*g, c1@, c3@, mu@, m0, bud0, cur, max, f) == Some(
                    (mu2v, memo_view(memo@), *budget as nat),
                );
            let ghost mm = memo_view(memo@);
            let ghost bm = *budget as nat;
            let ghost mut fc: nat = f1 + 1;
            proof {
                assert forall|f: nat| f >= fc implies #[trigger] pair_spec(*g, a@, b@, mu@, nav, nbv, l0, m0, bud0, cur, max, f)
                    == dec_spec(*g, c2@, c4@, mu2v, 0, l0, mm, bm, cur, max, f) by {
                    lemma_mgus_fuel(*g, c1@, c3@, mu@, m0, bud0, cur, max, f1, (f - 1) as nat);
                }
            }
            let mut k: usize = 0;
            while k < mu2s.len()
                invariant
                    g.wf(),
                    n == g.len(),
                    c2.wf(),
                    c4.wf(),
                    c2.id < n,
                    c4.id < n,
                    memo.wf(),
                    memo_inv(memo@, n),
                    *budget <= *old(budget),
                    depth.max == old(depth).max,
                    depth.cur == old(depth).cur,
                    cur == depth.cur,
                    max == depth.max,
                    all_extend(l@, mu@, n),
                    all_extend(mu2s@, mu@, n),
                    mu2v == unifiers_view(mu2s@),
                    0 <= k <= mu2s@.len(),
                    fc >= 1,
                    forall|f: nat|
                        f >= fc ==> #[trigger] pair_spec(*g, a@, b@, mu@, nav, nbv, l0, m0, bud0, cur, max, f)
                            == dec_spec(
                            *g,
                            c2@,
                            c4@,
                            mu2v,
                            k as int,
                            unifiers_view(l@),
                            memo_view(memo@),
                            *budget as nat,
                            cur,
                            max,
                            f,
                        ),
                decreases mu2s@.len() - k,
            {
                let mu2 = &mu2s[k];
                proof {
                    assert(extends_context(mu2s@[k as int], mu@, n));
                    assert(mu2v[k as int] == mu2@);
                }
                let ghost lv = unifiers_view(l@);
                let ghost mv = memo_view(memo@);
                let ghost bv = *budget as nat;
                let mu3s = compute_mgus(g, c2, c4, mu2, memo, budget, depth);
                proof {
                    assert forall|j: int| 0 <= j < mu3s@.len() implies extends_context(
                        #[trigger] mu3s@[j],
                        mu@,
                        n,
                    ) by {
                        let m3 = mu3s@[j];
                        assert(extends_context(m3, mu2@, n));
                        assert(mu@.submap_of(mu2@));
                        assert forall|q: Slot| #[trigger] mu@.dom().contains(q) implies m3@.dom().contains(q)
                            && mu@[q] == m3@[q] by {
                            assert(mu2@.dom().contains(q));
                        }
                    }
                }
                let ghost mu3v = unifiers_view(mu3s@);
                let ghost mm3 = memo_view(memo@);
                let ghost bm3 = *budget as nat;
                push_all(l, mu3s, Ghost(mu@), Ghost(n));
                proof {
                    let f3 = choose|f: nat|
                        #[trigger] mgus_spec(*g, c2@, c4@, mu2@, mv, bv, cur, max, f) == Some((mu3v, mm3, bm3));
                    let fnew = if fc > f3 + 1 { fc } else { f3 + 1 };
                    assert forall|f: nat| f >= fnew implies #[trigger] pair_spec(*g, a@, b@, mu@, nav, nbv, l0, m0, bud0, cur, max, f)
                        == dec_spec(
                        *g,
                        c2@,
                        c4@,
                        mu2v,
                        k + 1,
                        unifiers_view(l@),
                        memo_view(memo@),
                        *budget as nat,
                        cur,
                        max,
                        f,
                    ) by {
                        lemma_mgus_fuel(*g, c2@, c4@, mu2@, mv, bv, cur, max, f3, (f - 1) as nat);
                    }
                    fc = fnew;
                }
                k = k + 1;
            }
            proof {
                assert(pair_spec(*g, a@, b@, mu@, nav, nbv, l0, m0, bud0, cur, max, fc) == Some(
                    (unifiers_view(l@), memo_view(memo@), *budget as nat),
                ));
            }
        },
        (SimpleLang::Symbol(f), SimpleLang::Symbol(h)) => {
            if *f == *h {
                push_new(l, mu.duplicate(), Ghost(mu@), Ghost(n));
            }
            assert(pair_spec(*g, a@, b@, mu@, nav, nbv, l0, m0, bud0, cur, max, 1) == Some(
                (unifiers_view(l@), memo_view(memo@), *budget as nat),
            ));
        },
        (SimpleLang::Number(p), SimpleLang::Number(q)) => {
            if *p == *q {
                push_new(l, mu.duplicate(), Ghost(mu@), Ghost(n));
            }
            assert(pair_spec(*g, a@, b@, mu@, nav, nbv, l0, m0, bud0, cur, max, 1) == Some(
                (unifiers_view(l@), memo_view(memo@), *budget as nat),
            ));
        },
        (SimpleLang::Var(y), nb) => {
            let same = match nb {
                SimpleLang::Var(x) => *x == *y,
                _ => false,
            };
            if same {
                push_new(l, mu.duplicate(), Ghost(mu@), Ghost(n));
                assert(pair_spec(*g, a@, b@, mu@, nav, nbv, l0, m0, bud0, cur, max, 1) == Some(
                    (unifiers_view(l@), memo_view(memo@), *budget as nat),
                ));
            } else {
                match mu.get(*y) {
                    Some(c) => {
                        let found = compute_mgus(g, c, b, mu, memo, budget, depth);
                        let ghost fv = unifiers_view(found@);
                        let ghost mm = memo_view(memo@);
                        let ghost bm = *budget as nat;
                        push_all(l, found, Ghost(mu@), Ghost(n));
                        proof {
                            let f1 = choose|f: nat| #[trigger] mgus_spec(*g, c@, b@, mu@, m0, bud0, cur, max, f) == Some((fv, mm, bm));
                            assert(pair_spec(*g, a@, b@, mu@, nav, nbv, l0, m0, bud0, cur, max, f1 + 1) == Some(
                                (unifiers_view(l@), memo_view(memo@), *budget as nat),
                            ));
                        }
                    },
                    None => {
                        if !occ(mu, b, y) {
                            let mut sigma = mu.duplicate();
                            sigma.insert(*y, b.duplicate());
                            push_new(l, sigma, Ghost(mu@), Ghost(n));
                        }
                        assert(pair_spec(*g, a@, b@, mu@, nav, nbv, l0, m0, bud0, cur, max, 1) == Some(
                            (unifiers_view(l@), memo_view(memo@), *budget as nat),
                        ));
                    },
                }
            }
        },
        (_, SimpleLang::Var(x)) => {
            match mu.get(*x) {
                Some(c) => {
                    let found = compute_mgus(g, a, c, mu, memo, budget, depth);
                    let ghost fv = unifiers_view(found@);
                    let ghost mm = memo_view(memo@);
                    let ghost bm = *budget as nat;
                    push_all(l, found, Ghost(mu@), Ghost(n));
                    proof {
                        let f1 = choose|f: nat| #[trigger] mgus_spec(*g, a@, c@, mu@, m0, bud0, cur, max, f) == Some((fv, mm, bm));
                        assert(pair_spec(*g, a@, b@, mu@, nav, nbv, l0, m0, bud0, cur, max, f1 + 1) == Some(
                            (unifiers_view(l@), memo_view(memo@), *budget as nat),
                        ));
                    }
                },
                None => {
                    if !occ(mu, a, x) {
                        let mut sigma = mu.duplicate();
                        sigma.insert(*x, a.duplicate());
                        push_new(l, sigma, Ghost(mu@), Ghost(n));
                    }
                    assert(pair_spec(*g, a@, b@, mu@, nav, nbv, l0, m0, bud0, cur, max, 1) == Some(
                        (unifiers_view(l@), memo_view(memo@), *budget as nat),
                    ));
                },
            }
        },
        _ => {
            assert(pair_spec(*g, a@, b@, mu@, nav, nbv, l0, m0, bud0, cur, max, 1) == Some(
                (unifiers_view(l@), memo_view(memo@), *budget as nat),
            ));
        },
    }
}

} // verus!
