use vstd::prelude::*;
use crate::slots::{Slot, AppliedId};
use crate::unifier::AppliedIdView;
use crate::analysis::SimpleLang;
use crate::egraph::{EGraphView, ENodeView, node_view, node_wf};
use crate::unify::{Term, Bindings, compute_mgu_terms, copy_term, unifies, mgu_of};

verus! {

/// The pairs `(App(tc, td), sc + sd + 1)` of a term `(tc, sc)` with each term `(td, sd)`
/// of `tds` such that `sc + sd` is at most `lim`.
pub open spec fn row(tc: (Term, u64), tds: Seq<(Term, u64)>, lim: int) -> Seq<(Term, u64)>
    decreases tds.len(),
{
    if tds.len() == 0 {
        Seq::empty()
    } else {
        let td = tds.last();
        let rest = row(tc, tds.drop_last(), lim);
        if tc.1 + td.1 <= lim {
            rest.push((Term::App(Box::new(tc.0), Box::new(td.0)), (tc.1 + td.1 + 1) as u64))
        } else {
            rest
        }
    }
}

/// The rows of each term of `tcs` with the terms of `tds`, one after the other.
pub open spec fn product(tcs: Seq<(Term, u64)>, tds: Seq<(Term, u64)>, lim: int) -> Seq<(Term, u64)>
    decreases tcs.len(),
{
    if tcs.len() == 0 {
        Seq::empty()
    } else {
        product(tcs.drop_last(), tds, lim) + row(tcs.last(), tds, lim)
    }
}

/// The term that a leaf e-node stands for.
pub open spec fn leaf_term(e: ENodeView) -> Term {
    match e {
        ENodeView::Var(x) => Term::Var(x),
        ENodeView::Symbol(f) => Term::Symbol(f),
        ENodeView::Number(k) => Term::Number(k),
        ENodeView::App(_, _) => Term::Number(0),
    }
}

/// The terms of at most `budget` nodes that the class of `a` holds, each with its number
/// of nodes, e-node by e-node in the order of the class: a leaf gives itself; an
/// application gives, for each term of its first child and then each term of its
/// second, both of at most `budget - 1` nodes, their application where the two sizes
/// add up to at most `budget - 1`.
pub open spec fn extract_spec(g: EGraphView, budget: nat, a: AppliedIdView) -> Seq<(Term, u64)>
    decreases budget, 2nat, 0nat,
{
    if budget == 0 {
        Seq::empty()
    } else {
        nodes_terms(g, budget, g.enodes_spec(a))
    }
}

/// The terms of each e-node of the list, one after the other.
pub open spec fn nodes_terms(g: EGraphView, budget: nat, nodes: Seq<ENodeView>) -> Seq<(Term, u64)>
    decreases budget, 1nat, nodes.len(),
{
    if budget == 0 || nodes.len() == 0 {
        Seq::empty()
    } else {
        nodes_terms(g, budget, nodes.drop_last()) + node_terms(g, budget, nodes.last())
    }
}

/// The terms of at most `budget` nodes with the e-node at their head.
pub open spec fn node_terms(g: EGraphView, budget: nat, e: ENodeView) -> Seq<(Term, u64)>
    decreases budget, 0nat, 0nat,
{
    if budget == 0 {
        Seq::empty()
    } else {
        match e {
            ENodeView::App(c, d) => product(
                extract_spec(g, (budget - 1) as nat, c),
                extract_spec(g, (budget - 1) as nat, d),
                budget - 1,
            ),
            _ => seq![(leaf_term(e), 1u64)],
        }
    }
}

/// The number of nodes of a term.
pub open spec fn term_nodes(t: Term) -> nat
    decreases t,
{
    match t {
        Term::App(a, b) => 1 + term_nodes(*a) + term_nodes(*b),
        _ => 1,
    }
}

/// Every term of the list comes with its number of nodes, at most `lim`.
pub open spec fn sizes_within(s: Seq<(Term, u64)>, lim: int) -> bool {
    forall|i: int| 0 <= i < s.len() ==> 1 <= (#[trigger] s[i]).1 <= lim && s[i].1 == term_nodes(s[i].0)
}

/// The rows of `tc` with `tds`.
fn terms_row(tc: &(Term, u64), tds: &Vec<(Term, u64)>, lim: u64, out: &mut Vec<(Term, u64)>)
    requires
        1 <= tc.1 <= lim,
        tc.1 == term_nodes(tc.0),
        lim < u64::MAX,
        sizes_within(tds@, lim as int),
    ensures
        final(out)@ == old(out)@ + row(*tc, tds@, lim as int),
{
    let ghost o0 = old(out)@;
    let mut j: usize = 0;
    while j < tds.len()
        invariant
            1 <= tc.1 <= lim,
            tc.1 == term_nodes(tc.0),
            lim < u64::MAX,
            sizes_within(tds@, lim as int),
            0 <= j <= tds@.len(),
            out@ == o0 + row(*tc, tds@.subrange(0, j as int), lim as int),
        decreases tds@.len() - j,
    {
        let td = &tds[j];
        proof {
            assert(tds@.subrange(0, j + 1).drop_last() =~= tds@.subrange(0, j as int));
            assert(1 <= tds@[j as int].1 <= lim);
        }
        if tc.1 <= lim - td.1 {
            let t = Term::App(Box::new(copy_term(&tc.0)), Box::new(copy_term(&td.0)));
            out.push((t, tc.1 + td.1 + 1));
            assert(out@ =~= o0 + row(*tc, tds@.subrange(0, j + 1), lim as int));
        } else {
            assert(out@ =~= o0 + row(*tc, tds@.subrange(0, j + 1), lim as int));
        }
        j = j + 1;
    }
    assert(tds@.subrange(0, j as int) =~= tds@);
}

/// The sizes in a row are each more than one and at most `lim + 1`.
proof fn lemma_row_sizes(tc: (Term, u64), tds: Seq<(Term, u64)>, lim: int)
    requires
        1 <= tc.1,
        tc.1 == term_nodes(tc.0),
        sizes_within(tds, lim),
        lim + 1 <= u64::MAX,
    ensures
        sizes_within(row(tc, tds, lim), lim + 1),
    decreases tds.len(),
{
    if tds.len() > 0 {
        lemma_row_sizes(tc, tds.drop_last(), lim);
        let rest = row(tc, tds.drop_last(), lim);
        let td = tds.last();
        if tc.1 + td.1 <= lim {
            let r = rest.push((Term::App(Box::new(tc.0), Box::new(td.0)), (tc.1 + td.1 + 1) as u64));
            assert forall|i: int| 0 <= i < r.len() implies 1 <= (#[trigger] r[i]).1 <= lim + 1 && r[i].1
                == term_nodes(r[i].0) by {
                if i < rest.len() {
                    assert(r[i] == rest[i]);
                } else {
                    assert(td.1 == term_nodes(td.0)) by {
                        assert(tds[tds.len() - 1] == td);
                    }
                }
            }
        }
    }
}

/// The sizes of a product are each more than one and at most `lim + 1`.
proof fn lemma_product_sizes(tcs: Seq<(Term, u64)>, tds: Seq<(Term, u64)>, lim: int)
    requires
        sizes_within(tcs, lim),
        sizes_within(tds, lim),
        lim + 1 <= u64::MAX,
    ensures
        sizes_within(product(tcs, tds, lim), lim + 1),
    decreases tcs.len(),
{
    if tcs.len() > 0 {
        assert(sizes_within(tcs.drop_last(), lim)) by {
            assert forall|i: int| 0 <= i < tcs.drop_last().len() implies 1 <= (
            #[trigger] tcs.drop_last()[i]).1 <= lim && tcs.drop_last()[i].1 == term_nodes(tcs.drop_last()[i].0) by {
                assert(tcs.drop_last()[i] == tcs[i]);
            }
        }
        lemma_product_sizes(tcs.drop_last(), tds, lim);
        assert(1 <= tcs.last().1 && tcs.last().1 == term_nodes(tcs.last().0)) by {
            assert(tcs[tcs.len() - 1] == tcs.last());
        }
        lemma_row_sizes(tcs.last(), tds, lim);
        let p = product(tcs.drop_last(), tds, lim);
        let r = row(tcs.last(), tds, lim);
        assert forall|i: int| 0 <= i < (p + r).len() implies 1 <= (#[trigger] (p + r)[i]).1 <= lim + 1
            && (p + r)[i].1 == term_nodes((p + r)[i].0) by {
            if i < p.len() {
                assert((p + r)[i] == p[i]);
            } else {
                assert((p + r)[i] == r[i - p.len()]);
            }
        }
    }
}

/// Every term extracted within a budget comes with its number of nodes, and that is at
/// least one and at most the budget.
pub proof fn lemma_extract_sized(g: EGraphView, budget: nat, a: AppliedIdView)
    requires
        budget <= u64::MAX,
    ensures
        sizes_within(extract_spec(g, budget, a), budget as int),
    decreases budget, 2nat, 0nat,
{
    if budget > 0 {
        lemma_nodes_sized(g, budget, g.enodes_spec(a));
    }
}

proof fn lemma_nodes_sized(g: EGraphView, budget: nat, nodes: Seq<ENodeView>)
    requires
        0 < budget <= u64::MAX,
    ensures
        sizes_within(nodes_terms(g, budget, nodes), budget as int),
    decreases budget, 1nat, nodes.len(),
{
    if nodes.len() > 0 {
        lemma_nodes_sized(g, budget, nodes.drop_last());
        lemma_node_sized(g, budget, nodes.last());
        let p = nodes_terms(g, budget, nodes.drop_last());
        let q = node_terms(g, budget, nodes.last());
        assert forall|i: int| 0 <= i < (p + q).len() implies 1 <= (#[trigger] (p + q)[i]).1 <= budget
            && (p + q)[i].1 == term_nodes((p + q)[i].0) by {
            if i < p.len() {
                assert((p + q)[i] == p[i]);
            } else {
                assert((p + q)[i] == q[i - p.len()]);
            }
        }
    }
}

proof fn lemma_node_sized(g: EGraphView, budget: nat, e: ENodeView)
    requires
        0 < budget <= u64::MAX,
    ensures
        sizes_within(node_terms(g, budget, e), budget as int),
    decreases budget, 0nat, 0nat,
{
    match e {
        ENodeView::App(c, d) => {
            lemma_extract_sized(g, (budget - 1) as nat, c);
            lemma_extract_sized(g, (budget - 1) as nat, d);
            lemma_product_sizes(
                extract_spec(g, (budget - 1) as nat, c),
                extract_spec(g, (budget - 1) as nat, d),
                budget - 1,
            );
        },
        _ => {
            let s = node_terms(g, budget, e);
            assert(s[0].1 == 1);
        },
    }
}

/// The class of `a` holds the term `t`: one of its e-nodes gives it.
pub open spec fn term_of(g: EGraphView, a: AppliedIdView, t: Term) -> bool
    decreases t, 2nat, 0nat,
{
    gives_from(g, g.enodes_spec(a), 0, t)
}

/// One of the e-nodes from position `i` on gives `t`.
pub open spec fn gives_from(g: EGraphView, nodes: Seq<ENodeView>, i: int, t: Term) -> bool
    decreases t, 1nat, nodes.len() - i,
{
    if i < 0 || i >= nodes.len() {
        false
    } else {
        node_gives(g, nodes[i], t) || gives_from(g, nodes, i + 1, t)
    }
}

/// `gives_from` is a search over the e-nodes.
pub proof fn lemma_gives_from(g: EGraphView, nodes: Seq<ENodeView>, i: int, t: Term)
    requires
        0 <= i,
    ensures
        gives_from(g, nodes, i, t) <==> exists|j: int| i <= j < nodes.len() && #[trigger] node_gives(g, nodes[j], t),
    decreases nodes.len() - i,
{
    if i < nodes.len() {
        lemma_gives_from(g, nodes, i + 1, t);
        assert(gives_from(g, nodes, i, t) == (node_gives(g, nodes[i], t) || gives_from(g, nodes, i + 1, t)));
        if exists|j: int| i <= j < nodes.len() && #[trigger] node_gives(g, nodes[j], t) {
            let j = choose|j: int| i <= j < nodes.len() && #[trigger] node_gives(g, nodes[j], t);
            if j > i {
                assert(i + 1 <= j);
                assert(gives_from(g, nodes, i + 1, t));
            }
        }
        if gives_from(g, nodes, i, t) {
            if node_gives(g, nodes[i], t) {
                assert(exists|j: int| i <= j < nodes.len() && #[trigger] node_gives(g, nodes[j], t));
            } else {
                let j = choose|j: int| i + 1 <= j < nodes.len() && #[trigger] node_gives(g, nodes[j], t);
                assert(exists|j: int| i <= j < nodes.len() && #[trigger] node_gives(g, nodes[j], t));
            }
        }
    } else {
        assert(!gives_from(g, nodes, i, t));
    }
}

/// The e-node `e` gives the term `t`: a leaf gives itself, an application gives the
/// application of a term of its function to a term of its argument.
pub open spec fn node_gives(g: EGraphView, e: ENodeView, t: Term) -> bool
    decreases t, 0nat, 0nat,
{
    match e {
        ENodeView::App(c, d) => match t {
            Term::App(t1, t2) => term_of(g, c, *t1) && term_of(g, d, *t2),
            _ => false,
        },
        _ => t == leaf_term(e),
    }
}

/// The terms listed for a budget are terms of the class, within the budget, and every
/// term of the class within the budget is listed: extraction gives exactly the terms of
/// the class of at most `budget` nodes.
pub proof fn lemma_extract_exact(g: EGraphView, budget: nat, a: AppliedIdView, t: Term)
    requires
        budget <= u64::MAX,
    ensures
        extract_spec(g, budget, a).map_values(|p: (Term, u64)| p.0).contains(t) <==> (term_of(g, a, t)
            && term_nodes(t) <= budget),
{
    let ex = extract_spec(g, budget, a);
    let ts = ex.map_values(|p: (Term, u64)| p.0);
    lemma_extract_sized(g, budget, a);
    if ts.contains(t) {
        let i = choose|i: int| 0 <= i < ts.len() && ts[i] == t;
        assert(ex[i].0 == t);
        lemma_extract_sound(g, budget, a);
    }
    if term_of(g, a, t) && term_nodes(t) <= budget {
        lemma_extract_complete(g, budget, a, t);
        let i = choose|i: int| 0 <= i < ex.len() && ex[i] == (t, term_nodes(t) as u64);
        assert(ts[i] == t);
    }
}

/// Every listed term is a term of the class.
pub proof fn lemma_extract_sound(g: EGraphView, budget: nat, a: AppliedIdView)
    ensures
        forall|i: int| 0 <= i < extract_spec(g, budget, a).len() ==> term_of(g, a, (#[trigger] extract_spec(g, budget, a)[i]).0),
    decreases budget, 2nat, 0nat,
{
    if budget > 0 {
        let nodes = g.enodes_spec(a);
        lemma_nodes_sound(g, budget, nodes, nodes.len() as int);
        assert(nodes.subrange(0, nodes.len() as int) =~= nodes);
        assert forall|i: int| 0 <= i < extract_spec(g, budget, a).len() implies term_of(g, a, (#[trigger] extract_spec(g, budget, a)[i]).0) by {
            let t = extract_spec(g, budget, a)[i].0;
            let sub = nodes.subrange(0, nodes.len() as int);
            assert(extract_spec(g, budget, a) == nodes_terms(g, budget, sub));
            assert(nodes_terms(g, budget, sub)[i].0 == t);
            assert(given_by_some(g, nodes, nodes.len() as int, t));
            let j = choose|j: int| 0 <= j < nodes.len() && #[trigger] node_gives(g, nodes[j], t);
            lemma_gives_from(g, nodes, 0, t);
        }
    }
}

/// One of the first `k` e-nodes gives `t`.
pub open spec fn given_by_some(g: EGraphView, nodes: Seq<ENodeView>, k: int, t: Term) -> bool {
    exists|j: int| 0 <= j < k && #[trigger] node_gives(g, nodes[j], t)
}

/// Every term listed for the first `k` e-nodes is given by one of them.
proof fn lemma_nodes_sound(g: EGraphView, budget: nat, nodes: Seq<ENodeView>, k: int)
    requires
        budget > 0,
        0 <= k <= nodes.len(),
    ensures
        forall|i: int|
            0 <= i < nodes_terms(g, budget, nodes.subrange(0, k)).len() ==> given_by_some(
                g,
                nodes,
                k,
                (#[trigger] nodes_terms(g, budget, nodes.subrange(0, k))[i]).0,
            ),
    decreases budget, 1nat, k,
{
    if k > 0 {
        let sub = nodes.subrange(0, k);
        assert(sub.drop_last() =~= nodes.subrange(0, k - 1));
        lemma_nodes_sound(g, budget, nodes, k - 1);
        lemma_node_sound(g, budget, nodes[k - 1]);
        let p = nodes_terms(g, budget, nodes.subrange(0, k - 1));
        let q = node_terms(g, budget, nodes[k - 1]);
        assert(nodes_terms(g, budget, sub) == p + q);
        assert forall|i: int| 0 <= i < (p + q).len() implies given_by_some(g, nodes, k, (#[trigger] (p + q)[i]).0) by {
            if i < p.len() {
                assert((p + q)[i] == p[i]);
                assert(given_by_some(g, nodes, k - 1, p[i].0));
                let j = choose|j: int| 0 <= j < k - 1 && #[trigger] node_gives(g, nodes[j], p[i].0);
            } else {
                assert((p + q)[i] == q[i - p.len()]);
                assert(node_gives(g, nodes[k - 1], q[i - p.len()].0));
            }
        }
    }
}

/// Every term listed for an e-node is given by it.
proof fn lemma_node_sound(g: EGraphView, budget: nat, e: ENodeView)
    requires
        budget > 0,
    ensures
        forall|i: int| 0 <= i < node_terms(g, budget, e).len() ==> node_gives(g, e, (#[trigger] node_terms(g, budget, e)[i]).0),
    decreases budget, 0nat, 0nat,
{
    match e {
        ENodeView::App(c, d) => {
            let b1 = (budget - 1) as nat;
            lemma_extract_sound(g, b1, c);
            lemma_extract_sound(g, b1, d);
            let tcs = extract_spec(g, b1, c);
            let tds = extract_spec(g, b1, d);
            lemma_product_from(tcs, tds, budget - 1);
            assert forall|i: int| 0 <= i < node_terms(g, budget, e).len() implies node_gives(g, e, (#[trigger] node_terms(g, budget, e)[i]).0) by {
                let t = node_terms(g, budget, e)[i].0;
                let (x, y) = choose|x: int, y: int| 0 <= x < tcs.len() && 0 <= y < tds.len() && t == Term::App(Box::new(tcs[x].0), Box::new(tds[y].0));
                assert(term_of(g, c, tcs[x].0));
                assert(term_of(g, d, tds[y].0));
                assert(node_gives(g, e, t));
            }
        },
        _ => {},
    }
}

/// Every term of a product is the application of a term of the first list to one of the
/// second.
proof fn lemma_product_from(tcs: Seq<(Term, u64)>, tds: Seq<(Term, u64)>, lim: int)
    ensures
        forall|i: int| 0 <= i < product(tcs, tds, lim).len() ==> exists|x: int, y: int|
            0 <= x < tcs.len() && 0 <= y < tds.len() && (#[trigger] product(tcs, tds, lim)[i]).0 == Term::App(
                Box::new(tcs[x].0),
                Box::new(tds[y].0),
            ),
    decreases tcs.len(),
{
    if tcs.len() > 0 {
        let p = product(tcs.drop_last(), tds, lim);
        let r = row(tcs.last(), tds, lim);
        lemma_product_from(tcs.drop_last(), tds, lim);
        lemma_row_from(tcs.last(), tds, lim);
        assert forall|i: int| 0 <= i < (p + r).len() implies exists|x: int, y: int|
            0 <= x < tcs.len() && 0 <= y < tds.len() && (#[trigger] (p + r)[i]).0 == Term::App(
                Box::new(tcs[x].0),
                Box::new(tds[y].0),
            ) by {
            if i < p.len() {
                assert((p + r)[i] == p[i]);
                let (x, y) = choose|x: int, y: int|
                    0 <= x < tcs.drop_last().len() && 0 <= y < tds.len() && (#[trigger] p[i]).0 == Term::App(
                        Box::new(tcs.drop_last()[x].0),
                        Box::new(tds[y].0),
                    );
                assert(tcs.drop_last()[x] == tcs[x]);
            } else {
                assert((p + r)[i] == r[i - p.len()]);
                let y = choose|y: int| 0 <= y < tds.len() && (#[trigger] r[i - p.len()]).0 == Term::App(
                    Box::new(tcs.last().0),
                    Box::new(tds[y].0),
                );
                assert(tcs[tcs.len() - 1] == tcs.last());
            }
        }
    }
}

/// Every term of a row is the application of its term to one of the list.
proof fn lemma_row_from(tc: (Term, u64), tds: Seq<(Term, u64)>, lim: int)
    ensures
        forall|i: int| 0 <= i < row(tc, tds, lim).len() ==> exists|y: int|
            0 <= y < tds.len() && (#[trigger] row(tc, tds, lim)[i]).0 == Term::App(Box::new(tc.0), Box::new(tds[y].0)),
    decreases tds.len(),
{
    if tds.len() > 0 {
        let rest = row(tc, tds.drop_last(), lim);
        lemma_row_from(tc, tds.drop_last(), lim);
        let r = row(tc, tds, lim);
        assert forall|i: int| 0 <= i < r.len() implies exists|y: int|
            0 <= y < tds.len() && (#[trigger] r[i]).0 == Term::App(Box::new(tc.0), Box::new(tds[y].0)) by {
            if i < rest.len() {
                assert(r[i] == rest[i]);
                let y = choose|y: int| 0 <= y < tds.drop_last().len() && (#[trigger] rest[i]).0 == Term::App(
                    Box::new(tc.0),
                    Box::new(tds.drop_last()[y].0),
                );
                assert(tds.drop_last()[y] == tds[y]);
            } else {
                assert(r[i].0 == Term::App(Box::new(tc.0), Box::new(tds.last().0)));
                assert(tds[tds.len() - 1] == tds.last());
            }
        }
    }
}

/// Every term of the class within the budget is listed, with its number of nodes.
pub proof fn lemma_extract_complete(g: EGraphView, budget: nat, a: AppliedIdView, t: Term)
    requires
        term_of(g, a, t),
        term_nodes(t) <= budget,
        budget <= u64::MAX,
    ensures
        extract_spec(g, budget, a).contains((t, term_nodes(t) as u64)),
    decreases t,
{
    let nodes = g.enodes_spec(a);
    lemma_gives_from(g, nodes, 0, t);
    let j = choose|j: int| 0 <= j < nodes.len() && #[trigger] node_gives(g, nodes[j], t);
    lemma_term_nodes_pos(t);
    let q = node_terms(g, budget, nodes[j]);
    match nodes[j] {
        ENodeView::App(c, d) => {
            match t {
                Term::App(t1, t2) => {
                    let b1 = (budget - 1) as nat;
                    lemma_term_nodes_pos(*t1);
                    lemma_term_nodes_pos(*t2);
                    lemma_extract_complete(g, b1, c, *t1);
                    lemma_extract_complete(g, b1, d, *t2);
                    let tcs = extract_spec(g, b1, c);
                    let tds = extract_spec(g, b1, d);
                    let x = choose|x: int| 0 <= x < tcs.len() && tcs[x] == (*t1, term_nodes(*t1) as u64);
                    let y = choose|y: int| 0 <= y < tds.len() && tds[y] == (*t2, term_nodes(*t2) as u64);
                    lemma_product_has(tcs, tds, budget - 1, x, y);
                    assert(q.contains((t, term_nodes(t) as u64)));
                },
                _ => {},
            }
        },
        _ => {
            assert(q[0] == (t, 1u64));
        },
    }
    lemma_nodes_has(g, budget, nodes, j, (t, term_nodes(t) as u64));
    assert(nodes.subrange(0, nodes.len() as int) =~= nodes);
}

proof fn lemma_term_nodes_pos(t: Term)
    ensures
        term_nodes(t) >= 1,
{
}

/// What an e-node lists is listed for the class.
proof fn lemma_nodes_has(g: EGraphView, budget: nat, nodes: Seq<ENodeView>, j: int, x: (Term, u64))
    requires
        budget > 0,
        0 <= j < nodes.len(),
        node_terms(g, budget, nodes[j]).contains(x),
    ensures
        nodes_terms(g, budget, nodes.subrange(0, nodes.len() as int)).contains(x),
    decreases nodes.len(),
{
    let sub = nodes.subrange(0, nodes.len() as int);
    assert(sub =~= nodes);
    let p = nodes_terms(g, budget, nodes.drop_last());
    let q = node_terms(g, budget, nodes.last());
    assert(nodes_terms(g, budget, nodes) == p + q);
    if j == nodes.len() - 1 {
        let w = choose|w: int| 0 <= w < q.len() && q[w] == x;
        assert((p + q)[p.len() + w] == x);
    } else {
        assert(nodes.drop_last()[j] == nodes[j]);
        lemma_nodes_has(g, budget, nodes.drop_last(), j, x);
        assert(nodes.drop_last().subrange(0, nodes.drop_last().len() as int) =~= nodes.drop_last());
        let w = choose|w: int| 0 <= w < p.len() && p[w] == x;
        assert((p + q)[w] == x);
    }
}

/// A product lists the application of any two terms whose sizes fit.
proof fn lemma_product_has(tcs: Seq<(Term, u64)>, tds: Seq<(Term, u64)>, lim: int, x: int, y: int)
    requires
        0 <= x < tcs.len(),
        0 <= y < tds.len(),
        tcs[x].1 + tds[y].1 <= lim,
    ensures
        product(tcs, tds, lim).contains(
            (Term::App(Box::new(tcs[x].0), Box::new(tds[y].0)), (tcs[x].1 + tds[y].1 + 1) as u64),
        ),
    decreases tcs.len(),
{
    let z = (Term::App(Box::new(tcs[x].0), Box::new(tds[y].0)), (tcs[x].1 + tds[y].1 + 1) as u64);
    let p = product(tcs.drop_last(), tds, lim);
    let r = row(tcs.last(), tds, lim);
    if x == tcs.len() - 1 {
        lemma_row_has(tcs.last(), tds, lim, y);
        let w = choose|w: int| 0 <= w < r.len() && r[w] == z;
        assert((p + r)[p.len() + w] == z);
    } else {
        assert(tcs.drop_last()[x] == tcs[x]);
        lemma_product_has(tcs.drop_last(), tds, lim, x, y);
        let w = choose|w: int| 0 <= w < p.len() && p[w] == z;
        assert((p + r)[w] == z);
    }
}

proof fn lemma_row_has(tc: (Term, u64), tds: Seq<(Term, u64)>, lim: int, y: int)
    requires
        0 <= y < tds.len(),
        tc.1 + tds[y].1 <= lim,
    ensures
        row(tc, tds, lim).contains((Term::App(Box::new(tc.0), Box::new(tds[y].0)), (tc.1 + tds[y].1 + 1) as u64)),
    decreases tds.len(),
{
    let z = (Term::App(Box::new(tc.0), Box::new(tds[y].0)), (tc.1 + tds[y].1 + 1) as u64);
    let rest = row(tc, tds.drop_last(), lim);
    if y == tds.len() - 1 {
        assert(row(tc, tds, lim) == rest.push(z));
        assert(rest.push(z)[rest.len() as int] == z);
    } else {
        assert(tds.drop_last()[y] == tds[y]);
        lemma_row_has(tc, tds.drop_last(), lim, y);
        let w = choose|w: int| 0 <= w < rest.len() && rest[w] == z;
        let r = row(tc, tds, lim);
        if tc.1 + tds.last().1 <= lim {
            assert(r[w] == z);
        } else {
            assert(r[w] == z);
        }
    }
}

/// The terms of at most `budget` nodes that the class of `a` holds, each with its number
/// of nodes.
fn extract_all_lessthansize_aux(g: &EGraphView, budget: u64, a: &AppliedId) -> (r: Vec<(Term, u64)>)
    requires
        g.wf(),
        a.wf(),
        a.id < g.len(),
    ensures
        r@ == extract_spec(*g, budget as nat, a@),
        sizes_within(r@, budget as int),
    decreases budget,
{
    let mut terms: Vec<(Term, u64)> = Vec::new();
    if budget == 0 {
        return terms;
    }
    let nodes = g.enodes_applied(a);
    let ghost views = nodes@.map_values(|e: SimpleLang| node_view(e));
    let mut i: usize = 0;
    while i < nodes.len()
        invariant
            g.wf(),
            budget > 0,
            views == nodes@.map_values(|e: SimpleLang| node_view(e)),
            views == g.enodes_spec(a@),
            forall|j: int| 0 <= j < nodes@.len() ==> node_wf(#[trigger] nodes@[j], g.len()),
            0 <= i <= nodes@.len(),
            terms@ == nodes_terms(*g, budget as nat, views.subrange(0, i as int)),
            sizes_within(terms@, budget as int),
        decreases nodes@.len() - i,
    {
        let ghost before = terms@;
        proof {
            assert(views.subrange(0, i + 1).drop_last() =~= views.subrange(0, i as int));
            assert(views.subrange(0, i + 1).last() == node_view(nodes@[i as int]));
            assert(node_wf(nodes@[i as int], g.len()));
        }
        match &nodes[i] {
            SimpleLang::App(c, d) => {
                let tcs = extract_all_lessthansize_aux(g, budget - 1, c);
                let tds = extract_all_lessthansize_aux(g, budget - 1, d);
                let ghost piece = product(tcs@, tds@, budget - 1);
                let ghost t0 = terms@;
                let mut k: usize = 0;
                while k < tcs.len()
                    invariant
                        budget > 0,
                        sizes_within(tcs@, budget - 1),
                        sizes_within(tds@, budget - 1),
                        0 <= k <= tcs@.len(),
                        terms@ == t0 + product(tcs@.subrange(0, k as int), tds@, budget - 1),
                    decreases tcs@.len() - k,
                {
                    proof {
                        assert(tcs@.subrange(0, k + 1).drop_last() =~= tcs@.subrange(0, k as int));
                        assert(tcs@.subrange(0, k + 1).last() == tcs@[k as int]);
                        assert(1 <= tcs@[k as int].1 <= budget - 1 && tcs@[k as int].1 == term_nodes(tcs@[k as int].0));
                    }
                    terms_row(&tcs[k], &tds, budget - 1, &mut terms);
                    assert(terms@ =~= t0 + product(tcs@.subrange(0, k + 1), tds@, budget - 1));
                    k = k + 1;
                }
                proof {
                    assert(tcs@.subrange(0, k as int) =~= tcs@);
                    lemma_product_sizes(tcs@, tds@, budget - 1);
                    assert(node_terms(*g, budget as nat, node_view(nodes@[i as int])) == piece);
                }
            },
            SimpleLang::Var(x) => {
                terms.push((Term::Var(*x), 1));
            },
            SimpleLang::Symbol(f) => {
                terms.push((Term::Symbol(*f), 1));
            },
            SimpleLang::Number(k) => {
                terms.push((Term::Number(*k), 1));
            },
        }
        proof {
            let sub = views.subrange(0, i + 1);
            assert(sub.len() == i + 1);
            assert(nodes_terms(*g, budget as nat, sub) == nodes_terms(*g, budget as nat, sub.drop_last())
                + node_terms(*g, budget as nat, sub.last()));
            assert(terms@ =~= nodes_terms(*g, budget as nat, views.subrange(0, i + 1)));
            assert forall|j: int| 0 <= j < terms@.len() implies 1 <= (#[trigger] terms@[j]).1 <= budget
                && terms@[j].1 == term_nodes(terms@[j].0) by {
                if j < before.len() {
                    assert(terms@[j] == before[j]);
                }
            }
        }
        i = i + 1;
    }
    assert(views.subrange(0, i as int) =~= views);
    terms
}

/// The terms of at most `max` nodes that the class of `a` holds now, in the order of
/// `extract_spec`.
pub fn extract_all_lessthansize(g: &EGraphView, max: u64, a: &AppliedId) -> (r: Vec<Term>)
    requires
        g.wf(),
        a.wf(),
        a.id < g.len(),
    ensures
        r@ == extract_spec(*g, max as nat, g.find_spec(a@)).map_values(|p: (Term, u64)| p.0),
{
    let a = g.find_applied_id(a);
    let ts = extract_all_lessthansize_aux(g, max, &a);
    let mut out: Vec<Term> = Vec::new();
    let mut i: usize = 0;
    while i < ts.len()
        invariant
            0 <= i <= ts@.len(),
            out@ == ts@.subrange(0, i as int).map_values(|p: (Term, u64)| p.0),
        decreases ts@.len() - i,
    {
        out.push(copy_term(&ts[i].0));
        assert(out@ =~= ts@.subrange(0, i + 1).map_values(|p: (Term, u64)| p.0));
        i = i + 1;
    }
    assert(ts@.subrange(0, i as int) =~= ts@);
    out
}

/// The results of unifying `t` with each term of `us` in turn, where it succeeds.
pub open spec fn row_mgus(t: Term, us: Seq<Term>) -> Seq<Bindings>
    decreases us.len(),
{
    if us.len() == 0 {
        Seq::empty()
    } else {
        let r = row_mgus(t, us.drop_last());
        match mgu_of(t, us.last()) {
            Some(m) => r.push(m),
            None => r,
        }
    }
}

/// The results of unifying each term of `ts`, in turn, with each term of `us`.
pub open spec fn pairs_mgus(ts: Seq<Term>, us: Seq<Term>) -> Seq<Bindings>
    decreases ts.len(),
{
    if ts.len() == 0 {
        Seq::empty()
    } else {
        pairs_mgus(ts.drop_last(), us) + row_mgus(ts.last(), us)
    }
}

/// The bindings of each list.
pub open spec fn bindings_view(r: Seq<Vec<(Slot, Term)>>) -> Seq<Bindings> {
    r.map_values(|v: Vec<(Slot, Term)>| v@)
}

/// The bindings unify some term of `ts` with some term of `us`.
pub open spec fn unifies_a_pair(mu: Seq<(Slot, Term)>, ts: Seq<Term>, us: Seq<Term>) -> bool {
    exists|i: int, j: int| 0 <= i < ts.len() && 0 <= j < us.len() && unifies(mu, ts[i], us[j])
}

/// The bindings that unify a term of `a_terms` with a term of `b_terms`, for each pair
/// in turn (the terms of `a_terms` outermost) on which unification succeeds, as
/// `compute_mgu_terms` gives them. Each list of bindings is acyclic and makes the two
/// terms of its pair equal once resolved; a pair of equal terms gives the empty list.
pub fn unify_pairs(a_terms: &Vec<Term>, b_terms: &Vec<Term>) -> (r: Vec<Vec<(Slot, Term)>>)
    ensures
        bindings_view(r@) == pairs_mgus(a_terms@, b_terms@),
        r@.len() <= a_terms@.len() * b_terms@.len(),
        forall|k: int| 0 <= k < r@.len() ==> unifies_a_pair((#[trigger] r@[k])@, a_terms@, b_terms@),
        (exists|i: int, j: int|
            0 <= i < a_terms@.len() && 0 <= j < b_terms@.len() && a_terms@[i] == b_terms@[j])
            ==> exists|k: int| 0 <= k < r@.len() && (#[trigger] r@[k])@.len() == 0,
{
    let mut out: Vec<Vec<(Slot, Term)>> = Vec::new();
    let ghost mut origin: Seq<(int, int)> = Seq::empty();
    let ghost mut empty_at: int = -1;
    let mut i: usize = 0;
    while i < a_terms.len()
        invariant
            0 <= i <= a_terms@.len(),
            out@.len() <= i * b_terms@.len(),
            bindings_view(out@) == pairs_mgus(a_terms@.subrange(0, i as int), b_terms@),
            origin.len() == out@.len(),
            forall|k: int|
                0 <= k < out@.len() ==> 0 <= (#[trigger] origin[k]).0 < a_terms@.len() && 0 <= origin[k].1
                    < b_terms@.len() && unifies(out@[k]@, a_terms@[origin[k].0], b_terms@[origin[k].1]),
            empty_at >= 0 ==> empty_at < out@.len() && out@[empty_at]@.len() == 0,
            (exists|p: int, q: int|
                0 <= p < i && 0 <= q < b_terms@.len() && a_terms@[p] == b_terms@[q]) ==> empty_at >= 0,
        decreases a_terms@.len() - i,
    {
        let mut j: usize = 0;
        while j < b_terms.len()
            invariant
                0 <= i < a_terms@.len(),
                0 <= j <= b_terms@.len(),
                out@.len() <= i * b_terms@.len() + j,
                bindings_view(out@) == pairs_mgus(a_terms@.subrange(0, i as int), b_terms@) + row_mgus(
                    a_terms@[i as int],
                    b_terms@.subrange(0, j as int),
                ),
                origin.len() == out@.len(),
                forall|k: int|
                    0 <= k < out@.len() ==> 0 <= (#[trigger] origin[k]).0 < a_terms@.len() && 0
                        <= origin[k].1 < b_terms@.len() && unifies(
                        out@[k]@,
                        a_terms@[origin[k].0],
                        b_terms@[origin[k].1],
                    ),
                empty_at >= 0 ==> empty_at < out@.len() && out@[empty_at]@.len() == 0,
                (exists|p: int, q: int|
                    ((0 <= p < i && 0 <= q < b_terms@.len()) || (p == i && 0 <= q < j))
                        && a_terms@[p] == b_terms@[q]) ==> empty_at >= 0,
            decreases b_terms@.len() - j,
        {
            let ghost before = out@;
            proof {
                let bs = b_terms@.subrange(0, j + 1);
                assert(bs.drop_last() =~= b_terms@.subrange(0, j as int));
                assert(bs.last() == b_terms@[j as int]);
            }
            match compute_mgu_terms(&a_terms[i], &b_terms[j]) {
                Some(mu) => {
                    let ghost mv = mu@;
                    out.push(mu);
                    proof {
                        let bs = b_terms@.subrange(0, j + 1);
                        assert(row_mgus(a_terms@[i as int], bs) == row_mgus(
                            a_terms@[i as int],
                            b_terms@.subrange(0, j as int),
                        ).push(mv));
                        assert(bindings_view(out@) =~= bindings_view(before).push(mv));
                        origin = origin.push((i as int, j as int));
                        assert forall|k: int| 0 <= k < out@.len() implies 0 <= (#[trigger] origin[k]).0
                            < a_terms@.len() && 0 <= origin[k].1 < b_terms@.len() && unifies(
                            out@[k]@,
                            a_terms@[origin[k].0],
                            b_terms@[origin[k].1],
                        ) by {
                            if k < before.len() {
                                assert(out@[k] == before[k]);
                            }
                        }
                        if empty_at >= 0 {
                            assert(out@[empty_at] == before[empty_at]);
                        } else if a_terms@[i as int] == b_terms@[j as int] {
                            empty_at = before.len() as int;
                        }
                    }
                },
                None => {
                    assert(a_terms@[i as int] != b_terms@[j as int]);
                    assert(row_mgus(a_terms@[i as int], b_terms@.subrange(0, j + 1)) == row_mgus(
                        a_terms@[i as int],
                        b_terms@.subrange(0, j as int),
                    ));
                },
            }
            proof {
                let pre = pairs_mgus(a_terms@.subrange(0, i as int), b_terms@);
                assert(bindings_view(out@) =~= pre + row_mgus(a_terms@[i as int], b_terms@.subrange(0, j + 1)));
            }
            proof {
                assert(i * b_terms@.len() + j + 1 <= i * b_terms@.len() + b_terms@.len());
                if empty_at < 0 {
                    assert forall|p: int, q: int|
                        ((0 <= p < i && 0 <= q < b_terms@.len()) || (p == i && 0 <= q < j + 1))
                            implies a_terms@[p] != b_terms@[q] by {
                    }
                }
            }
            j = j + 1;
        }
        proof {
            assert(i * b_terms@.len() + b_terms@.len() == (i + 1) * b_terms@.len()) by (nonlinear_arith);
            let ts = a_terms@.subrange(0, i + 1);
            assert(ts.drop_last() =~= a_terms@.subrange(0, i as int));
            assert(ts.last() == a_terms@[i as int]);
            assert(b_terms@.subrange(0, j as int) =~= b_terms@);
        }
        i = i + 1;
    }
    proof {
        assert(a_terms@.subrange(0, i as int) =~= a_terms@);
        assert(i * b_terms@.len() <= a_terms@.len() * b_terms@.len()) by (nonlinear_arith)
            requires
                i <= a_terms@.len(),
        ;
        assert forall|k: int| 0 <= k < out@.len() implies unifies_a_pair(
            (#[trigger] out@[k])@,
            a_terms@,
            b_terms@,
        ) by {
            let (p, q) = origin[k];
            assert(unifies(out@[k]@, a_terms@[p], b_terms@[q]));
        }
    }
    out
}

} // verus!
