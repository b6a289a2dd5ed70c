use vstd::prelude::*;
use crate::slots::{Id, Slot, SlotMap, AppliedId, compose_partial_map};
use crate::analysis::{SimpleLang, SymbolSet, Sym};
use crate::unifier::AppliedIdView;
use crate::renaming::{rename, renamed_aid, rename_slot, renamed_applied_id};

verus! {

/// An e-node with its children taken by their views.
pub enum ENodeView {
    App(AppliedIdView, AppliedIdView),
    Var(Slot),
    Symbol(Sym),
    Number(u32),
}

pub open spec fn node_view(n: SimpleLang) -> ENodeView {
    match n {
        SimpleLang::App(a, b) => ENodeView::App(a@, b@),
        SimpleLang::Var(x) => ENodeView::Var(x),
        SimpleLang::Symbol(g) => ENodeView::Symbol(g),
        SimpleLang::Number(k) => ENodeView::Number(k),
    }
}

/// The children of the e-node are well formed and name classes below `n`.
pub open spec fn node_wf(e: SimpleLang, n: nat) -> bool {
    match e {
        SimpleLang::App(a, b) => a.wf() && b.wf() && a.id < n && b.id < n,
        _ => true,
    }
}

/// An e-node with its slots renamed by `r`; slots outside `r` stay as they are.
pub open spec fn renamed_node(e: ENodeView, r: Map<Slot, Slot>) -> ENodeView {
    match e {
        ENodeView::App(a, b) => ENodeView::App(renamed_aid(a, r), renamed_aid(b, r)),
        ENodeView::Var(x) => ENodeView::Var(rename(r, x)),
        _ => e,
    }
}

/// The e-node with its slots renamed by `r`.
pub fn rename_node(e: &SimpleLang, r: &SlotMap, Ghost(n): Ghost<nat>) -> (out: SimpleLang)
    requires
        node_wf(*e, n),
        r.wf(),
    ensures
        node_wf(out, n),
        node_view(out) == renamed_node(node_view(*e), r@),
{
    match e {
        SimpleLang::App(a, b) => SimpleLang::App(renamed_applied_id(a, r), renamed_applied_id(b, r)),
        SimpleLang::Var(x) => SimpleLang::Var(rename_slot(r, *x)),
        SimpleLang::Symbol(g) => SimpleLang::Symbol(*g),
        SimpleLang::Number(k) => SimpleLang::Number(*k),
    }
}

/// One e-class of a snapshot of an e-graph, standing at the index of its id.
pub struct ClassView {
    /// The union-find entry: the class that this id belongs to now, with the slots of
    /// that class mapped to those of this one.
    pub leader: AppliedId,
    /// The slots of the class.
    pub slots: Vec<Slot>,
    /// The e-nodes of the class, listed over its own slots. A slot of an e-node that is
    /// not one of the class's slots is private to that e-node, drawn fresh when the
    /// snapshot was taken, and so is none of the slots of any applied id at that time.
    pub nodes: Vec<SimpleLang>,
    /// The size of the smallest term of the class without applications.
    pub size: u64,
    /// The function symbols of the class.
    pub symbols: SymbolSet,
}

/// A snapshot of an e-graph: its classes, indexed by id, dead ones included.
pub struct EGraphView {
    pub classes: Vec<ClassView>,
}

impl EGraphView {
    pub open spec fn len(&self) -> nat {
        self.classes@.len()
    }

    /// Every union-find entry leads, in one step, to a class that leads to itself; the
    /// e-nodes and analysis data are well formed.
    pub open spec fn wf(&self) -> bool {
        forall|i: int|
            0 <= i < self.classes@.len() ==> {
                let c = #[trigger] self.classes@[i];
                &&& c.leader.wf()
                &&& c.leader.id < self.classes@.len()
                &&& self.classes@[c.leader.id as int].leader.id == c.leader.id
                &&& c.symbols.wf()
                &&& forall|j: int| 0 <= j < c.nodes@.len() ==> node_wf(#[trigger] c.nodes@[j], self.len())
            }
    }

    /// The canonical form of `a`: its class now, with `a`'s slots carried over.
    pub open spec fn find_spec(&self, a: AppliedIdView) -> AppliedIdView {
        let l = self.classes@[a.0 as int].leader@;
        (l.0, compose_partial_map(l.1, a.1))
    }

    /// The class that `i` belongs to now.
    pub open spec fn find_id_spec(&self, i: Id) -> Id {
        self.classes@[i as int].leader.id
    }

    /// The e-nodes of class `a.0`, with the class's slots renamed by `a`.
    pub open spec fn enodes_spec(&self, a: AppliedIdView) -> Seq<ENodeView> {
        self.classes@[a.0 as int].nodes@.map_values(|e: SimpleLang| renamed_node(node_view(e), a.1))
    }

    /// The function symbols of class `i`.
    pub open spec fn symbols_spec(&self, i: Id) -> Set<Sym> {
        self.classes@[i as int].symbols@
    }

    /// The class of `a` now, with `a`'s slots carried over.
    pub fn find_applied_id(&self, a: &AppliedId) -> (r: AppliedId)
        requires
            self.wf(),
            a.wf(),
            a.id < self.len(),
        ensures
            r.wf(),
            r.id < self.len(),
            r@ == self.find_spec(a@),
            self.find_id_spec(r.id) == r.id,
    {
        let l = &self.classes[a.id].leader;
        proof {
            assert(self.classes@[a.id as int].leader.wf());
        }
        AppliedId::new(l.id, l.m.compose_partial(&a.m))
    }

    /// The class that `i` belongs to now.
    pub fn find_id(&self, i: Id) -> (r: Id)
        requires
            self.wf(),
            i < self.len(),
        ensures
            r == self.find_id_spec(i),
            r < self.len(),
            self.find_id_spec(r) == r,
    {
        self.classes[i].leader.id
    }

    /// Whether class `i` has no slots.
    pub fn slots_empty(&self, i: Id) -> (r: bool)
        requires
            i < self.len(),
        ensures
            r == (self.classes@[i as int].slots@.len() == 0),
    {
        self.classes[i].slots.len() == 0
    }

    /// The function symbols of class `i`.
    pub fn symbols(&self, i: Id) -> (r: &SymbolSet)
        requires
            self.wf(),
            i < self.len(),
        ensures
            r.wf(),
            r@ == self.symbols_spec(i),
    {
        &self.classes[i].symbols
    }

    /// The e-nodes of the class of `a`, with the class's slots renamed by `a`.
    pub fn enodes_applied(&self, a: &AppliedId) -> (r: Vec<SimpleLang>)
        requires
            self.wf(),
            a.wf(),
            a.id < self.len(),
        ensures
            r@.map_values(|e: SimpleLang| node_view(e)) == self.enodes_spec(a@),
            forall|j: int| 0 <= j < r@.len() ==> node_wf(#[trigger] r@[j], self.len()),
    {
        let nodes = &self.classes[a.id].nodes;
        let ghost c = self.classes@[a.id as int];
        let mut out: Vec<SimpleLang> = Vec::new();
        let mut i: usize = 0;
        while i < nodes.len()
            invariant
                self.wf(),
                a.wf(),
                a.id < self.len(),
                c == self.classes@[a.id as int],
                nodes@ == c.nodes@,
                0 <= i <= nodes@.len(),
                out@.len() == i,
                forall|j: int| 0 <= j < i ==> node_view(#[trigger] out@[j]) == renamed_node(
                    node_view(nodes@[j]),
                    a.m@,
                ),
                forall|j: int| 0 <= j < i ==> node_wf(#[trigger] out@[j], self.len()),
            decreases nodes@.len() - i,
        {
            proof {
                assert(node_wf(c.nodes@[i as int], self.len()));
            }
            let e = rename_node(&nodes[i], &a.m, Ghost(self.len()));
            out.push(e);
            i = i + 1;
        }
        assert(out@.map_values(|e: SimpleLang| node_view(e)) =~= self.enodes_spec(a@));
        out
    }
}

/// A table keyed by pairs of class ids.
pub struct PairTable<V> {
    pub entries: Vec<(Id, Id, V)>,
}

/// Some entry of `s` has the key `k`.
pub open spec fn pair_has<V>(s: Seq<(Id, Id, V)>, k: (Id, Id)) -> bool {
    exists|i: int| 0 <= i < s.len() && #[trigger] s[i].0 == k.0 && s[i].1 == k.1
}

impl<V> View for PairTable<V> {
    type V = Map<(Id, Id), V>;

    open spec fn view(&self) -> Map<(Id, Id), V> {
        Map::new(
            |k: (Id, Id)| pair_has(self.entries@, k),
            |k: (Id, Id)|
                self.entries@[choose|i: int|
                    0 <= i < self.entries@.len() && #[trigger] self.entries@[i].0 == k.0
                        && self.entries@[i].1 == k.1].2,
        )
    }
}

impl<V> PairTable<V> {
    /// Both ids of every key are below `n`.
    pub open spec fn keys_below(&self, n: nat) -> bool {
        forall|q: int| 0 <= q < self.entries@.len() ==> #[trigger] self.entries@[q].0 < n && self.entries@[q].1 < n
    }

    /// A table whose keys are distinct pairs of ids below `n` has at most `n * n`
    /// entries.
    pub proof fn lemma_len_bound(&self, n: nat)
        requires
            self.wf(),
            self.keys_below(n),
        ensures
            self.entries@.len() <= n * n,
    {
        let s = self.entries@;
        let ks = s.map_values(|e: (Id, Id, V)| (e.0 as int) * (n as int) + (e.1 as int));
        assert(ks.no_duplicates()) by {
            assert forall|p: int, q: int| 0 <= p < ks.len() && 0 <= q < ks.len() && p != q implies ks[p]
                != ks[q] by {
                let (a, b, c, d) = (s[p].0 as int, s[p].1 as int, s[q].0 as int, s[q].1 as int);
                assert(s[p].0 < n && s[p].1 < n);
                assert(s[q].0 < n && s[q].1 < n);
                if p < q {
                    assert(!(s[p].0 == s[q].0 && s[p].1 == s[q].1));
                } else {
                    assert(!(s[q].0 == s[p].0 && s[q].1 == s[p].1));
                }
                if a * n + b == c * n + d {
                    assert(a == c && b == d) by (nonlinear_arith)
                        requires
                            a * n + b == c * n + d,
                            0 <= b < n,
                            0 <= d < n,
                            0 <= a,
                            0 <= c,
                    ;
                }
            }
        }
        ks.unique_seq_to_set();
        let range = vstd::set_lib::set_int_range(0, (n * n) as int);
        assert(ks.to_set().subset_of(range)) by {
            assert forall|x: int| ks.to_set().contains(x) implies range.contains(x) by {
                let p = choose|p: int| 0 <= p < ks.len() && ks[p] == x;
                let (a, b) = (s[p].0 as int, s[p].1 as int);
                assert(s[p].0 < n && s[p].1 < n);
                assert(0 <= a * n + b < n * n) by (nonlinear_arith)
                    requires
                        0 <= a < n,
                        0 <= b < n,
                ;
            }
        }
        vstd::set_lib::lemma_int_range(0, (n * n) as int);
        vstd::set_lib::lemma_len_subset(ks.to_set(), range);
    }

    /// Each key occurs once.
    pub open spec fn wf(&self) -> bool {
        forall|i: int, j: int|
            0 <= i < j < self.entries@.len() ==> !(#[trigger] self.entries@[i].0 == #[trigger] self.entries@[j].0
                && self.entries@[i].1 == self.entries@[j].1)
    }

    pub fn new() -> (r: PairTable<V>)
        ensures
            r.wf(),
            r@ == Map::<(Id, Id), V>::empty(),
    {
        let r = PairTable { entries: Vec::new() };
        assert(r@ =~= Map::<(Id, Id), V>::empty());
        r
    }

    /// The position of the entry with key `(i, j)`.
    fn position(&self, i: Id, j: Id) -> (r: Option<usize>)
        requires
            self.wf(),
        ensures
            match r {
                Some(p) => p < self.entries@.len() && self.entries@[p as int].0 == i
                    && self.entries@[p as int].1 == j && self@.contains_key((i, j)) && self@[(i, j)]
                    == self.entries@[p as int].2,
                None => !self@.contains_key((i, j)),
            },
    {
        let mut p: usize = 0;
        while p < self.entries.len()
            invariant
                self.wf(),
                0 <= p <= self.entries@.len(),
                forall|q: int|
                    0 <= q < p ==> !(#[trigger] self.entries@[q].0 == i && self.entries@[q].1 == j),
            decreases self.entries@.len() - p,
        {
            if self.entries[p].0 == i && self.entries[p].1 == j {
                proof {
                    assert(pair_has(self.entries@, (i, j)));
                    let q = choose|q: int|
                        0 <= q < self.entries@.len() && #[trigger] self.entries@[q].0 == i
                            && self.entries@[q].1 == j;
                    if q < p {
                    } else if q > p {
                        assert(!(self.entries@[p as int].0 == self.entries@[q].0
                            && self.entries@[p as int].1 == self.entries@[q].1));
                    }
                }
                return Some(p);
            }
            p = p + 1;
        }
        None
    }

    /// What the table holds for the pair `(i, j)`, if anything.
    pub fn get(&self, i: Id, j: Id) -> (r: Option<&V>)
        requires
            self.wf(),
        ensures
            r is Some <==> self@.contains_key((i, j)),
            r matches Some(v) ==> *v == self@[(i, j)],
    {
        match self.position(i, j) {
            Some(p) => Some(&self.entries[p].2),
            None => None,
        }
    }

    /// Records `v` for the pair `(i, j)`, replacing what the table held for it.
    pub fn insert(&mut self, i: Id, j: Id, v: V)
        requires
            old(self).wf(),
        ensures
            final(self).wf(),
            final(self)@ == old(self)@.insert((i, j), v),
            final(self).entries@.len() == old(self).entries@.len() + (if old(self)@.contains_key((i, j)) {
                0int
            } else {
                1int
            }),
            forall|q: int|
                0 <= q < final(self).entries@.len() ==> (#[trigger] final(self).entries@[q].0 == i
                    && final(self).entries@[q].1 == j) || (exists|p: int|
                    0 <= p < old(self).entries@.len() && #[trigger] old(self).entries@[p].0 == final(self).entries@[q].0
                        && old(self).entries@[p].1 == final(self).entries@[q].1),
    {
        let ghost before = self.entries@;
        let ghost m0 = self@;
        match self.position(i, j) {
            Some(p) => {
                self.entries.set(p, (i, j, v));
                proof {
                    let s = self.entries@;
                    assert forall|a: int, b: int|
                        0 <= a < b < s.len() implies !(#[trigger] s[a].0 == #[trigger] s[b].0 && s[a].1
                        == s[b].1) by {
                        assert(!(before[a].0 == before[b].0 && before[a].1 == before[b].1));
                    }
                    assert forall|k: (Id, Id)| #[trigger] pair_has(s, k) == pair_has(before, k) by {
                        if pair_has(s, k) {
                            let q = choose|q: int| 0 <= q < s.len() && #[trigger] s[q].0 == k.0 && s[q].1 == k.1;
                            assert(before[q].0 == k.0);
                        }
                        if pair_has(before, k) {
                            let q = choose|q: int|
                                0 <= q < before.len() && #[trigger] before[q].0 == k.0 && before[q].1 == k.1;
                            assert(s[q].0 == k.0);
                        }
                    }
                    assert forall|k: (Id, Id)| #[trigger] self@.contains_key(k) implies self@[k] == m0.insert(
                        (i, j),
                        v,
                    )[k] by {
                        let q = choose|q: int| 0 <= q < s.len() && #[trigger] s[q].0 == k.0 && s[q].1 == k.1;
                        if k != (i, j) {
                            let q0 = choose|q: int|
                                0 <= q < before.len() && #[trigger] before[q].0 == k.0 && before[q].1 == k.1;
                            if q != q0 {
                                if q < q0 {
                                    assert(!(before[q].0 == before[q0].0 && before[q].1 == before[q0].1));
                                } else {
                                    assert(!(before[q0].0 == before[q].0 && before[q0].1 == before[q].1));
                                }
                            }
                        } else if q != p as int {
                            if q < p as int {
                                assert(!(s[q].0 == s[p as int].0 && s[q].1 == s[p as int].1));
                            } else {
                                assert(!(s[p as int].0 == s[q].0 && s[p as int].1 == s[q].1));
                            }
                        }
                    }
                    assert(self@ =~= m0.insert((i, j), v));
                }
            },
            None => {
                self.entries.push((i, j, v));
                proof {
                    let s = self.entries@;
                    let n = before.len() as int;
                    assert(s[n] == (i, j, v));
                    assert forall|a: int, b: int|
                        0 <= a < b < s.len() implies !(#[trigger] s[a].0 == #[trigger] s[b].0 && s[a].1
                        == s[b].1) by {
                        if b < n {
                            assert(!(before[a].0 == before[b].0 && before[a].1 == before[b].1));
                        } else {
                            assert(s[a] == before[a]);
                            if s[a].0 == i && s[a].1 == j {
                                assert(pair_has(before, (i, j)));
                            }
                        }
                    }
                    assert forall|k: (Id, Id)| #[trigger] pair_has(s, k) == (pair_has(before, k) || k == (i, j)) by {
                        if pair_has(s, k) {
                            let q = choose|q: int| 0 <= q < s.len() && #[trigger] s[q].0 == k.0 && s[q].1 == k.1;
                            if q < n {
                                assert(before[q].0 == k.0);
                            }
                        }
                        if pair_has(before, k) {
                            let q = choose|q: int|
                                0 <= q < before.len() && #[trigger] before[q].0 == k.0 && before[q].1 == k.1;
                            assert(s[q].0 == k.0);
                        }
                        if k == (i, j) {
                            assert(s[n].0 == k.0);
                        }
                    }
                    assert forall|k: (Id, Id)| #[trigger] self@.contains_key(k) implies self@[k] == m0.insert(
                        (i, j),
                        v,
                    )[k] by {
                        let q = choose|q: int| 0 <= q < s.len() && #[trigger] s[q].0 == k.0 && s[q].1 == k.1;
                        if k != (i, j) {
                            let q0 = choose|q: int|
                                0 <= q < before.len() && #[trigger] before[q].0 == k.0 && before[q].1 == k.1;
                            assert(s[q0] == before[q0]);
                            if q != q0 {
                                if q < q0 {
                                    assert(!(s[q].0 == s[q0].0 && s[q].1 == s[q0].1));
                                } else {
                                    assert(!(s[q0].0 == s[q].0 && s[q0].1 == s[q].1));
                                }
                            }
                        } else if q != n {
                            assert(!(s[q].0 == s[n].0 && s[q].1 == s[n].1));
                        }
                    }
                    assert(self@ =~= m0.insert((i, j), v));
                }
            },
        }
    }
}

} // verus!
