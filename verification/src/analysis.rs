use vstd::prelude::*;
use crate::slots::{AppliedId, Slot};

verus! {

/// The number of an interned function symbol.
pub type Sym = u32;

/// An e-node of the applicative language: binary application, a variable, a function
/// symbol, or a number.
pub enum SimpleLang {
    App(AppliedId, AppliedId),
    Var(Slot),
    Symbol(Sym),
    Number(u32),
}

/// The number of e-class children of an e-node.
pub open spec fn arity(n: SimpleLang) -> nat {
    match n {
        SimpleLang::App(_, _) => 2,
        _ => 0,
    }
}

/// The sum of a sequence of sizes.
pub open spec fn sum(s: Seq<u64>) -> int
    decreases s.len(),
{
    if s.len() == 0 {
        0
    } else {
        sum(s.drop_last()) + s.last()
    }
}

/// `x` cut off at the largest `u64`.
pub open spec fn saturate(x: int) -> u64 {
    if x > u64::MAX {
        u64::MAX
    } else {
        x as u64
    }
}

/// The size a node adds itself: application nodes are not counted.
pub open spec fn own_size_no_app(n: SimpleLang) -> int {
    match n {
        SimpleLang::App(_, _) => 0,
        _ => 1,
    }
}

pub open spec fn min_u64(a: u64, b: u64) -> u64 {
    if a <= b {
        a
    } else {
        b
    }
}

proof fn lemma_sum_nonneg(s: Seq<u64>)
    ensures
        sum(s) >= 0,
    decreases s.len(),
{
    if s.len() > 0 {
        lemma_sum_nonneg(s.drop_last());
    }
}

/// `base` plus the sizes, each addition saturating at the largest `u64`.
fn saturating_total(base: u64, sizes: &Vec<u64>) -> (r: u64)
    ensures
        r == saturate(base + sum(sizes@)),
{
    let mut s: u64 = base;
    let mut i: usize = 0;
    while i < sizes.len()
        invariant
            0 <= i <= sizes@.len(),
            s == saturate(base + sum(sizes@.subrange(0, i as int))),
        decreases sizes@.len() - i,
    {
        proof {
            let p = sizes@.subrange(0, i + 1);
            assert(p.drop_last() =~= sizes@.subrange(0, i as int));
            lemma_sum_nonneg(sizes@.subrange(0, i as int));
        }
        s = s.saturating_add(sizes[i]);
        i = i + 1;
    }
    assert(sizes@.subrange(0, i as int) =~= sizes@);
    s
}

/// Term size: every node counts one, children by their smallest term.
#[derive(Default)]
pub struct AstSizeAnalysis;

impl AstSizeAnalysis {
    /// The size of a node whose children have the given sizes.
    pub fn make(child_sizes: &Vec<u64>) -> (r: u64)
        ensures
            r == saturate(1 + sum(child_sizes@)),
    {
        saturating_total(1, child_sizes)
    }

    /// Two equal classes: the smaller size.
    pub fn merge(l: u64, r: u64) -> (out: u64)
        ensures
            out == min_u64(l, r),
    {
        if l <= r {
            l
        } else {
            r
        }
    }
}

/// Merging sizes takes the minimum, which is a semilattice join: commutative,
/// associative, idempotent, and never above either side.
pub proof fn lemma_size_merge_semilattice(a: u64, b: u64, c: u64)
    ensures
        min_u64(a, b) == min_u64(b, a),
        min_u64(min_u64(a, b), c) == min_u64(a, min_u64(b, c)),
        min_u64(a, a) == a,
        min_u64(a, b) <= a && min_u64(a, b) <= b,
{
}

/// A node is never smaller than one of its children, and counts one more than their sum
/// unless the sum saturates.
pub proof fn lemma_ast_size_grows(child_sizes: Seq<u64>)
    ensures
        forall|i: int| 0 <= i < child_sizes.len() ==> child_sizes[i] <= #[trigger] saturate(1 + sum(child_sizes)),
        1 + sum(child_sizes) <= u64::MAX ==> saturate(1 + sum(child_sizes)) == 1 + sum(child_sizes),
    decreases child_sizes.len(),
{
    if child_sizes.len() > 0 {
        lemma_ast_size_grows(child_sizes.drop_last());
        lemma_sum_nonneg(child_sizes.drop_last());
        assert forall|i: int| 0 <= i < child_sizes.len() implies child_sizes[i] <= #[trigger] saturate(
            1 + sum(child_sizes),
        ) by {
            if i < child_sizes.len() - 1 {
                assert(child_sizes.drop_last()[i] == child_sizes[i]);
                assert(child_sizes[i] <= saturate(1 + sum(child_sizes.drop_last())));
            }
        }
    }
}

/// Term size where application nodes do not count.
#[derive(Default)]
pub struct SizeAnalysisNoApp;

impl SizeAnalysisNoApp {
    /// The size of `enode` whose children (in order) have the given sizes.
    pub fn make(enode: &SimpleLang, child_sizes: &Vec<u64>) -> (r: u64)
        requires
            child_sizes@.len() == arity(*enode),
        ensures
            r == saturate(own_size_no_app(*enode) + sum(child_sizes@)),
    {
        let base: u64 = match enode {
            SimpleLang::App(_, _) => 0,
            _ => 1,
        };
        saturating_total(base, child_sizes)
    }

    pub fn merge(l: u64, r: u64) -> (out: u64)
        ensures
            out == min_u64(l, r),
    {
        if l <= r {
            l
        } else {
            r
        }
    }
}

/// The cost of a term: its size without application nodes.
#[derive(Default)]
pub struct AstSizeCostNoApp;

impl AstSizeCostNoApp {
    /// The cost of `enode` whose children (in order) cost the given amounts.
    pub fn cost(&self, enode: &SimpleLang, child_costs: &Vec<u64>) -> (r: u64)
        requires
            child_costs@.len() == arity(*enode),
        ensures
            r == saturate(own_size_no_app(*enode) + sum(child_costs@)),
    {
        SizeAnalysisNoApp::make(enode, child_costs)
    }
}

/// Whether a candidate node `f c1 ... cn`, whose children have the given sizes, stays
/// within the size bound `max` (the symbol counts one, application nodes nothing).
pub fn candidate_fits(child_sizes: &Vec<u64>, max: u64) -> (r: bool)
    requires
        1 + sum(child_sizes@) <= u64::MAX,
    ensures
        r == (1 + sum(child_sizes@) <= max),
{
    proof {
        lemma_sum_nonneg(child_sizes@);
    }
    saturating_total(1, child_sizes) <= max
}

/// A finite set of symbols, kept as a list without repetitions.
pub struct SymbolSet {
    pub items: Vec<Sym>,
}

impl View for SymbolSet {
    type V = Set<Sym>;

    open spec fn view(&self) -> Set<Sym> {
        self.items@.to_set()
    }
}

impl SymbolSet {
    pub open spec fn wf(&self) -> bool {
        self.items@.no_duplicates()
    }

    pub fn new() -> (r: SymbolSet)
        ensures
            r.wf(),
            r@ == Set::<Sym>::empty(),
    {
        let r = SymbolSet { items: Vec::new() };
        assert(r@ =~= Set::<Sym>::empty());
        r
    }

    pub fn singleton(g: Sym) -> (r: SymbolSet)
        ensures
            r.wf(),
            r@ == Set::<Sym>::empty().insert(g),
    {
        let mut v: Vec<Sym> = Vec::new();
        v.push(g);
        let r = SymbolSet { items: v };
        assert(r.items@ =~= Seq::<Sym>::empty().push(g));
        proof {
            Seq::<Sym>::empty().lemma_push_to_set_commute(g);
            assert(Seq::<Sym>::empty().to_set() =~= Set::<Sym>::empty());
        }
        r
    }

    pub fn contains(&self, g: Sym) -> (r: bool)
        ensures
            r == self@.contains(g),
    {
        let mut i: usize = 0;
        while i < self.items.len()
            invariant
                0 <= i <= self.items@.len(),
                forall|j: int| 0 <= j < i ==> self.items@[j] != g,
            decreases self.items@.len() - i,
        {
            if self.items[i] == g {
                assert(self.items@[i as int] == g);
                return true;
            }
            i = i + 1;
        }
        false
    }

    /// Adds `g` unless it is there already.
    pub fn insert(&mut self, g: Sym)
        requires
            old(self).wf(),
        ensures
            final(self).wf(),
            final(self)@ == old(self)@.insert(g),
    {
        if !self.contains(g) {
            let ghost before = self.items@;
            self.items.push(g);
            assert(self.items@ =~= before.push(g));
            proof {
                before.lemma_push_to_set_commute(g);
            }
        } else {
            assert(self@.insert(g) =~= self@);
        }
    }

    pub fn duplicate(&self) -> (r: SymbolSet)
        ensures
            r.items@ == self.items@,
            r@ == self@,
    {
        let mut v: Vec<Sym> = Vec::new();
        let mut i: usize = 0;
        while i < self.items.len()
            invariant
                0 <= i <= self.items@.len(),
                v@ == self.items@.subrange(0, i as int),
            decreases self.items@.len() - i,
        {
            v.push(self.items[i]);
            assert(self.items@.subrange(0, i + 1) =~= self.items@.subrange(0, i as int).push(
                self.items@[i as int],
            ));
            i = i + 1;
        }
        assert(self.items@.subrange(0, i as int) =~= self.items@);
        SymbolSet { items: v }
    }

    /// Whether every symbol of `self` is in `other`.
    pub fn is_subset(&self, other: &SymbolSet) -> (r: bool)
        ensures
            r == self@.subset_of(other@),
    {
        let mut i: usize = 0;
        while i < self.items.len()
            invariant
                0 <= i <= self.items@.len(),
                forall|j: int| 0 <= j < i ==> other@.contains(#[trigger] self.items@[j]),
            decreases self.items@.len() - i,
        {
            if !other.contains(self.items[i]) {
                assert(self@.contains(self.items@[i as int]));
                return false;
            }
            i = i + 1;
        }
        assert forall|g: Sym| self@.contains(g) implies other@.contains(g) by {
            let j = choose|j: int| 0 <= j < self.items@.len() && self.items@[j] == g;
        }
        true
    }

    /// The symbols of either set.
    pub fn union(&self, other: &SymbolSet) -> (r: SymbolSet)
        requires
            self.wf(),
        ensures
            r.wf(),
            r@ == self@.union(other@),
    {
        let mut out = self.duplicate();
        let mut i: usize = 0;
        while i < other.items.len()
            invariant
                out.wf(),
                0 <= i <= other.items@.len(),
                out@ == self@.union(other.items@.subrange(0, i as int).to_set()),
            decreases other.items@.len() - i,
        {
            out.insert(other.items[i]);
            proof {
                let p = other.items@.subrange(0, i as int);
                assert(other.items@.subrange(0, i + 1) =~= p.push(other.items@[i as int]));
                p.lemma_push_to_set_commute(other.items@[i as int]);
            }
            assert(out@ =~= self@.union(other.items@.subrange(0, i + 1).to_set()));
            i = i + 1;
        }
        assert(other.items@.subrange(0, i as int) =~= other.items@);
        out
    }
}

/// Merging symbol sets takes the union, a semilattice join as well.
pub proof fn lemma_symbols_merge_semilattice(a: Set<Sym>, b: Set<Sym>, c: Set<Sym>)
    ensures
        a.union(b) == b.union(a),
        a.union(b).union(c) == a.union(b.union(c)),
        a.union(a) == a,
        a.subset_of(a.union(b)) && b.subset_of(a.union(b)),
{
    assert(a.union(b) =~= b.union(a));
    assert(a.union(b).union(c) =~= a.union(b.union(c)));
    assert(a.union(a) =~= a);
}

/// The size without application nodes, and the symbols at the head of the terms.
#[derive(Default)]
pub struct SizeNoAppSymbols;

/// The symbol part of the data of `enode`, given the symbol parts of its children.
pub open spec fn head_symbols(enode: SimpleLang, child_symbols: Seq<Set<Sym>>) -> Set<Sym> {
    match enode {
        SimpleLang::Symbol(g) => Set::empty().insert(g),
        SimpleLang::App(_, _) => child_symbols[0],
        _ => Set::empty(),
    }
}

impl SizeNoAppSymbols {
    /// The data of `enode` whose children (in order) have the given data.
    pub fn make(enode: &SimpleLang, child_data: &Vec<(u64, SymbolSet)>) -> (r: (u64, SymbolSet))
        requires
            child_data@.len() == arity(*enode),
            forall|i: int| 0 <= i < child_data@.len() ==> (#[trigger] child_data@[i]).1.wf(),
        ensures
            r.1.wf(),
            r.0 == saturate(
                own_size_no_app(*enode) + sum(child_data@.map_values(|d: (u64, SymbolSet)| d.0)),
            ),
            r.1@ == head_symbols(*enode, child_data@.map_values(|d: (u64, SymbolSet)| d.1@)),
    {
        let mut sizes: Vec<u64> = Vec::new();
        let mut i: usize = 0;
        while i < child_data.len()
            invariant
                0 <= i <= child_data@.len(),
                sizes@ == child_data@.subrange(0, i as int).map_values(|d: (u64, SymbolSet)| d.0),
            decreases child_data@.len() - i,
        {
            sizes.push(child_data[i].0);
            assert(child_data@.subrange(0, i + 1).map_values(|d: (u64, SymbolSet)| d.0)
                =~= child_data@.subrange(0, i as int).map_values(|d: (u64, SymbolSet)| d.0).push(
                child_data@[i as int].0,
            ));
            i = i + 1;
        }
        assert(child_data@.subrange(0, i as int) =~= child_data@);
        let s = SizeAnalysisNoApp::make(enode, &sizes);
        let f = match enode {
            SimpleLang::Symbol(g) => SymbolSet::singleton(*g),
            SimpleLang::App(_, _) => {
                let d = child_data[0].1.duplicate();
                assert(d@ == child_data@.map_values(|d: (u64, SymbolSet)| d.1@)[0]);
                d
            },
            _ => SymbolSet::new(),
        };
        (s, f)
    }

    /// Two equal classes: the smaller size and the symbols of both.
    pub fn merge(l: (u64, SymbolSet), r: (u64, SymbolSet)) -> (out: (u64, SymbolSet))
        requires
            l.1.wf(),
        ensures
            out.1.wf(),
            out.0 == min_u64(l.0, r.0),
            out.1@ == l.1@.union(r.1@),
    {
        let s = if l.0 <= r.0 {
            l.0
        } else {
            r.0
        };
        (s, l.1.union(&r.1))
    }
}

} // verus!
