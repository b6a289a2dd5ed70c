use vstd::prelude::*;
use crate::slots::{
    AppliedId, Id, Slot, sorted_keys, has_key, key_pos, to_map, lemma_key_pos,
    lemma_sorted_canonical, sorted_insert, sorted_find,
};

verus! {

/// The view of an applied id: its class and its slot map.
pub type AppliedIdView = (Id, Map<Slot, Slot>);

/// The view of an optional applied id.
pub open spec fn aid_opt_view(o: Option<AppliedId>) -> Option<AppliedIdView> {
    match o {
        Some(a) => Some(a@),
        None => None,
    }
}

/// The view of an optional unifier.
pub open spec fn unifier_opt_view(o: Option<Unifier>) -> Option<Map<Slot, AppliedIdView>> {
    match o {
        Some(u) => Some(u@),
        None => None,
    }
}

/// The entries of a unifier with each applied id replaced by its view.
pub open spec fn view_entries(s: Seq<(Slot, AppliedId)>) -> Seq<(Slot, AppliedIdView)> {
    s.map_values(|p: (Slot, AppliedId)| (p.0, p.1@))
}

pub proof fn lemma_view_entries_sorted(s: Seq<(Slot, AppliedId)>)
    ensures
        sorted_keys(view_entries(s)) == sorted_keys(s),
        view_entries(s).len() == s.len(),
        forall|i: int| 0 <= i < s.len() ==> #[trigger] view_entries(s)[i] == (s[i].0, s[i].1@),
{
    let v = view_entries(s);
    if sorted_keys(s) {
        assert forall|i: int, j: int| 0 <= i < j < v.len() implies #[trigger] v[i].0 < #[trigger] v[j].0 by {
            assert(s[i].0 < s[j].0);
        }
    }
    if sorted_keys(v) {
        assert forall|i: int, j: int| 0 <= i < j < s.len() implies #[trigger] s[i].0 < #[trigger] s[j].0 by {
            assert(v[i].0 < v[j].0);
        }
    }
}

/// A substitution from slots to applied ids, kept sorted by slot.
pub struct Unifier {
    pub entries: Vec<(Slot, AppliedId)>,
}

impl View for Unifier {
    type V = Map<Slot, AppliedIdView>;

    open spec fn view(&self) -> Map<Slot, AppliedIdView> {
        to_map(view_entries(self.entries@))
    }
}

impl Unifier {
    /// Sorted by slot, and every applied id well formed.
    pub open spec fn wf(&self) -> bool {
        &&& sorted_keys(self.entries@)
        &&& forall|i: int| 0 <= i < self.entries@.len() ==> (#[trigger] self.entries@[i]).1.wf()
    }

    pub proof fn lemma_entry(&self, i: int)
        requires
            self.wf(),
            0 <= i < self.entries@.len(),
        ensures
            self@.dom().contains(self.entries@[i].0),
            self@[self.entries@[i].0] == self.entries@[i].1@,
    {
        lemma_view_entries_sorted(self.entries@);
        lemma_key_pos(view_entries(self.entries@), i);
    }

    pub proof fn lemma_key(&self, k: Slot)
        requires
            self.wf(),
            self@.dom().contains(k),
        ensures
            has_key(self.entries@, k),
            0 <= key_pos(self.entries@, k) < self.entries@.len(),
            self.entries@[key_pos(self.entries@, k)].0 == k,
            self@[k] == self.entries@[key_pos(self.entries@, k)].1@,
    {
        lemma_view_entries_sorted(self.entries@);
        let v = view_entries(self.entries@);
        let i = key_pos(v, k);
        lemma_key_pos(v, i);
        assert(self.entries@[i].0 == k);
        lemma_key_pos(self.entries@, i);
    }

    pub fn new() -> (r: Unifier)
        ensures
            r.wf(),
            r@ == Map::<Slot, AppliedIdView>::empty(),
    {
        let r = Unifier { entries: Vec::new() };
        assert(r@ =~= Map::<Slot, AppliedIdView>::empty());
        r
    }

    pub fn len(&self) -> (r: usize)
        ensures
            r == self.entries@.len(),
    {
        self.entries.len()
    }

    /// The applied id bound to `k`, if any.
    pub fn get(&self, k: Slot) -> (r: Option<&AppliedId>)
        requires
            self.wf(),
        ensures
            r is Some <==> self@.dom().contains(k),
            r matches Some(a) ==> a@ == self@[k] && a.wf(),
    {
        match sorted_find(&self.entries, k) {
            Some(i) => {
                proof {
                    self.lemma_entry(i as int);
                }
                Some(&self.entries[i].1)
            },
            None => {
                proof {
                    if self@.dom().contains(k) {
                        self.lemma_key(k);
                    }
                }
                None
            },
        }
    }

    pub fn contains_key(&self, k: Slot) -> (r: bool)
        requires
            self.wf(),
        ensures
            r == self@.dom().contains(k),
    {
        self.get(k).is_some()
    }

    /// Binds `k` to `a`, replacing an earlier binding of `k`.
    pub fn insert(&mut self, k: Slot, a: AppliedId)
        requires
            old(self).wf(),
            a.wf(),
        ensures
            final(self).wf(),
            final(self)@ == old(self)@.insert(k, a@),
    {
        let ghost s0 = self.entries@;
        let ghost av = a@;
        sorted_insert(&mut self.entries, k, a);
        proof {
            let s1 = self.entries@;
            assert forall|i: int| 0 <= i < s1.len() implies (#[trigger] s1[i]).1.wf() by {
                lemma_key_pos(s1, i);
                if s1[i].0 != k {
                    assert(to_map(s0).dom().contains(s1[i].0));
                    let j = key_pos(s0, s1[i].0);
                    assert(s0[j].0 == s1[i].0);
                }
            }
            lemma_view_entries_sorted(s0);
            lemma_view_entries_sorted(s1);
            let v0 = view_entries(s0);
            let v1 = view_entries(s1);
            assert forall|key: Slot| #[trigger] to_map(v1).dom().contains(key) <==> to_map(
                v0,
            ).insert(k, av).dom().contains(key) by {
                if has_key(v1, key) {
                    let i = choose|i: int| 0 <= i < v1.len() && #[trigger] v1[i].0 == key;
                    lemma_key_pos(s1, i);
                    if key != k {
                        let j = key_pos(s0, key);
                        assert(s0[j].0 == key);
                        assert(v0[j].0 == key);
                    }
                }
                if has_key(v0, key) {
                    let i = choose|i: int| 0 <= i < v0.len() && #[trigger] v0[i].0 == key;
                    lemma_key_pos(s0, i);
                    assert(to_map(s0).dom().contains(key));
                    assert(to_map(s1).dom().contains(key));
                    let j = key_pos(s1, key);
                    assert(s1[j].0 == key);
                    assert(v1[j].0 == key);
                }
                if key == k {
                    assert(to_map(s1).dom().contains(key));
                    let j = key_pos(s1, key);
                    assert(v1[j].0 == key);
                }
            }
            assert forall|key: Slot| #[trigger] to_map(v1).dom().contains(key) implies to_map(v1)[key]
                == to_map(v0).insert(k, av)[key] by {
                let i = key_pos(v1, key);
                lemma_key_pos(v1, i);
                lemma_key_pos(s1, i);
                if key != k {
                    let j = key_pos(s0, key);
                    assert(s0[j].0 == key);
                    lemma_key_pos(s0, j);
                    lemma_key_pos(v0, j);
                }
            }
            assert(to_map(v1) =~= to_map(v0).insert(k, av));
        }
    }

    /// Equality of the two substitutions.
    pub fn equals(&self, other: &Unifier) -> (r: bool)
        requires
            self.wf(),
            other.wf(),
        ensures
            r == (self@ == other@),
    {
        let n = self.entries.len();
        let mut same = n == other.entries.len();
        let mut i: usize = 0;
        let ghost va = view_entries(self.entries@);
        let ghost vb = view_entries(other.entries@);
        proof {
            lemma_view_entries_sorted(self.entries@);
            lemma_view_entries_sorted(other.entries@);
        }
        while same && i < n
            invariant
                self.wf(),
                other.wf(),
                n == self.entries@.len(),
                va == view_entries(self.entries@),
                vb == view_entries(other.entries@),
                va.len() == n,
                same ==> vb.len() == n,
                forall|j: int| 0 <= j < self.entries@.len() ==> #[trigger] va[j] == (
                    self.entries@[j].0,
                    self.entries@[j].1@,
                ),
                forall|j: int| 0 <= j < other.entries@.len() ==> #[trigger] vb[j] == (
                    other.entries@[j].0,
                    other.entries@[j].1@,
                ),
                0 <= i <= n,
                same ==> forall|j: int| 0 <= j < i ==> #[trigger] va[j] == vb[j],
                !same ==> va != vb,
            decreases n - i,
        {
            if self.entries[i].0 != other.entries[i].0 || !self.entries[i].1.equals(
                &other.entries[i].1,
            ) {
                same = false;
                assert(va[i as int] != vb[i as int]);
            }
            i = i + 1;
        }
        proof {
            if same {
                assert(va =~= vb);
            } else if self@ == other@ {
                lemma_sorted_canonical(va, vb);
            }
        }
        same
    }

    /// A copy of this unifier.
    pub fn duplicate(&self) -> (r: Unifier)
        requires
            self.wf(),
        ensures
            r.wf(),
            r@ == self@,
            view_entries(r.entries@) == view_entries(self.entries@),
    {
        let mut v: Vec<(Slot, AppliedId)> = Vec::new();
        let mut i: usize = 0;
        while i < self.entries.len()
            invariant
                self.wf(),
                0 <= i <= self.entries@.len(),
                v@.len() == i,
                forall|j: int|
                    0 <= j < i ==> (#[trigger] v@[j]).0 == self.entries@[j].0 && v@[j].1@
                        == self.entries@[j].1@ && v@[j].1.m.pairs@ == self.entries@[j].1.m.pairs@,
            decreases self.entries@.len() - i,
        {
            let a = self.entries[i].1.duplicate();
            v.push((self.entries[i].0, a));
            i = i + 1;
        }
        let r = Unifier { entries: v };
        proof {
            assert(view_entries(r.entries@) =~= view_entries(self.entries@));
            assert forall|i: int, j: int| 0 <= i < j < v@.len() implies #[trigger] v@[i].0
                < #[trigger] v@[j].0 by {
                assert(self.entries@[i].0 < self.entries@[j].0);
            }
            assert forall|i: int| 0 <= i < v@.len() implies (#[trigger] v@[i]).1.wf() by {
                assert(self.entries@[i].1.wf());
            }
        }
        r
    }
}

} // verus!
