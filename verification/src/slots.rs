use vstd::prelude::*;

verus! {

/// A variable name. Slots are told apart by their number.
pub type Slot = u32;

/// The number of an e-class.
pub type Id = usize;

/// Keys strictly increase along the sequence (so each key occurs once).
pub open spec fn sorted_keys<V>(s: Seq<(Slot, V)>) -> bool {
    forall|i: int, j: int| 0 <= i < j < s.len() ==> #[trigger] s[i].0 < #[trigger] s[j].0
}

/// `k` is the key of some entry of `s`.
pub open spec fn has_key<V>(s: Seq<(Slot, V)>, k: Slot) -> bool {
    exists|i: int| 0 <= i < s.len() && #[trigger] s[i].0 == k
}

/// The position of an entry whose key is `k`.
pub open spec fn key_pos<V>(s: Seq<(Slot, V)>, k: Slot) -> int {
    choose|i: int| 0 <= i < s.len() && #[trigger] s[i].0 == k
}

/// The finite map that an association list stands for.
pub open spec fn to_map<V>(s: Seq<(Slot, V)>) -> Map<Slot, V> {
    Map::new(|k: Slot| has_key(s, k), |k: Slot| s[key_pos(s, k)].1)
}

/// `m` followed by `other`, on the keys whose value `other` maps.
pub open spec fn compose_partial_map(m: Map<Slot, Slot>, other: Map<Slot, Slot>) -> Map<Slot, Slot> {
    Map::new(
        |x: Slot| m.dom().contains(x) && other.dom().contains(m[x]),
        |x: Slot| other[m[x]],
    )
}

/// The set of values of a map.
pub open spec fn map_values<K, V>(m: Map<K, V>) -> Set<V> {
    Set::new(|v: V| exists|k: K| m.dom().contains(k) && #[trigger] m[k] == v)
}

/// No two keys of the map share a value.
pub open spec fn injective<K, V>(m: Map<K, V>) -> bool {
    forall|a: K, b: K|
        m.dom().contains(a) && m.dom().contains(b) && a != b ==> #[trigger] m[a] != #[trigger] m[b]
}

pub proof fn lemma_key_pos<V>(s: Seq<(Slot, V)>, i: int)
    requires
        sorted_keys(s),
        0 <= i < s.len(),
    ensures
        has_key(s, s[i].0),
        key_pos(s, s[i].0) == i,
        to_map(s).dom().contains(s[i].0),
        to_map(s)[s[i].0] == s[i].1,
{
    assert(has_key(s, s[i].0));
    let p = key_pos(s, s[i].0);
    if p < i {
        assert(s[p].0 < s[i].0);
    } else if p > i {
        assert(s[i].0 < s[p].0);
    }
}

/// Two sorted association lists that stand for the same map are the same list.
pub proof fn lemma_sorted_canonical<V>(a: Seq<(Slot, V)>, b: Seq<(Slot, V)>)
    requires
        sorted_keys(a),
        sorted_keys(b),
        to_map(a) == to_map(b),
    ensures
        a == b,
    decreases a.len(),
{
    if a.len() == 0 {
        if b.len() > 0 {
            lemma_key_pos(b, 0);
            assert(to_map(a).dom().contains(b[0].0));
        }
        assert(a =~= b);
    } else {
        lemma_key_pos(a, 0);
        assert(to_map(b).dom().contains(a[0].0));
        assert(b.len() > 0);
        lemma_key_pos(b, 0);
        assert(to_map(a).dom().contains(b[0].0));
        let ja = key_pos(a, b[0].0);
        let jb = key_pos(b, a[0].0);
        if ja > 0 {
            assert(a[0].0 < a[ja].0);
        }
        if jb > 0 {
            assert(b[0].0 < b[jb].0);
        }
        assert(a[0].0 == b[0].0);
        assert(a[0].1 == to_map(a)[a[0].0]);
        assert(a[0] == b[0]);
        let a1 = a.drop_first();
        let b1 = b.drop_first();
        assert forall|k: Slot| #[trigger] to_map(a1).dom().contains(k) <==> to_map(b1).dom().contains(k) by {
            if has_key(a1, k) {
                let i = choose|i: int| 0 <= i < a1.len() && #[trigger] a1[i].0 == k;
                assert(a[i + 1].0 == k);
                lemma_key_pos(a, i + 1);
                assert(to_map(b).dom().contains(k));
                let j = key_pos(b, k);
                lemma_key_pos(b, j);
                if j == 0 {
                    assert(a[0].0 < a[i + 1].0);
                }
                assert(b1[j - 1].0 == k);
            }
            if has_key(b1, k) {
                let i = choose|i: int| 0 <= i < b1.len() && #[trigger] b1[i].0 == k;
                assert(b[i + 1].0 == k);
                lemma_key_pos(b, i + 1);
                assert(to_map(a).dom().contains(k));
                let j = key_pos(a, k);
                lemma_key_pos(a, j);
                if j == 0 {
                    assert(b[0].0 < b[i + 1].0);
                }
                assert(a1[j - 1].0 == k);
            }
        }
        assert forall|k: Slot| #[trigger] to_map(a1).dom().contains(k) implies to_map(a1)[k]
            == to_map(b1)[k] by {
            let i = key_pos(a1, k);
            let j = key_pos(b1, k);
            lemma_key_pos(a1, i);
            lemma_key_pos(b1, j);
            lemma_key_pos(a, i + 1);
            lemma_key_pos(b, j + 1);
        }
        assert(to_map(a1) =~= to_map(b1));
        lemma_sorted_canonical(a1, b1);
        assert forall|i: int| 0 <= i < a.len() implies a[i] == b[i] by {
            if i > 0 {
                assert(a[i] == a1[i - 1]);
                assert(b[i] == b1[i - 1]);
            }
        }
        assert(a =~= b);
    }
}

/// A sorted prefix grows its map by the next entry.
pub proof fn lemma_to_map_prefix<V>(s: Seq<(Slot, V)>, i: int)
    requires
        sorted_keys(s),
        0 <= i < s.len(),
    ensures
        sorted_keys(s.subrange(0, i)),
        sorted_keys(s.subrange(0, i + 1)),
        to_map(s.subrange(0, i + 1)) == to_map(s.subrange(0, i)).insert(s[i].0, s[i].1),
        !to_map(s.subrange(0, i)).dom().contains(s[i].0),
{
    let p = s.subrange(0, i);
    let q = s.subrange(0, i + 1);
    assert(sorted_keys(p)) by {
        assert forall|a: int, b: int| 0 <= a < b < p.len() implies #[trigger] p[a].0 < #[trigger] p[b].0 by {
            assert(s[a].0 < s[b].0);
        }
    }
    assert(sorted_keys(q)) by {
        assert forall|a: int, b: int| 0 <= a < b < q.len() implies #[trigger] q[a].0 < #[trigger] q[b].0 by {
            assert(s[a].0 < s[b].0);
        }
    }
    if to_map(p).dom().contains(s[i].0) {
        let j = key_pos(p, s[i].0);
        assert(s[j].0 < s[i].0);
    }
    assert forall|k: Slot| #[trigger] to_map(q).dom().contains(k) <==> to_map(p).insert(s[i].0, s[i].1).dom().contains(k) by {
        if has_key(q, k) {
            let j = choose|j: int| 0 <= j < q.len() && #[trigger] q[j].0 == k;
            if j < i {
                assert(p[j].0 == k);
            }
        }
        if has_key(p, k) {
            let j = choose|j: int| 0 <= j < p.len() && #[trigger] p[j].0 == k;
            assert(q[j].0 == k);
        }
        if k == s[i].0 {
            assert(q[i].0 == k);
        }
    }
    assert forall|k: Slot| #[trigger] to_map(q).dom().contains(k) implies to_map(q)[k] == to_map(p).insert(s[i].0, s[i].1)[k] by {
        let j = key_pos(q, k);
        lemma_key_pos(q, j);
        if j < i {
            assert(p[j] == q[j]);
            lemma_key_pos(p, j);
        }
    }
    assert(to_map(q) =~= to_map(p).insert(s[i].0, s[i].1));
}

/// Maps `k` to `x` in a sorted association list, replacing an earlier value of `k`.
pub fn sorted_insert<V>(pairs: &mut Vec<(Slot, V)>, k: Slot, x: V)
    requires
        sorted_keys(old(pairs)@),
    ensures
        sorted_keys(final(pairs)@),
        to_map(final(pairs)@) == to_map(old(pairs)@).insert(k, x),
{
    let ghost s0 = pairs@;
    let mut p: usize = 0;
    while p < pairs.len() && pairs[p].0 < k
        invariant
            pairs@ == s0,
            sorted_keys(s0),
            0 <= p <= s0.len(),
            forall|j: int| 0 <= j < p ==> #[trigger] s0[j].0 < k,
        decreases s0.len() - p,
    {
        p = p + 1;
    }
    if p < pairs.len() && pairs[p].0 == k {
        pairs.set(p, (k, x));
        proof {
            let s1 = pairs@;
            assert(sorted_keys(s1)) by {
                assert forall|i: int, j: int| 0 <= i < j < s1.len() implies #[trigger] s1[i].0
                    < #[trigger] s1[j].0 by {
                    assert(s0[i].0 < s0[j].0);
                }
            }
            assert forall|key: Slot| #[trigger] to_map(s1).dom().contains(key) <==> to_map(s0).dom().insert(
                k,
            ).contains(key) by {
                if has_key(s0, key) {
                    let i = choose|i: int| 0 <= i < s0.len() && #[trigger] s0[i].0 == key;
                    assert(s1[i].0 == key);
                }
                if has_key(s1, key) {
                    let i = choose|i: int| 0 <= i < s1.len() && #[trigger] s1[i].0 == key;
                    assert(s0[i].0 == key);
                }
            }
            assert forall|key: Slot| #[trigger] to_map(s1).dom().contains(key) implies to_map(
                s1,
            )[key] == to_map(s0).insert(k, x)[key] by {
                let i = key_pos(s1, key);
                lemma_key_pos(s1, i);
                if key != k {
                    assert(s0[i].0 == key);
                    lemma_key_pos(s0, i);
                } else {
                    lemma_key_pos(s1, p as int);
                }
            }
            assert(to_map(s1) =~= to_map(s0).insert(k, x));
        }
    } else {
        pairs.insert(p, (k, x));
        proof {
            let s1 = pairs@;
            assert(forall|j: int| p <= j < s0.len() ==> k < #[trigger] s0[j].0) by {
                assert forall|j: int| p <= j < s0.len() implies k < #[trigger] s0[j].0 by {
                    if j > p {
                        assert(s0[p as int].0 < s0[j].0);
                    }
                }
            }
            assert(sorted_keys(s1)) by {
                assert forall|i: int, j: int| 0 <= i < j < s1.len() implies #[trigger] s1[i].0
                    < #[trigger] s1[j].0 by {
                    if j < p {
                        assert(s0[i].0 < s0[j].0);
                    } else if j == p {
                    } else if i < p {
                        assert(s1[j] == s0[j - 1]);
                    } else if i == p {
                        assert(s1[j] == s0[j - 1]);
                    } else {
                        assert(s0[i - 1].0 < s0[j - 1].0);
                    }
                }
            }
            assert forall|key: Slot| #[trigger] to_map(s1).dom().contains(key) <==> to_map(
                s0,
            ).dom().insert(k).contains(key) by {
                if has_key(s0, key) {
                    let i = choose|i: int| 0 <= i < s0.len() && #[trigger] s0[i].0 == key;
                    if i < p {
                        assert(s1[i].0 == key);
                    } else {
                        assert(s1[i + 1].0 == key);
                    }
                }
                if key == k {
                    assert(s1[p as int].0 == key);
                }
                if has_key(s1, key) {
                    let i = choose|i: int| 0 <= i < s1.len() && #[trigger] s1[i].0 == key;
                    if i < p {
                        assert(s0[i].0 == key);
                    } else if i > p {
                        assert(s0[i - 1].0 == key);
                    }
                }
            }
            assert forall|key: Slot| #[trigger] to_map(s1).dom().contains(key) implies to_map(
                s1,
            )[key] == to_map(s0).insert(k, x)[key] by {
                let i = key_pos(s1, key);
                lemma_key_pos(s1, i);
                if i < p {
                    lemma_key_pos(s0, i);
                } else if i > p {
                    lemma_key_pos(s0, i - 1);
                }
            }
            assert(to_map(s1) =~= to_map(s0).insert(k, x));
        }
    }
}


/// Looks `k` up in a sorted association list and gives its position.
pub fn sorted_find<V>(pairs: &Vec<(Slot, V)>, k: Slot) -> (r: Option<usize>)
    requires
        sorted_keys(pairs@),
    ensures
        match r {
            Some(i) => i < pairs@.len() && pairs@[i as int].0 == k && key_pos(pairs@, k) == i,
            None => !has_key(pairs@, k),
        },
{
    let mut i: usize = 0;
    while i < pairs.len()
        invariant
            sorted_keys(pairs@),
            0 <= i <= pairs@.len(),
            forall|j: int| 0 <= j < i ==> #[trigger] pairs@[j].0 != k,
        decreases pairs@.len() - i,
    {
        if pairs[i].0 == k {
            proof {
                lemma_key_pos(pairs@, i as int);
            }
            return Some(i);
        }
        if pairs[i].0 > k {
            proof {
                assert forall|j: int| 0 <= j < pairs@.len() implies #[trigger] pairs@[j].0 != k by {
                    if j > i {
                        assert(pairs@[i as int].0 < pairs@[j].0);
                    }
                }
            }
            return None;
        }
        i = i + 1;
    }
    None
}

/// A finite map from the parameter slots of an e-class to the slots put into them,
/// kept as a list of pairs sorted by key.
pub struct SlotMap {
    pub pairs: Vec<(Slot, Slot)>,
}

impl View for SlotMap {
    type V = Map<Slot, Slot>;

    open spec fn view(&self) -> Map<Slot, Slot> {
        to_map(self.pairs@)
    }
}

impl SlotMap {
    /// The pairs are sorted by key, so each key occurs once.
    pub open spec fn wf(&self) -> bool {
        sorted_keys(self.pairs@)
    }

    pub proof fn lemma_key(&self, k: Slot)
        requires
            self.wf(),
            self@.dom().contains(k),
        ensures
            0 <= key_pos(self.pairs@, k) < self.pairs@.len(),
            self.pairs@[key_pos(self.pairs@, k)] == (k, self@[k]),
    {
        let j = key_pos(self.pairs@, k);
        lemma_key_pos(self.pairs@, j);
    }

    pub proof fn lemma_entry(&self, j: int)
        requires
            self.wf(),
            0 <= j < self.pairs@.len(),
        ensures
            self@.dom().contains(self.pairs@[j].0),
            self@[self.pairs@[j].0] == self.pairs@[j].1,
            map_values(self@).contains(self.pairs@[j].1),
    {
        lemma_key_pos(self.pairs@, j);
    }

    pub fn new() -> (r: SlotMap)
        ensures
            r.wf(),
            r@ == Map::<Slot, Slot>::empty(),
    {
        let r = SlotMap { pairs: Vec::new() };
        assert(r@ =~= Map::<Slot, Slot>::empty());
        r
    }

    pub fn len(&self) -> (r: usize)
        requires
            self.wf(),
        ensures
            r == self@.len(),
            r == self.pairs@.len(),
    {
        proof {
            self.lemma_len();
        }
        self.pairs.len()
    }

    pub proof fn lemma_len(&self)
        requires
            self.wf(),
        ensures
            self@.dom().finite(),
            self@.len() == self.pairs@.len(),
        decreases self.pairs@.len(),
    {
        let s = self.pairs@;
        let ks = s.map_values(|p: (Slot, Slot)| p.0);
        assert(self@.dom() =~= ks.to_set()) by {
            assert forall|k: Slot| self@.dom().contains(k) implies ks.to_set().contains(k) by {
                let i = key_pos(s, k);
                assert(ks[i] == k);
            }
            assert forall|k: Slot| ks.to_set().contains(k) implies self@.dom().contains(k) by {
                let i = choose|i: int| 0 <= i < ks.len() && #[trigger] ks[i] == k;
                assert(s[i].0 == k);
            }
        }
        assert(ks.no_duplicates()) by {
            assert forall|i: int, j: int| 0 <= i < ks.len() && 0 <= j < ks.len() && i != j implies ks[i]
                != ks[j] by {
                if i < j {
                    assert(s[i].0 < s[j].0);
                } else {
                    assert(s[j].0 < s[i].0);
                }
            }
        }
        ks.unique_seq_to_set();
    }

    pub fn get(&self, k: Slot) -> (r: Option<Slot>)
        requires
            self.wf(),
        ensures
            r == (if self@.dom().contains(k) {
                Some(self@[k])
            } else {
                None
            }),
    {
        match sorted_find(&self.pairs, k) {
            Some(i) => Some(self.pairs[i].1),
            None => None,
        }
    }

    pub fn contains_key(&self, k: Slot) -> (r: bool)
        requires
            self.wf(),
        ensures
            r == self@.dom().contains(k),
    {
        self.get(k).is_some()
    }

    /// The `i`-th pair in key order.
    pub fn entry(&self, i: usize) -> (r: (Slot, Slot))
        requires
            i < self.pairs@.len(),
        ensures
            r == self.pairs@[i as int],
    {
        self.pairs[i]
    }

    /// Maps `k` to `v`, replacing an earlier value of `k`.
    pub fn insert(&mut self, k: Slot, v: Slot)
        requires
            old(self).wf(),
        ensures
            final(self).wf(),
            final(self)@ == old(self)@.insert(k, v),
    {
        sorted_insert(&mut self.pairs, k, v);
    }

    /// `self` followed by `other`, on the keys whose value `other` maps.
    pub fn compose_partial(&self, other: &SlotMap) -> (r: SlotMap)
        requires
            self.wf(),
            other.wf(),
        ensures
            r.wf(),
            r@ == compose_partial_map(self@, other@),
    {
        let mut out = SlotMap::new();
        let n = self.pairs.len();
        let ghost s = self.pairs@;
        let mut i: usize = 0;
        while i < n
            invariant
                self.wf(),
                other.wf(),
                s == self.pairs@,
                n == s.len(),
                0 <= i <= n,
                out.wf(),
                out@ == compose_partial_map(to_map(s.subrange(0, i as int)), other@),
            decreases n - i,
        {
            let (x, y) = self.entry(i);
            proof {
                lemma_to_map_prefix(s, i as int);
            }
            match other.get(y) {
                Some(z) => {
                    out.insert(x, z);
                    assert(out@ =~= compose_partial_map(to_map(s.subrange(0, i + 1)), other@));
                },
                None => {
                    assert(out@ =~= compose_partial_map(to_map(s.subrange(0, i + 1)), other@));
                },
            }
            i = i + 1;
        }
        assert(s.subrange(0, n as int) =~= s);
        out
    }

    /// Whether no two keys are mapped to the same slot.
    pub fn is_bijection(&self) -> (r: bool)
        requires
            self.wf(),
        ensures
            r == injective(self@),
    {
        let n = self.pairs.len();
        let mut i: usize = 0;
        while i < n
            invariant
                self.wf(),
                n == self.pairs@.len(),
                0 <= i <= n,
                forall|a: int, b: int|
                    0 <= a < b < n && a < i ==> #[trigger] self.pairs@[a].1
                        != #[trigger] self.pairs@[b].1,
            decreases n - i,
        {
            let mut j: usize = i + 1;
            while j < n
                invariant
                    self.wf(),
                    n == self.pairs@.len(),
                    0 <= i < n,
                    i < j <= n,
                    forall|a: int, b: int|
                        0 <= a < b < n && a < i ==> #[trigger] self.pairs@[a].1
                            != #[trigger] self.pairs@[b].1,
                    forall|b: int| i < b < j ==> self.pairs@[i as int].1 != #[trigger] self.pairs@[b].1,
                decreases n - j,
            {
                if self.pairs[i].1 == self.pairs[j].1 {
                    proof {
                        let s = self.pairs@;
                        lemma_key_pos(s, i as int);
                        lemma_key_pos(s, j as int);
                        assert(s[i as int].0 < s[j as int].0);
                        assert(self@[s[i as int].0] == self@[s[j as int].0]);
                    }
                    return false;
                }
                j = j + 1;
            }
            i = i + 1;
        }
        proof {
            let s = self.pairs@;
            assert forall|a: Slot, b: Slot|
                self@.dom().contains(a) && self@.dom().contains(b) && a != b implies #[trigger] self@[a]
                != #[trigger] self@[b] by {
                let ia = key_pos(s, a);
                let ib = key_pos(s, b);
                lemma_key_pos(s, ia);
                lemma_key_pos(s, ib);
                if ia < ib {
                    assert(s[ia].1 != s[ib].1);
                } else {
                    assert(s[ib].1 != s[ia].1);
                }
            }
        }
        true
    }

    /// Equality of the two maps (the pair lists are compared, which is the same).
    pub fn equals(&self, other: &SlotMap) -> (r: bool)
        requires
            self.wf(),
            other.wf(),
        ensures
            r == (self@ == other@),
    {
        let n = self.pairs.len();
        let mut same = n == other.pairs.len();
        let mut i: usize = 0;
        while same && i < n
            invariant
                n == self.pairs@.len(),
                same ==> n == other.pairs@.len(),
                0 <= i <= n,
                same ==> forall|j: int| 0 <= j < i ==> #[trigger] self.pairs@[j] == other.pairs@[j],
                !same ==> self.pairs@ != other.pairs@,
            decreases n - i,
        {
            if self.pairs[i].0 != other.pairs[i].0 || self.pairs[i].1 != other.pairs[i].1 {
                same = false;
            }
            i = i + 1;
        }
        proof {
            if same {
                assert(self.pairs@ =~= other.pairs@);
            } else if self@ == other@ {
                lemma_sorted_canonical(self.pairs@, other.pairs@);
            }
        }
        same
    }

    /// A copy of this map.
    pub fn duplicate(&self) -> (r: SlotMap)
        ensures
            r.pairs@ == self.pairs@,
            r@ == self@,
    {
        let mut v: Vec<(Slot, Slot)> = Vec::new();
        let mut i: usize = 0;
        while i < self.pairs.len()
            invariant
                0 <= i <= self.pairs@.len(),
                v@ == self.pairs@.subrange(0, i as int),
            decreases self.pairs@.len() - i,
        {
            v.push(self.pairs[i]);
            assert(self.pairs@.subrange(0, i + 1) =~= self.pairs@.subrange(0, i as int).push(
                self.pairs@[i as int],
            ));
            i = i + 1;
        }
        assert(self.pairs@.subrange(0, i as int) =~= self.pairs@);
        SlotMap { pairs: v }
    }
}

/// An invocation of an e-class: the class `id` with the slots in `m` put into its
/// parameter slots.
pub struct AppliedId {
    pub id: Id,
    pub m: SlotMap,
}

impl View for AppliedId {
    type V = (Id, Map<Slot, Slot>);

    open spec fn view(&self) -> (Id, Map<Slot, Slot>) {
        (self.id, self.m@)
    }
}

/// The slots that an applied id puts into its class.
pub open spec fn applied_slots(a: (Id, Map<Slot, Slot>)) -> Set<Slot> {
    map_values(a.1)
}

impl AppliedId {
    pub open spec fn wf(&self) -> bool {
        self.m.wf()
    }

    pub fn new(id: Id, m: SlotMap) -> (r: AppliedId)
        ensures
            r.id == id,
            r.m == m,
    {
        AppliedId { id, m }
    }

    /// Equality of class and slot map.
    pub fn equals(&self, other: &AppliedId) -> (r: bool)
        requires
            self.wf(),
            other.wf(),
        ensures
            r == (self@ == other@),
    {
        self.id == other.id && self.m.equals(&other.m)
    }

    pub fn duplicate(&self) -> (r: AppliedId)
        ensures
            r@ == self@,
            r.id == self.id,
            r.m.pairs@ == self.m.pairs@,
    {
        AppliedId { id: self.id, m: self.m.duplicate() }
    }

    /// Whether `s` is one of the slots put into the class.
    pub fn has_slot(&self, s: Slot) -> (r: bool)
        requires
            self.wf(),
        ensures
            r == applied_slots(self@).contains(s),
    {
        let n = self.m.pairs.len();
        let mut i: usize = 0;
        while i < n
            invariant
                self.wf(),
                n == self.m.pairs@.len(),
                0 <= i <= n,
                forall|j: int| 0 <= j < i ==> #[trigger] self.m.pairs@[j].1 != s,
            decreases n - i,
        {
            if self.m.pairs[i].1 == s {
                proof {
                    lemma_key_pos(self.m.pairs@, i as int);
                    assert(self.m@[self.m.pairs@[i as int].0] == s);
                }
                return true;
            }
            i = i + 1;
        }
        proof {
            if applied_slots(self@).contains(s) {
                let k = choose|k: Slot| self.m@.dom().contains(k) && #[trigger] self.m@[k] == s;
                let p = key_pos(self.m.pairs@, k);
                lemma_key_pos(self.m.pairs@, p);
            }
        }
        false
    }
}

} // verus!
