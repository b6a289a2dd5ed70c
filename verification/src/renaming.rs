use vstd::prelude::*;
use crate::slots::{
    AppliedId, Slot, SlotMap, sorted_keys, to_map, key_pos, lemma_key_pos, lemma_to_map_prefix,
    map_values, injective, applied_slots,
};
use crate::unifier::{Unifier, AppliedIdView, aid_opt_view, unifier_opt_view, view_entries, lemma_view_entries_sorted};

use crate::worklist::without;

verus! {

/// `s` renamed by `r`; slots outside `r` stay as they are.
pub open spec fn rename(r: Map<Slot, Slot>, s: Slot) -> Slot {
    if r.dom().contains(s) {
        r[s]
    } else {
        s
    }
}

/// A slot map whose values are renamed by `r`.
pub open spec fn renamed_map(m: Map<Slot, Slot>, r: Map<Slot, Slot>) -> Map<Slot, Slot> {
    m.map_values(|v: Slot| rename(r, v))
}

/// An applied id whose slots are renamed by `r`.
pub open spec fn renamed_aid(a: AppliedIdView, r: Map<Slot, Slot>) -> AppliedIdView {
    (a.0, renamed_map(a.1, r))
}

/// What renaming an applied id by `r` gives: nothing where two of its slots collapse.
pub open spec fn rename_aid_result(a: AppliedIdView, r: Map<Slot, Slot>) -> Option<AppliedIdView> {
    if injective(renamed_map(a.1, r)) {
        Some(renamed_aid(a, r))
    } else {
        None
    }
}

/// Renaming keeps the bindings of a substitution apart and keeps each bound applied id
/// free of collapsing slots.
pub open spec fn unifier_renamable(sigma: Map<Slot, AppliedIdView>, r: Map<Slot, Slot>) -> bool {
    &&& forall|s1: Slot, s2: Slot|
        sigma.dom().contains(s1) && sigma.dom().contains(s2) && s1 != s2 ==> #[trigger] rename(r, s1)
            != #[trigger] rename(r, s2)
    &&& forall|s: Slot| #[trigger] sigma.dom().contains(s) ==> injective(renamed_map(sigma[s].1, r))
}

/// The substitution transported along `r`: `rename(s)` is bound to the renamed image of
/// what `s` was bound to.
pub open spec fn renamed_unifier(sigma: Map<Slot, AppliedIdView>, r: Map<Slot, Slot>) -> Map<
    Slot,
    AppliedIdView,
> {
    Map::new(
        |k: Slot| exists|s: Slot| sigma.dom().contains(s) && #[trigger] rename(r, s) == k,
        |k: Slot|
            renamed_aid(
                sigma[choose|s: Slot| sigma.dom().contains(s) && #[trigger] rename(r, s) == k],
                r,
            ),
    )
}

/// What transporting a substitution along `r` gives.
pub open spec fn rename_unifier_result(sigma: Map<Slot, AppliedIdView>, r: Map<Slot, Slot>) -> Option<
    Map<Slot, AppliedIdView>,
> {
    if unifier_renamable(sigma, r) {
        Some(renamed_unifier(sigma, r))
    } else {
        None
    }
}

/// Applies the renaming `r` to a slot; slots outside `r` are left unchanged.
pub fn rename_slot(r: &SlotMap, s: Slot) -> (out: Slot)
    requires
        r.wf(),
    ensures
        out == rename(r@, s),
{
    match r.get(s) {
        Some(t) => t,
        None => s,
    }
}

/// The applied id with the slots that it puts into its class renamed by `r`.
pub fn renamed_applied_id(ai: &AppliedId, r: &SlotMap) -> (out: AppliedId)
    requires
        ai.wf(),
        r.wf(),
    ensures
        out.wf(),
        out@ == renamed_aid(ai@, r@),
{
    let mut m = SlotMap::new();
    let n = ai.m.pairs.len();
    let ghost src = ai.m.pairs@;
    let mut i: usize = 0;
    while i < n
        invariant
            ai.wf(),
            r.wf(),
            src == ai.m.pairs@,
            n == src.len(),
            0 <= i <= n,
            m.wf(),
            m@ == to_map(src.subrange(0, i as int)).map_values(|v: Slot| rename(r@, v)),
        decreases n - i,
    {
        let (k, v) = ai.m.entry(i);
        let nv = rename_slot(r, v);
        m.insert(k, nv);
        proof {
            lemma_to_map_prefix(src, i as int);
            assert(m@ =~= to_map(src.subrange(0, i + 1)).map_values(|v: Slot| rename(r@, v)));
        }
        i = i + 1;
    }
    proof {
        assert(src.subrange(0, n as int) =~= src);
        assert(m@ =~= renamed_map(ai.m@, r@));
    }
    AppliedId::new(ai.id, m)
}

/// Renames the slots that `ai` puts into its class; `None` where two of them collapse.
pub fn rename_applied_id(ai: &AppliedId, r: &SlotMap) -> (out: Option<AppliedId>)
    requires
        ai.wf(),
        r.wf(),
    ensures
        out matches Some(b) ==> b.wf(),
        aid_opt_view(out) == rename_aid_result(ai@, r@),
{
    let b = renamed_applied_id(ai, r);
    if !b.m.is_bijection() {
        return None;
    }
    Some(b)
}

/// Whether some slot of `c` is bound in `mu` to an applied id that uses `v`.
pub open spec fn occ_spec(mu: Map<Slot, AppliedIdView>, c: AppliedIdView, v: Slot) -> bool {
    exists|x: Slot|
        #[trigger] applied_slots(c).contains(x) && mu.dom().contains(x) && applied_slots(
            mu[x],
        ).contains(v)
}

/// Occurs check through the bindings of `mu`: does `v` occur in the image of a slot of `c`?
pub fn occ(mu: &Unifier, c: &AppliedId, v: &Slot) -> (r: bool)
    requires
        mu.wf(),
        c.wf(),
    ensures
        r == occ_spec(mu@, c@, *v),
{
    let n = c.m.pairs.len();
    let mut i: usize = 0;
    while i < n
        invariant
            mu.wf(),
            c.wf(),
            n == c.m.pairs@.len(),
            0 <= i <= n,
            forall|j: int|
                0 <= j < i ==> !(mu@.dom().contains(#[trigger] c.m.pairs@[j].1) && applied_slots(
                    mu@[c.m.pairs@[j].1],
                ).contains(*v)),
        decreases n - i,
    {
        let x = c.m.entry(i).1;
        match mu.get(x) {
            Some(c_bis) => {
                if c_bis.has_slot(*v) {
                    proof {
                        lemma_key_pos(c.m.pairs@, i as int);
                        assert(c.m@[c.m.pairs@[i as int].0] == x);
                        assert(applied_slots(c@).contains(x));
                    }
                    return true;
                }
            },
            None => {},
        }
        i = i + 1;
    }
    proof {
        if occ_spec(mu@, c@, *v) {
            let x = choose|x: Slot|
                #[trigger] applied_slots(c@).contains(x) && mu@.dom().contains(x) && applied_slots(
                    mu@[x],
                ).contains(*v);
            let k = choose|k: Slot| c.m@.dom().contains(k) && #[trigger] c.m@[k] == x;
            let p = key_pos(c.m.pairs@, k);
            lemma_key_pos(c.m.pairs@, p);
            assert(c.m.pairs@[p].1 == x);
        }
    }
    false
}

/// Transports a unifier along a slot renaming `r` (identity outside of `r`).
/// Returns `None` on any slot collision.
pub fn rename_unifier(sigma: &Unifier, r: &SlotMap) -> (out: Option<Unifier>)
    requires
        sigma.wf(),
        r.wf(),
    ensures
        out matches Some(u) ==> u.wf(),
        unifier_opt_view(out) == rename_unifier_result(sigma@, r@),
{
    let mut out = Unifier::new();
    let n = sigma.entries.len();
    let ghost e = sigma.entries@;
    let mut i: usize = 0;
    while i < n
        invariant
            sigma.wf(),
            r.wf(),
            out.wf(),
            e == sigma.entries@,
            n == e.len(),
            0 <= i <= n,
            forall|j: int|
                0 <= j < i ==> out@.dom().contains(rename(r@, #[trigger] e[j].0)) && out@[rename(
                    r@,
                    e[j].0,
                )] == renamed_aid(e[j].1@, r@),
            forall|k: Slot|
                #[trigger] out@.dom().contains(k) ==> exists|j: int|
                    0 <= j < i && rename(r@, #[trigger] e[j].0) == k,
            forall|j1: int, j2: int|
                0 <= j1 < j2 < i ==> rename(r@, #[trigger] e[j1].0) != rename(r@, #[trigger] e[j2].0),
            forall|j: int| 0 <= j < i ==> injective(renamed_map((#[trigger] e[j]).1@.1, r@)),
        decreases n - i,
    {
        let s = sigma.entries[i].0;
        let key = rename_slot(r, s);
        if out.contains_key(key) {
            proof {
                let j = choose|j: int| 0 <= j < i && rename(r@, #[trigger] e[j].0) == key;
                sigma.lemma_entry(j);
                sigma.lemma_entry(i as int);
                assert(e[j].0 < e[i as int].0);
                assert(!unifier_renamable(sigma@, r@));
            }
            return None;
        }
        match rename_applied_id(&sigma.entries[i].1, r) {
            None => {
                proof {
                    sigma.lemma_entry(i as int);
                    assert(!unifier_renamable(sigma@, r@));
                }
                return None;
            },
            Some(b) => {
                let ghost old_out = out@;
                out.insert(key, b);
                proof {
                    assert forall|k: Slot| #[trigger] out@.dom().contains(k) implies exists|j: int|
                        0 <= j < i + 1 && rename(r@, #[trigger] e[j].0) == k by {
                        if k != key {
                            assert(old_out.dom().contains(k));
                        } else {
                            assert(rename(r@, e[i as int].0) == k);
                        }
                    }
                    assert forall|j: int| 0 <= j < i + 1 implies out@.dom().contains(
                        rename(r@, #[trigger] e[j].0),
                    ) && out@[rename(r@, e[j].0)] == renamed_aid(e[j].1@, r@) by {
                        if j < i {
                            assert(old_out.dom().contains(rename(r@, e[j].0)));
                        }
                    }
                }
            },
        }
        i = i + 1;
    }
    proof {
        let m = sigma@;
        assert forall|s1: Slot, s2: Slot|
            m.dom().contains(s1) && m.dom().contains(s2) && s1 != s2 implies #[trigger] rename(r@, s1)
            != #[trigger] rename(r@, s2) by {
            sigma.lemma_key(s1);
            sigma.lemma_key(s2);
            let j1 = key_pos(e, s1);
            let j2 = key_pos(e, s2);
            if j1 < j2 {
                assert(rename(r@, e[j1].0) != rename(r@, e[j2].0));
            } else {
                assert(rename(r@, e[j2].0) != rename(r@, e[j1].0));
            }
        }
        assert forall|s: Slot| #[trigger] m.dom().contains(s) implies injective(
            renamed_map(m[s].1, r@),
        ) by {
            sigma.lemma_key(s);
            let j = key_pos(e, s);
            assert(injective(renamed_map(e[j].1@.1, r@)));
        }
        assert(unifier_renamable(m, r@));
        let target = renamed_unifier(m, r@);
        assert forall|k: Slot| #[trigger] out@.dom().contains(k) <==> target.dom().contains(k) by {
            if out@.dom().contains(k) {
                let j = choose|j: int| 0 <= j < n && rename(r@, #[trigger] e[j].0) == k;
                sigma.lemma_entry(j);
                assert(m.dom().contains(e[j].0) && rename(r@, e[j].0) == k);
            }
            if target.dom().contains(k) {
                let s = choose|s: Slot| m.dom().contains(s) && #[trigger] rename(r@, s) == k;
                sigma.lemma_key(s);
                let j = key_pos(e, s);
                assert(out@.dom().contains(rename(r@, e[j].0)));
            }
        }
        assert forall|k: Slot| #[trigger] out@.dom().contains(k) implies out@[k] == target[k] by {
            let s = choose|s: Slot| m.dom().contains(s) && #[trigger] rename(r@, s) == k;
            let j = choose|j: int| 0 <= j < n && rename(r@, #[trigger] e[j].0) == k;
            sigma.lemma_entry(j);
            sigma.lemma_key(s);
            let js = key_pos(e, s);
            if js != j {
                if js < j {
                    assert(rename(r@, e[js].0) != rename(r@, e[j].0));
                } else {
                    assert(rename(r@, e[j].0) != rename(r@, e[js].0));
                }
            }
        }
        assert(out@ =~= target);
    }
    Some(out)
}

/// Every parameter slot that the representative fills is filled by the new invocation too.
pub open spec fn renaming_defined(repr: AppliedIdView, new: AppliedIdView) -> bool {
    forall|i: Slot| #[trigger] repr.1.dom().contains(i) ==> new.1.dom().contains(i)
}

/// The pairs (representative slot, new slot) that the two invocations induce agree with
/// one another on every representative slot.
pub open spec fn renaming_consistent(
    ra: AppliedIdView,
    rb: AppliedIdView,
    a: AppliedIdView,
    b: AppliedIdView,
) -> bool {
    &&& forall|i: Slot, j: Slot|
        ra.1.dom().contains(i) && ra.1.dom().contains(j) && #[trigger] ra.1[i] == #[trigger] ra.1[j]
            ==> a.1[i] == a.1[j]
    &&& forall|i: Slot, j: Slot|
        rb.1.dom().contains(i) && rb.1.dom().contains(j) && #[trigger] rb.1[i] == #[trigger] rb.1[j]
            ==> b.1[i] == b.1[j]
    &&& forall|i: Slot, j: Slot|
        ra.1.dom().contains(i) && rb.1.dom().contains(j) && #[trigger] ra.1[i] == #[trigger] rb.1[j]
            ==> a.1[i] == b.1[j]
}

/// The renaming from the representatives' slots to the slots of `a` and `b`.
pub open spec fn pair_map(
    ra: AppliedIdView,
    rb: AppliedIdView,
    a: AppliedIdView,
    b: AppliedIdView,
) -> Map<Slot, Slot> {
    Map::new(
        |x: Slot| map_values(ra.1).contains(x) || map_values(rb.1).contains(x),
        |x: Slot|
            if map_values(ra.1).contains(x) {
                a.1[choose|i: Slot| ra.1.dom().contains(i) && #[trigger] ra.1[i] == x]
            } else {
                b.1[choose|j: Slot| rb.1.dom().contains(j) && #[trigger] rb.1[j] == x]
            },
    )
}

/// What `pair_renaming` gives: the renaming where it is defined, consistent and
/// collapses no two slots.
pub open spec fn pair_renaming_result(
    ra: AppliedIdView,
    rb: AppliedIdView,
    a: AppliedIdView,
    b: AppliedIdView,
) -> Option<Map<Slot, Slot>> {
    if renaming_defined(ra, a) && renaming_defined(rb, b) && renaming_consistent(ra, rb, a, b)
        && injective(pair_map(ra, rb, a, b)) {
        Some(pair_map(ra, rb, a, b))
    } else {
        None
    }
}

/// The view of an optional slot map.
pub open spec fn slotmap_opt_view(o: Option<SlotMap>) -> Option<Map<Slot, Slot>> {
    match o {
        Some(m) => Some(m@),
        None => None,
    }
}

/// The renaming that takes the slots of the representatives `ra`, `rb` to those of `a`, `b`,
/// read off parameter slot by parameter slot; `None` where a parameter slot of a
/// representative is not filled, where two readings disagree, or where two slots collapse.
pub fn pair_renaming(ra: &AppliedId, rb: &AppliedId, a: &AppliedId, b: &AppliedId) -> (out: Option<
    SlotMap,
>)
    requires
        ra.wf(),
        rb.wf(),
        a.wf(),
        b.wf(),
    ensures
        out matches Some(m) ==> m.wf(),
        slotmap_opt_view(out) == pair_renaming_result(ra@, rb@, a@, b@),
{
    let mut r = SlotMap::new();
    let ghost pa = ra.m.pairs@;
    let ghost pb = rb.m.pairs@;
    let na = ra.m.pairs.len();
    let nb = rb.m.pairs.len();
    let mut i: usize = 0;
    while i < na
        invariant
            ra.wf(),
            rb.wf(),
            a.wf(),
            b.wf(),
            r.wf(),
            pa == ra.m.pairs@,
            na == pa.len(),
            0 <= i <= na,
            forall|j: int| 0 <= j < i ==> a.m@.dom().contains((#[trigger] pa[j]).0),
            forall|j: int|
                0 <= j < i ==> r@.dom().contains((#[trigger] pa[j]).1) && r@[pa[j].1] == a.m@[pa[j].0],
            forall|x: Slot| #[trigger] r@.dom().contains(x) ==> exists|j: int| 0 <= j < i && (#[trigger] pa[j]).1 == x,
        decreases na - i,
    {
        let (internal, ext_repr) = ra.m.entry(i);
        let ext_new = match a.m.get(internal) {
            Some(v) => v,
            None => {
                proof {
                    ra.m.lemma_entry(i as int);
                }
                return None;
            },
        };
        match r.get(ext_repr) {
            Some(t) => {
                if t != ext_new {
                    proof {
                        let j = choose|j: int| 0 <= j < i && (#[trigger] pa[j]).1 == ext_repr;
                        ra.m.lemma_entry(j);
                        ra.m.lemma_entry(i as int);
                        assert(ra@.1[pa[j].0] == ra@.1[pa[i as int].0]);
                        assert(!renaming_consistent(ra@, rb@, a@, b@));
                    }
                    return None;
                }
            },
            None => {
                let ghost old_r = r@;
                r.insert(ext_repr, ext_new);
                proof {
                    assert forall|x: Slot| #[trigger] r@.dom().contains(x) implies exists|j: int|
                        0 <= j < i + 1 && (#[trigger] pa[j]).1 == x by {
                        if x != ext_repr {
                            assert(old_r.dom().contains(x));
                        } else {
                            assert(pa[i as int].1 == x);
                        }
                    }
                    assert forall|j: int| 0 <= j < i + 1 implies r@.dom().contains((#[trigger] pa[j]).1)
                        && r@[pa[j].1] == a.m@[pa[j].0] by {
                        if j < i {
                            assert(old_r.dom().contains(pa[j].1));
                        }
                    }
                }
            },
        }
        i = i + 1;
    }
    let mut i: usize = 0;
    while i < nb
        invariant
            ra.wf(),
            rb.wf(),
            a.wf(),
            b.wf(),
            r.wf(),
            pa == ra.m.pairs@,
            pb == rb.m.pairs@,
            na == pa.len(),
            nb == pb.len(),
            0 <= i <= nb,
            forall|j: int| 0 <= j < na ==> a.m@.dom().contains((#[trigger] pa[j]).0),
            forall|j: int|
                0 <= j < na ==> r@.dom().contains((#[trigger] pa[j]).1) && r@[pa[j].1] == a.m@[pa[j].0],
            forall|j: int| 0 <= j < i ==> b.m@.dom().contains((#[trigger] pb[j]).0),
            forall|j: int|
                0 <= j < i ==> r@.dom().contains((#[trigger] pb[j]).1) && r@[pb[j].1] == b.m@[pb[j].0],
            forall|x: Slot|
                #[trigger] r@.dom().contains(x) ==> (exists|j: int| 0 <= j < na && (#[trigger] pa[j]).1 == x)
                    || (exists|j: int| 0 <= j < i && (#[trigger] pb[j]).1 == x),
        decreases nb - i,
    {
        let (internal, ext_repr) = rb.m.entry(i);
        let ext_new = match b.m.get(internal) {
            Some(v) => v,
            None => {
                proof {
                    rb.m.lemma_entry(i as int);
                }
                return None;
            },
        };
        match r.get(ext_repr) {
            Some(t) => {
                if t != ext_new {
                    proof {
                        rb.m.lemma_entry(i as int);
                        if exists|j: int| 0 <= j < na && (#[trigger] pa[j]).1 == ext_repr {
                            let j = choose|j: int| 0 <= j < na && (#[trigger] pa[j]).1 == ext_repr;
                            ra.m.lemma_entry(j);
                            assert(ra@.1[pa[j].0] == rb@.1[pb[i as int].0]);
                        } else {
                            let j = choose|j: int| 0 <= j < i && (#[trigger] pb[j]).1 == ext_repr;
                            rb.m.lemma_entry(j);
                            assert(rb@.1[pb[j].0] == rb@.1[pb[i as int].0]);
                        }
                        assert(!renaming_consistent(ra@, rb@, a@, b@));
                    }
                    return None;
                }
            },
            None => {
                let ghost old_r = r@;
                r.insert(ext_repr, ext_new);
                proof {
                    assert forall|x: Slot| #[trigger] r@.dom().contains(x) implies (exists|j: int|
                        0 <= j < na && (#[trigger] pa[j]).1 == x) || (exists|j: int|
                        0 <= j < i + 1 && (#[trigger] pb[j]).1 == x) by {
                        if x != ext_repr {
                            assert(old_r.dom().contains(x));
                        } else {
                            assert(pb[i as int].1 == x);
                        }
                    }
                    assert forall|j: int| 0 <= j < na implies r@.dom().contains((#[trigger] pa[j]).1)
                        && r@[pa[j].1] == a.m@[pa[j].0] by {
                        assert(old_r.dom().contains(pa[j].1));
                    }
                    assert forall|j: int| 0 <= j < i + 1 implies r@.dom().contains((#[trigger] pb[j]).1)
                        && r@[pb[j].1] == b.m@[pb[j].0] by {
                        if j < i {
                            assert(old_r.dom().contains(pb[j].1));
                        }
                    }
                }
            },
        }
        i = i + 1;
    }
    proof {
        assert forall|s: Slot| #[trigger] ra@.1.dom().contains(s) implies a@.1.dom().contains(s) by {
            ra.m.lemma_key(s);
            assert(pa[key_pos(pa, s)].0 == s);
        }
        assert forall|s: Slot| #[trigger] rb@.1.dom().contains(s) implies b@.1.dom().contains(s) by {
            rb.m.lemma_key(s);
            assert(pb[key_pos(pb, s)].0 == s);
        }
        assert forall|p: Slot, q: Slot|
            ra@.1.dom().contains(p) && ra@.1.dom().contains(q) && #[trigger] ra@.1[p]
                == #[trigger] ra@.1[q] implies a@.1[p] == a@.1[q] by {
            ra.m.lemma_key(p);
            ra.m.lemma_key(q);
            assert(r@[pa[key_pos(pa, p)].1] == a.m@[pa[key_pos(pa, p)].0]);
            assert(r@[pa[key_pos(pa, q)].1] == a.m@[pa[key_pos(pa, q)].0]);
        }
        assert forall|p: Slot, q: Slot|
            rb@.1.dom().contains(p) && rb@.1.dom().contains(q) && #[trigger] rb@.1[p]
                == #[trigger] rb@.1[q] implies b@.1[p] == b@.1[q] by {
            rb.m.lemma_key(p);
            rb.m.lemma_key(q);
            assert(r@[pb[key_pos(pb, p)].1] == b.m@[pb[key_pos(pb, p)].0]);
            assert(r@[pb[key_pos(pb, q)].1] == b.m@[pb[key_pos(pb, q)].0]);
        }
        assert forall|p: Slot, q: Slot|
            ra@.1.dom().contains(p) && rb@.1.dom().contains(q) && #[trigger] ra@.1[p]
                == #[trigger] rb@.1[q] implies a@.1[p] == b@.1[q] by {
            ra.m.lemma_key(p);
            rb.m.lemma_key(q);
            assert(r@[pa[key_pos(pa, p)].1] == a.m@[pa[key_pos(pa, p)].0]);
            assert(r@[pb[key_pos(pb, q)].1] == b.m@[pb[key_pos(pb, q)].0]);
        }
        let target = pair_map(ra@, rb@, a@, b@);
        assert forall|x: Slot| #[trigger] r@.dom().contains(x) <==> target.dom().contains(x) by {
            if r@.dom().contains(x) {
                if exists|j: int| 0 <= j < na && (#[trigger] pa[j]).1 == x {
                    let j = choose|j: int| 0 <= j < na && (#[trigger] pa[j]).1 == x;
                    ra.m.lemma_entry(j);
                } else {
                    let j = choose|j: int| 0 <= j < nb && (#[trigger] pb[j]).1 == x;
                    rb.m.lemma_entry(j);
                }
            }
            if map_values(ra@.1).contains(x) {
                let s = choose|s: Slot| ra@.1.dom().contains(s) && #[trigger] ra@.1[s] == x;
                ra.m.lemma_key(s);
                assert(r@.dom().contains(pa[key_pos(pa, s)].1));
            }
            if map_values(rb@.1).contains(x) {
                let s = choose|s: Slot| rb@.1.dom().contains(s) && #[trigger] rb@.1[s] == x;
                rb.m.lemma_key(s);
                assert(r@.dom().contains(pb[key_pos(pb, s)].1));
            }
        }
        assert forall|x: Slot| #[trigger] r@.dom().contains(x) implies r@[x] == target[x] by {
            if map_values(ra@.1).contains(x) {
                let s = choose|s: Slot| ra@.1.dom().contains(s) && #[trigger] ra@.1[s] == x;
                ra.m.lemma_key(s);
                assert(r@[pa[key_pos(pa, s)].1] == a.m@[pa[key_pos(pa, s)].0]);
            } else {
                assert(map_values(rb@.1).contains(x));
                let s = choose|s: Slot| rb@.1.dom().contains(s) && #[trigger] rb@.1[s] == x;
                rb.m.lemma_key(s);
                assert(r@[pb[key_pos(pb, s)].1] == b.m@[pb[key_pos(pb, s)].0]);
            }
        }
        assert(r@ =~= target);
    }
    if !r.is_bijection() {
        return None;
    }
    Some(r)
}

/// The sequence with later repetitions of an element left out.
pub open spec fn dedup<T>(s: Seq<T>) -> Seq<T>
    decreases s.len(),
{
    if s.len() == 0 {
        s
    } else {
        let d = dedup(s.drop_last());
        if d.contains(s.last()) {
            d
        } else {
            d.push(s.last())
        }
    }
}

/// The views of a sequence of unifiers.
pub open spec fn unifiers_view(v: Seq<Unifier>) -> Seq<Map<Slot, AppliedIdView>> {
    v.map_values(|u: Unifier| u@)
}

/// What transporting memoised results gives: the results renamed along the pair renaming,
/// without repetitions, where the renaming exists, takes the memoised context to `mu`,
/// and applies to every result.
pub open spec fn transport_result(
    ra: AppliedIdView,
    rb: AppliedIdView,
    mu_repr: Map<Slot, AppliedIdView>,
    results: Seq<Map<Slot, AppliedIdView>>,
    a: AppliedIdView,
    b: AppliedIdView,
    mu: Map<Slot, AppliedIdView>,
) -> Option<Seq<Map<Slot, AppliedIdView>>> {
    match pair_renaming_result(ra, rb, a, b) {
        None => None,
        Some(r) => if rename_unifier_result(mu_repr, r) != Some(mu) {
            None
        } else if forall|i: int| 0 <= i < results.len() ==> unifier_renamable(#[trigger] results[i], r) {
            Some(dedup(results.map_values(|u: Map<Slot, AppliedIdView>| renamed_unifier(u, r))))
        } else {
            None
        },
    }
}

/// The views of an optional sequence of unifiers.
pub open spec fn unifiers_opt_view(o: Option<Vec<Unifier>>) -> Option<Seq<Map<Slot, AppliedIdView>>> {
    match o {
        Some(v) => Some(unifiers_view(v@)),
        None => None,
    }
}

/// Whether a unifier equal to `u` is in `v`.
pub fn contains_unifier(v: &Vec<Unifier>, u: &Unifier) -> (r: bool)
    requires
        u.wf(),
        forall|i: int| 0 <= i < v@.len() ==> (#[trigger] v@[i]).wf(),
    ensures
        r == unifiers_view(v@).contains(u@),
{
    let mut i: usize = 0;
    while i < v.len()
        invariant
            u.wf(),
            forall|i: int| 0 <= i < v@.len() ==> (#[trigger] v@[i]).wf(),
            0 <= i <= v@.len(),
            forall|j: int| 0 <= j < i ==> (#[trigger] v@[j])@ != u@,
        decreases v@.len() - i,
    {
        if v[i].equals(u) {
            assert(unifiers_view(v@)[i as int] == u@);
            return true;
        }
        i = i + 1;
    }
    proof {
        if unifiers_view(v@).contains(u@) {
            let j = choose|j: int| 0 <= j < v@.len() && unifiers_view(v@)[j] == u@;
            assert(v@[j]@ == u@);
        }
    }
    false
}

/// Adds `u` to `l` unless an equal unifier is there already.
pub fn push_unique_unifier(l: &mut Vec<Unifier>, u: Unifier)
    requires
        u.wf(),
        forall|i: int| 0 <= i < old(l)@.len() ==> (#[trigger] old(l)@[i]).wf(),
    ensures
        forall|i: int| 0 <= i < final(l)@.len() ==> (#[trigger] final(l)@[i]).wf(),
        final(l)@ == (if unifiers_view(old(l)@).contains(u@) {
            old(l)@
        } else {
            old(l)@.push(u)
        }),
{
    if !contains_unifier(l, &u) {
        l.push(u);
    }
}

/// Carries memoised unification results over from the representatives `ra`, `rb` (with
/// context `mu_repr`) to the invocations `a`, `b` with context `mu`, when the renaming
/// between them exists and takes the one context to the other.
pub fn transport_results(
    ra: &AppliedId,
    rb: &AppliedId,
    mu_repr: &Unifier,
    results: &Vec<Unifier>,
    a: &AppliedId,
    b: &AppliedId,
    mu: &Unifier,
) -> (out: Option<Vec<Unifier>>)
    requires
        ra.wf(),
        rb.wf(),
        a.wf(),
        b.wf(),
        mu_repr.wf(),
        mu.wf(),
        forall|i: int| 0 <= i < results@.len() ==> (#[trigger] results@[i]).wf(),
    ensures
        out matches Some(v) ==> forall|i: int| 0 <= i < v@.len() ==> (#[trigger] v@[i]).wf(),
        unifiers_opt_view(out) == transport_result(
            ra@,
            rb@,
            mu_repr@,
            unifiers_view(results@),
            a@,
            b@,
            mu@,
        ),
{
    let r = match pair_renaming(ra, rb, a, b) {
        Some(r) => r,
        None => return None,
    };
    let m = match rename_unifier(mu_repr, &r) {
        Some(m) => m,
        None => return None,
    };
    assert(pair_renaming_result(ra@, rb@, a@, b@) == Some(r@));
    assert(rename_unifier_result(mu_repr@, r@) == Some(m@));
    if !m.equals(mu) {
        return None;
    }
    let ghost rv = unifiers_view(results@);
    let ghost f = |u: Map<Slot, AppliedIdView>| renamed_unifier(u, r@);
    let mut out: Vec<Unifier> = Vec::new();
    let mut i: usize = 0;
    while i < results.len()
        invariant
            r.wf(),
            rv == unifiers_view(results@),
            pair_renaming_result(ra@, rb@, a@, b@) == Some(r@),
            rename_unifier_result(mu_repr@, r@) == Some(mu@),
            f == (|u: Map<Slot, AppliedIdView>| renamed_unifier(u, r@)),
            forall|i: int| 0 <= i < results@.len() ==> (#[trigger] results@[i]).wf(),
            0 <= i <= results@.len(),
            forall|j: int| 0 <= j < i ==> unifier_renamable(#[trigger] rv[j], r@),
            forall|j: int| 0 <= j < out@.len() ==> (#[trigger] out@[j]).wf(),
            unifiers_view(out@) == dedup(rv.subrange(0, i as int).map_values(f)),
        decreases results@.len() - i,
    {
        let t = match rename_unifier(&results[i], &r) {
            Some(t) => t,
            None => {
                assert(!unifier_renamable(rv[i as int], r@));
                assert(transport_result(ra@, rb@, mu_repr@, rv, a@, b@, mu@) is None);
                return None;
            },
        };
        let ghost prev = rv.subrange(0, i as int).map_values(f);
        let ghost next = rv.subrange(0, i + 1).map_values(f);
        assert(next.drop_last() =~= prev);
        assert(next.last() == t@);
        if !contains_unifier(&out, &t) {
            out.push(t);
            assert(unifiers_view(out@) =~= dedup(next));
        } else {
            assert(unifiers_view(out@) =~= dedup(next));
        }
        i = i + 1;
    }
    assert(rv.subrange(0, i as int) =~= rv);
    Some(out)
}

/// A renaming that moves no slot leaves every substitution as it is, when its applied
/// ids collapse no slots (as applied ids never do).
pub proof fn lemma_rename_unifier_fixed(sigma: Map<Slot, AppliedIdView>, r: Map<Slot, Slot>)
    requires
        forall|s: Slot| #[trigger] rename(r, s) == s,
        forall|s: Slot| #[trigger] sigma.dom().contains(s) ==> injective(sigma[s].1),
    ensures
        rename_unifier_result(sigma, r) == Some(sigma),
        renamed_unifier(sigma, r) == sigma,
        forall|a: AppliedIdView| injective(a.1) ==> #[trigger] rename_aid_result(a, r) == Some(a),
{
    assert forall|m: Map<Slot, Slot>| #[trigger] renamed_map(m, r) == m by {
        assert forall|k: Slot| #[trigger] m.dom().contains(k) implies renamed_map(m, r)[k] == m[k] by {
            assert(rename(r, m[k]) == m[k]);
        }
        assert(renamed_map(m, r) =~= m);
    }
    assert forall|a: AppliedIdView| injective(a.1) implies #[trigger] rename_aid_result(a, r) == Some(a) by {
        assert(renamed_map(a.1, r) == a.1);
    }
    assert forall|s: Slot| #[trigger] sigma.dom().contains(s) implies injective(renamed_map(sigma[s].1, r)) by {
        assert(renamed_map(sigma[s].1, r) == sigma[s].1);
    }
    let target = renamed_unifier(sigma, r);
    assert forall|k: Slot| #[trigger] target.dom().contains(k) <==> sigma.dom().contains(k) by {
        if sigma.dom().contains(k) {
            assert(rename(r, k) == k);
        }
        if target.dom().contains(k) {
            let s = choose|s: Slot| sigma.dom().contains(s) && #[trigger] rename(r, s) == k;
            assert(rename(r, s) == s);
        }
    }
    assert forall|k: Slot| #[trigger] target.dom().contains(k) implies target[k] == sigma[k] by {
        let s = choose|s: Slot| sigma.dom().contains(s) && #[trigger] rename(r, s) == k;
        assert(rename(r, s) == s);
        assert(renamed_map(sigma[s].1, r) == sigma[s].1);
    }
    assert(target =~= sigma);
}

/// Transporting along the empty renaming gives back the substitution itself.
pub proof fn lemma_rename_unifier_empty(sigma: Map<Slot, AppliedIdView>)
    requires
        forall|s: Slot| #[trigger] sigma.dom().contains(s) ==> injective(sigma[s].1),
    ensures
        rename_unifier_result(sigma, Map::empty()) == Some(sigma),
        forall|a: AppliedIdView| injective(a.1) ==> #[trigger] rename_aid_result(a, Map::empty()) == Some(a),
{
    lemma_rename_unifier_fixed(sigma, Map::empty());
}

/// A sequence without repetitions is its own `dedup`.
pub proof fn lemma_dedup_distinct<T>(s: Seq<T>)
    requires
        s.no_duplicates(),
    ensures
        dedup(s) == s,
    decreases s.len(),
{
    if s.len() > 0 {
        let p = s.drop_last();
        assert(p.no_duplicates());
        lemma_dedup_distinct(p);
        assert(!p.contains(s.last())) by {
            if p.contains(s.last()) {
                let i = choose|i: int| 0 <= i < p.len() && p[i] == s.last();
                assert(s[i] == s[s.len() - 1]);
            }
        }
        assert(p.push(s.last()) =~= s);
    }
}

/// A memoised entry looked up for the very pair and context it was stored for gives
/// back its results, without repetitions: transporting along the identity renaming
/// changes nothing.
pub proof fn lemma_transport_same_pair(
    a: AppliedIdView,
    b: AppliedIdView,
    mu: Map<Slot, AppliedIdView>,
    results: Seq<Map<Slot, AppliedIdView>>,
)
    requires
        forall|s: Slot| #[trigger] mu.dom().contains(s) ==> injective(mu[s].1),
        forall|i: int, s: Slot|
            0 <= i < results.len() && #[trigger] results[i].dom().contains(s) ==> injective(
                results[i][s].1,
            ),
    ensures
        transport_result(a, b, mu, results, a, b, mu) == Some(dedup(results)),
        results.no_duplicates() ==> transport_result(a, b, mu, results, a, b, mu) == Some(results),
{
    let r = pair_map(a, b, a, b);
    assert forall|x: Slot| #[trigger] rename(r, x) == x by {
        if r.dom().contains(x) {
            if map_values(a.1).contains(x) {
                let i = choose|i: Slot| a.1.dom().contains(i) && #[trigger] a.1[i] == x;
                assert(r[x] == a.1[i]);
            } else {
                let j = choose|j: Slot| b.1.dom().contains(j) && #[trigger] b.1[j] == x;
                assert(r[x] == b.1[j]);
            }
        }
    }
    assert forall|x: Slot, y: Slot|
        r.dom().contains(x) && r.dom().contains(y) && x != y implies #[trigger] r[x] != #[trigger] r[y] by {
        assert(rename(r, x) == x);
        assert(rename(r, y) == y);
    }
    assert(renaming_defined(a, a));
    assert(renaming_defined(b, b));
    assert(renaming_consistent(a, b, a, b));
    assert(pair_renaming_result(a, b, a, b) == Some(r));
    lemma_rename_unifier_fixed(mu, r);
    assert forall|i: int| 0 <= i < results.len() implies unifier_renamable(#[trigger] results[i], r) by {
        assert forall|s: Slot| #[trigger] results[i].dom().contains(s) implies injective(results[i][s].1) by {}
        lemma_rename_unifier_fixed(results[i], r);
    }
    let f = |u: Map<Slot, AppliedIdView>| renamed_unifier(u, r);
    assert forall|i: int| 0 <= i < results.len() implies #[trigger] results.map_values(f)[i] == results[i] by {
        assert forall|s: Slot| #[trigger] results[i].dom().contains(s) implies injective(results[i][s].1) by {}
        lemma_rename_unifier_fixed(results[i], r);
    }
    assert(results.map_values(f) =~= results);
    if results.no_duplicates() {
        lemma_dedup_distinct(results);
    }
}

/// A memo entry of unification between two classes: still being computed, or done with
/// the representatives, the context and the results it was computed for.
pub enum MguMemoEntry {
    InProgress,
    Done(AppliedId, AppliedId, Unifier, Vec<Unifier>),
}

/// The views of the entries of a memo of images.
pub open spec fn memo_view(s: Seq<(AppliedId, AppliedId)>) -> Seq<(AppliedIdView, AppliedIdView)> {
    s.map_values(|e: (AppliedId, AppliedId)| (e.0@, e.1@))
}

/// The keys and images of the memo are well formed.
pub open spec fn memo_wf(s: Seq<(AppliedId, AppliedId)>) -> bool {
    forall|i: int| 0 <= i < s.len() ==> (#[trigger] s[i]).0.wf() && s[i].1.wf()
}

/// How a class is instantiated by a unifier.
pub enum SigmaEntry {
    /// The unifier binds none of its slots: the class is its own image.
    Unbound,
    /// Its image was memoised.
    Memo(AppliedId),
    /// It is being instantiated already: no image.
    Cycle,
    /// Its image is built from its e-nodes.
    Expand,
}

/// The state of one instantiation of a unifier over the e-graph.
pub struct ApplyCtx<'a> {
    pub mu: &'a Unifier,
    pub memo: Vec<(AppliedId, AppliedId)>,
    pub in_progress: Vec<AppliedId>,
    pub changed: Vec<AppliedId>,
    pub budget: usize,
}

impl<'a> ApplyCtx<'a> {
    /// A fresh context for `mu`: nothing memoised, nothing changed, a budget of 10 000
    /// class visits.
    pub fn new(mu: &'a Unifier) -> (r: ApplyCtx<'a>)
        ensures
            r.mu == mu,
            r.memo@.len() == 0,
            r.in_progress@.len() == 0,
            r.changed@.len() == 0,
            r.budget == 10_000,
    {
        ApplyCtx {
            mu,
            memo: Vec::new(),
            in_progress: Vec::new(),
            changed: Vec::new(),
            budget: 10_000,
        }
    }

    /// The applied id memoised for `c`: the value of the first entry whose key is `c`.
    pub fn memo_get(&self, c: &AppliedId) -> (r: Option<AppliedId>)
        requires
            c.wf(),
            memo_wf(self.memo@),
        ensures
            r is None <==> !(exists|i: int| 0 <= i < self.memo@.len() && (#[trigger] self.memo@[i]).0@ == c@),
            r matches Some(v) ==> v.wf() && exists|i: int|
                0 <= i < self.memo@.len() && (#[trigger] self.memo@[i]).0@ == c@ && v@ == self.memo@[i].1@
                    && forall|j: int| 0 <= j < i ==> (#[trigger] self.memo@[j]).0@ != c@,
    {
        let mut i: usize = 0;
        while i < self.memo.len()
            invariant
                c.wf(),
                memo_wf(self.memo@),
                0 <= i <= self.memo@.len(),
                forall|j: int| 0 <= j < i ==> (#[trigger] self.memo@[j]).0@ != c@,
            decreases self.memo@.len() - i,
        {
            if self.memo[i].0.equals(c) {
                return Some(self.memo[i].1.duplicate());
            }
            i = i + 1;
        }
        None
    }

    /// Memoises `v` for `c`, in place of what was memoised for it.
    pub fn memo_insert(&mut self, c: AppliedId, v: AppliedId)
        requires
            c.wf(),
            v.wf(),
            memo_wf(old(self).memo@),
        ensures
            memo_wf(final(self).memo@),
            memo_view(final(self).memo@) == without(
                memo_view(old(self).memo@),
                |e: (AppliedIdView, AppliedIdView)| e.0 == c@,
            ).push((c@, v@)),
            final(self).mu == old(self).mu,
            final(self).in_progress == old(self).in_progress,
            final(self).changed == old(self).changed,
            final(self).budget == old(self).budget,
    {
        let ghost bad = |e: (AppliedIdView, AppliedIdView)| e.0 == c@;
        let ghost src = self.memo@;
        let mut out: Vec<(AppliedId, AppliedId)> = Vec::new();
        let mut i: usize = 0;
        while i < self.memo.len()
            invariant
                self.memo@ == src,
                memo_wf(src),
                c.wf(),
                bad == (|e: (AppliedIdView, AppliedIdView)| e.0 == c@),
                0 <= i <= src.len(),
                memo_wf(out@),
                memo_view(out@) == without(memo_view(src.subrange(0, i as int)), bad),
            decreases src.len() - i,
        {
            let same = self.memo[i].0.equals(&c);
            let ghost prev = memo_view(src.subrange(0, i as int));
            let ghost next = memo_view(src.subrange(0, i + 1));
            assert(next.drop_last() =~= prev);
            assert(next.last() == (src[i as int].0@, src[i as int].1@));
            if !same {
                let e = (self.memo[i].0.duplicate(), self.memo[i].1.duplicate());
                out.push(e);
                assert(memo_view(out@) =~= without(next, bad));
            } else {
                assert(memo_view(out@) =~= without(next, bad));
            }
            i = i + 1;
        }
        assert(src.subrange(0, i as int) =~= src);
        let ghost kept = out@;
        out.push((c, v));
        assert(memo_view(out@) =~= memo_view(kept).push((c@, v@)));
        self.memo = out;
    }

    /// Spends one unit of the budget; `false` where none is left.
    pub fn take_budget(&mut self) -> (r: bool)
        ensures
            r == (old(self).budget > 0),
            final(self).budget == (if r {
                old(self).budget - 1
            } else {
                old(self).budget as int
            }),
            final(self).mu == old(self).mu,
            final(self).memo == old(self).memo,
            final(self).in_progress == old(self).in_progress,
            final(self).changed == old(self).changed,
    {
        if self.budget == 0 {
            return false;
        }
        self.budget = self.budget - 1;
        true
    }

    /// How the class `c` (taken as it is now) is instantiated: as itself where `mu`
    /// binds none of its slots; by its memoised image; not at all where it is being
    /// instantiated already (a cycle); otherwise through its e-nodes, and it is then
    /// marked as being instantiated.
    pub fn sigma_entry(&mut self, c: &AppliedId) -> (r: SigmaEntry)
        requires
            c.wf(),
            old(self).mu.wf(),
            memo_wf(old(self).memo@),
            crate::worklist::all_wf(old(self).in_progress@),
        ensures
            final(self).mu == old(self).mu,
            final(self).memo == old(self).memo,
            final(self).changed == old(self).changed,
            final(self).budget == old(self).budget,
            crate::worklist::all_wf(final(self).in_progress@),
            r is Memo ==> r->Memo_0.wf(),
            crate::subsumption::avoids_slots(old(self).mu@, c@) ==> r is Unbound
                && final(self).in_progress == old(self).in_progress,
            !crate::subsumption::avoids_slots(old(self).mu@, c@) ==> match r {
                SigmaEntry::Memo(v) => exists|i: int|
                    0 <= i < old(self).memo@.len() && (#[trigger] old(self).memo@[i]).0@ == c@ && v@
                        == old(self).memo@[i].1@ && forall|j: int|
                        0 <= j < i ==> (#[trigger] old(self).memo@[j]).0@ != c@,
                _ => !(exists|i: int|
                    0 <= i < old(self).memo@.len() && (#[trigger] old(self).memo@[i]).0@ == c@),
            },
            !crate::subsumption::avoids_slots(old(self).mu@, c@) && !(exists|i: int|
                0 <= i < old(self).memo@.len() && (#[trigger] old(self).memo@[i]).0@ == c@) ==> if crate::worklist::aids_view(
                old(self).in_progress@,
            ).contains(c@) {
                r is Cycle && final(self).in_progress == old(self).in_progress
            } else {
                r is Expand && crate::worklist::aids_view(final(self).in_progress@)
                    == crate::worklist::aids_view(old(self).in_progress@).push(c@)
            },
    {
        if !crate::subsumption::binds_slot_of(self.mu, c) {
            return SigmaEntry::Unbound;
        }
        match self.memo_get(c) {
            Some(v) => {
                return SigmaEntry::Memo(v);
            },
            None => {},
        }
        if crate::worklist::contains_aid(&self.in_progress, c) {
            return SigmaEntry::Cycle;
        }
        let ghost before = self.in_progress@;
        self.in_progress.push(c.duplicate());
        assert(crate::worklist::aids_view(self.in_progress@) =~= crate::worklist::aids_view(before).push(c@));
        SigmaEntry::Expand
    }

    /// Ends the instantiation of `c`: it is no longer marked as being instantiated.
    pub fn sigma_exit(&mut self, c: &AppliedId)
        requires
            c.wf(),
            crate::worklist::all_wf(old(self).in_progress@),
        ensures
            crate::worklist::all_wf(final(self).in_progress@),
            crate::worklist::aids_view(final(self).in_progress@) == without(
                crate::worklist::aids_view(old(self).in_progress@),
                |a: AppliedIdView| a == c@,
            ),
            final(self).mu == old(self).mu,
            final(self).memo == old(self).memo,
            final(self).changed == old(self).changed,
            final(self).budget == old(self).budget,
    {
        crate::worklist::delete_element(&mut self.in_progress, c);
    }

    /// Records the representative `f` of a class that a union changed, once.
    pub fn record_union(&mut self, f: &AppliedId)
        requires
            f.wf(),
            crate::worklist::all_wf(old(self).changed@),
        ensures
            crate::worklist::all_wf(final(self).changed@),
            final(self).mu == old(self).mu,
            final(self).budget == old(self).budget,
            crate::worklist::aids_view(final(self).changed@) == (if crate::worklist::aids_view(
                old(self).changed@,
            ).contains(f@) {
                crate::worklist::aids_view(old(self).changed@)
            } else {
                crate::worklist::aids_view(old(self).changed@).push(f@)
            }),
    {
        if !crate::worklist::contains_aid(&self.changed, f) {
            let ghost c0 = self.changed@;
            let x = f.duplicate();
            self.changed.push(x);
            proof {
                assert(self.changed@ == c0.push(x));
                assert(crate::worklist::aids_view(self.changed@) =~= crate::worklist::aids_view(
                    c0,
                ).push(f@));
            }
        }
    }
}

} // verus!
