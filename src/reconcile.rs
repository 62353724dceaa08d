//! Keeping the stream records and their UI slots in step with the sound server.
use vstd::prelude::*;

use std::collections::{HashMap, HashSet};

use crate::types::SinkInputData;

verus! {

broadcast use vstd::std_specs::hash::group_hash_axioms;

/// Some record of `s` has the stream id `id`.
pub open spec fn has_id(s: Seq<SinkInputData>, id: u32) -> bool {
    exists|k: int| 0 <= k < s.len() && (#[trigger] s[k]).id == id
}

/// `k` is the first position of `s` whose record has the id `id`.
pub open spec fn is_first_with_id(s: Seq<SinkInputData>, id: u32, k: int) -> bool {
    &&& 0 <= k < s.len()
    &&& s[k].id == id
    &&& forall|j: int| 0 <= j < k ==> (#[trigger] s[j]).id != id
}

/// The first position of `s` whose record has the id `id` (meaningful when `has_id(s, id)`).
pub open spec fn first_with_id(s: Seq<SinkInputData>, id: u32) -> int {
    choose|k: int| is_first_with_id(s, id, k)
}

/// No two records of `s` share an id.
pub open spec fn ids_unique(s: Seq<SinkInputData>) -> bool {
    forall|i: int, j: int|
        0 <= i < s.len() && 0 <= j < s.len() && i != j ==> (#[trigger] s[i]).id != (#[trigger] s[j]).id
}

/// The record `r` with the level and mute flag of the snapshot entry `e`.
pub open spec fn refreshed(r: SinkInputData, e: SinkInputData) -> SinkInputData {
    SinkInputData { volume: e.volume, mute: e.mute, ..r }
}

/// The old records that the snapshot still reports, in their old order, each
/// refreshed from the first snapshot entry with its id.
pub open spec fn pruned(old: Seq<SinkInputData>, snap: Seq<SinkInputData>) -> Seq<SinkInputData>
    decreases old.len(),
{
    if old.len() == 0 {
        Seq::empty()
    } else {
        let p = pruned(old.drop_last(), snap);
        let r = old.last();
        if has_id(snap, r.id) {
            p.push(refreshed(r, snap[first_with_id(snap, r.id)]))
        } else {
            p
        }
    }
}

/// The slots paired with the old records that the snapshot still reports, in their old order.
pub open spec fn kept_slots<U>(old: Seq<SinkInputData>, slots: Seq<U>, snap: Seq<SinkInputData>) -> Seq<U>
    decreases old.len(),
{
    if old.len() == 0 || slots.len() == 0 {
        Seq::empty()
    } else {
        let p = kept_slots(old.drop_last(), slots.drop_last(), snap);
        if has_id(snap, old.last().id) {
            p.push(slots.last())
        } else {
            p
        }
    }
}

/// `acc` followed by the entries of `snap`, in snapshot order, whose id is not
/// yet present when the entry is reached.
pub open spec fn appended(acc: Seq<SinkInputData>, snap: Seq<SinkInputData>) -> Seq<SinkInputData>
    decreases snap.len(),
{
    if snap.len() == 0 {
        acc
    } else {
        let p = appended(acc, snap.drop_last());
        if has_id(p, snap.last().id) {
            p
        } else {
            p.push(snap.last())
        }
    }
}

/// The record list after reconciling `old` with the snapshot `snap`.
pub open spec fn reconciled(old: Seq<SinkInputData>, snap: Seq<SinkInputData>) -> Seq<SinkInputData> {
    appended(pruned(old, snap), snap)
}

/// The first position of `s` with the id `id` is the one that `first_with_id` names.
pub proof fn lemma_first_with_id(s: Seq<SinkInputData>, id: u32, k: int)
    requires
        0 <= k < s.len(),
        s[k].id == id,
    ensures
        is_first_with_id(s, id, first_with_id(s, id)),
        first_with_id(s, id) <= k,
    decreases k,
{
    if exists|j: int| 0 <= j < k && (#[trigger] s[j]).id == id {
        let j = choose|j: int| 0 <= j < k && (#[trigger] s[j]).id == id;
        lemma_first_with_id(s, id, j);
    } else {
        assert(is_first_with_id(s, id, k));
        let f = first_with_id(s, id);
        if f > k {
            assert(s[k].id == id);
        }
    }
}

/// A first position with a given id is unique.
pub proof fn lemma_first_unique(s: Seq<SinkInputData>, id: u32, k: int)
    requires
        is_first_with_id(s, id, k),
    ensures
        first_with_id(s, id) == k,
{
    lemma_first_with_id(s, id, k);
    let f = first_with_id(s, id);
    if f < k {
        assert(s[f].id == id);
    }
}

proof fn lemma_kept_slots_len<U>(old: Seq<SinkInputData>, slots: Seq<U>, snap: Seq<SinkInputData>)
    requires
        old.len() == slots.len(),
    ensures
        kept_slots(old, slots, snap).len() == pruned(old, snap).len(),
    decreases old.len(),
{
    if old.len() > 0 {
        lemma_kept_slots_len(old.drop_last(), slots.drop_last(), snap);
    }
}

proof fn lemma_pruned_ids(old: Seq<SinkInputData>, snap: Seq<SinkInputData>)
    requires
        ids_unique(old),
    ensures
        ids_unique(pruned(old, snap)),
        forall|i: int| 0 <= i < pruned(old, snap).len() ==> has_id(old, #[trigger] pruned(old, snap)[i].id),
    decreases old.len(),
{
    if old.len() > 0 {
        let prev = old.drop_last();
        assert(ids_unique(prev)) by {
            assert forall|i: int, j: int|
                0 <= i < prev.len() && 0 <= j < prev.len() && i != j implies (#[trigger] prev[i]).id != (
                #[trigger] prev[j]).id by {
                assert(prev[i] == old[i] && prev[j] == old[j]);
            }
        }
        lemma_pruned_ids(prev, snap);
        let p = pruned(prev, snap);
        let q = pruned(old, snap);
        assert forall|i: int| 0 <= i < p.len() implies (#[trigger] p[i]).id != old.last().id by {
            let w = choose|w: int| 0 <= w < prev.len() && (#[trigger] prev[w]).id == p[i].id;
            assert(prev[w] == old[w]);
        }
        assert forall|i: int| 0 <= i < q.len() implies has_id(old, #[trigger] q[i].id) by {
            if i < p.len() {
                assert(q[i] == p[i]);
                let w = choose|w: int| 0 <= w < prev.len() && (#[trigger] prev[w]).id == p[i].id;
                assert(prev[w] == old[w]);
            } else {
                assert(q[i].id == old[old.len() - 1].id);
            }
        }
    }
}

proof fn lemma_appended_unique(acc: Seq<SinkInputData>, snap: Seq<SinkInputData>)
    requires
        ids_unique(acc),
    ensures
        ids_unique(appended(acc, snap)),
    decreases snap.len(),
{
    if snap.len() > 0 {
        lemma_appended_unique(acc, snap.drop_last());
    }
}

/// Reconciling records whose ids are unique gives records whose ids are unique.
pub proof fn lemma_reconciled_ids_unique(old: Seq<SinkInputData>, snap: Seq<SinkInputData>)
    requires
        ids_unique(old),
    ensures
        ids_unique(reconciled(old, snap)),
{
    lemma_pruned_ids(old, snap);
    lemma_appended_unique(pruned(old, snap), snap);
}

/// The record `r` is reported by `snap` and already holds what its first entry there says.
pub open spec fn settled(r: SinkInputData, snap: Seq<SinkInputData>) -> bool {
    has_id(snap, r.id) && r == refreshed(r, snap[first_with_id(snap, r.id)])
}

proof fn lemma_settled_fixed<U>(recs: Seq<SinkInputData>, slots: Seq<U>, snap: Seq<SinkInputData>)
    requires
        recs.len() == slots.len(),
        forall|i: int| 0 <= i < recs.len() ==> settled(#[trigger] recs[i], snap),
    ensures
        pruned(recs, snap) == recs,
        kept_slots(recs, slots, snap) == slots,
    decreases recs.len(),
{
    if recs.len() > 0 {
        let prev = recs.drop_last();
        assert forall|i: int| 0 <= i < prev.len() implies settled(#[trigger] prev[i], snap) by {
            assert(prev[i] == recs[i]);
        }
        lemma_settled_fixed(prev, slots.drop_last(), snap);
        assert(settled(recs[recs.len() - 1], snap));
        assert(pruned(recs, snap) =~= recs);
        assert(kept_slots(recs, slots, snap) =~= slots);
    }
}

proof fn lemma_pruned_settled(old: Seq<SinkInputData>, snap: Seq<SinkInputData>)
    ensures
        forall|i: int| 0 <= i < pruned(old, snap).len() ==> settled(#[trigger] pruned(old, snap)[i], snap),
    decreases old.len(),
{
    if old.len() > 0 {
        lemma_pruned_settled(old.drop_last(), snap);
        let r = old.last();
        if has_id(snap, r.id) {
            let w = choose|w: int| 0 <= w < snap.len() && (#[trigger] snap[w]).id == r.id;
            lemma_first_with_id(snap, r.id, w);
            let p = pruned(old.drop_last(), snap);
            let q = pruned(old, snap);
            assert forall|i: int| 0 <= i < q.len() implies settled(#[trigger] q[i], snap) by {
                if i < p.len() {
                    assert(q[i] == p[i]);
                } else {
                    let e = q[i];
                    assert(e == refreshed(r, snap[first_with_id(snap, r.id)]));
                    assert(e.id == r.id);
                    assert(e == refreshed(e, snap[first_with_id(snap, e.id)]));
                    assert(has_id(snap, e.id));
                }
            }
        } else {
            assert(pruned(old, snap) == pruned(old.drop_last(), snap));
        }
    }
}

proof fn lemma_appended_shape(acc: Seq<SinkInputData>, s: Seq<SinkInputData>)
    ensures
        acc.len() <= appended(acc, s).len(),
        appended(acc, s).take(acc.len() as int) == acc,
        forall|k: int| 0 <= k < s.len() ==> has_id(appended(acc, s), #[trigger] s[k].id),
        forall|i: int|
            acc.len() <= i < appended(acc, s).len() ==> exists|j: int|
                is_first_with_id(s, (#[trigger] appended(acc, s)[i]).id, j) && appended(acc, s)[i] == s[j],
    decreases s.len(),
{
    if s.len() > 0 {
        let prev = s.drop_last();
        lemma_appended_shape(acc, prev);
        let p = appended(acc, prev);
        let q = appended(acc, s);
        let n = s.len() - 1;
        assert forall|k: int| 0 <= k < s.len() implies has_id(q, #[trigger] s[k].id) by {
            if k < n {
                assert(prev[k] == s[k]);
                let w = choose|w: int| 0 <= w < p.len() && (#[trigger] p[w]).id == prev[k].id;
                assert(q[w] == p[w]);
            } else if !has_id(p, s[n].id) {
                assert(q[p.len() as int] == s[n]);
            }
        }
        assert(q.take(acc.len() as int) =~= acc) by {
            assert(p.take(acc.len() as int) =~= acc);
        }
        assert forall|i: int| acc.len() <= i < q.len() implies exists|j: int|
            is_first_with_id(s, (#[trigger] q[i]).id, j) && q[i] == s[j] by {
            if i < p.len() {
                assert(q[i] == p[i]);
                let j = choose|j: int| is_first_with_id(prev, p[i].id, j) && p[i] == prev[j];
                assert(is_first_with_id(s, q[i].id, j) && q[i] == s[j]) by {
                    assert forall|t: int| 0 <= t < j implies (#[trigger] s[t]).id != q[i].id by {
                        assert(s[t] == prev[t]);
                    }
                }
            } else {
                assert(q[i] == s[n]);
                assert forall|t: int| 0 <= t < n implies (#[trigger] s[t]).id != s[n].id by {
                    assert(prev[t] == s[t]);
                    assert(has_id(q, prev[t].id));
                    if s[t].id == s[n].id {
                        assert(has_id(p, prev[t].id));
                    }
                }
                assert(is_first_with_id(s, q[i].id, n));
            }
        }
    }
}

proof fn lemma_appended_nothing_new(acc: Seq<SinkInputData>, s: Seq<SinkInputData>)
    requires
        forall|k: int| 0 <= k < s.len() ==> has_id(acc, #[trigger] s[k].id),
    ensures
        appended(acc, s) == acc,
    decreases s.len(),
{
    if s.len() > 0 {
        let prev = s.drop_last();
        assert forall|k: int| 0 <= k < prev.len() implies has_id(acc, #[trigger] prev[k].id) by {
            assert(prev[k] == s[k]);
        }
        lemma_appended_nothing_new(acc, prev);
        assert(has_id(acc, s[s.len() - 1].id));
    }
}

/// Reconciling a second time with the same snapshot changes nothing: every
/// record survives with its slot, no record is dropped and none is appended.
pub proof fn lemma_reconcile_idempotent<U>(old: Seq<SinkInputData>, slots: Seq<U>, snap: Seq<SinkInputData>)
    requires
        slots.len() == reconciled(old, snap).len(),
    ensures
        pruned(reconciled(old, snap), snap) == reconciled(old, snap),
        kept_slots(reconciled(old, snap), slots, snap) == slots,
        reconciled(reconciled(old, snap), snap) == reconciled(old, snap),
{
    let p = pruned(old, snap);
    let r = reconciled(old, snap);
    lemma_pruned_settled(old, snap);
    lemma_appended_shape(p, snap);
    assert forall|i: int| 0 <= i < r.len() implies settled(#[trigger] r[i], snap) by {
        if i < p.len() {
            assert(r.take(p.len() as int)[i] == r[i]);
        } else {
            let j = choose|j: int| is_first_with_id(snap, (#[trigger] r[i]).id, j) && r[i] == snap[j];
            lemma_first_unique(snap, r[i].id, j);
        }
    }
    lemma_settled_fixed(r, slots, snap);
    lemma_appended_nothing_new(r, snap);
}

/// Maps each id of the snapshot to the position of its first entry.
fn first_positions(snapshot: &Vec<SinkInputData>) -> (m: HashMap<u32, usize>)
    ensures
        forall|id: u32| #[trigger] m@.contains_key(id) <==> has_id(snapshot@, id),
        forall|id: u32| #[trigger] m@.contains_key(id) ==> is_first_with_id(snapshot@, id, m@[id] as int),
{
    let ghost snap = snapshot@;
    let mut m: HashMap<u32, usize> = HashMap::new();
    let mut j: usize = 0;
    while j < snapshot.len()
        invariant
            j <= snapshot.len(),
            snap == snapshot@,
            forall|id: u32| #[trigger] m@.contains_key(id) <==> has_id(snap.take(j as int), id),
            forall|id: u32| #[trigger] m@.contains_key(id) ==> is_first_with_id(snap, id, m@[id] as int),
        decreases snapshot.len() - j,
    {
        let id = snapshot[j].id;
        let ghost before = m@;
        if !m.contains_key(&id) {
            proof {
                assert forall|k: int| 0 <= k < j implies (#[trigger] snap[k]).id != id by {
                    if snap[k].id == id {
                        assert(snap.take(j as int)[k] == snap[k]);
                    }
                }
            }
            m.insert(id, j);
        }
        proof {
            assert forall|x: u32| #[trigger] m@.contains_key(x) <==> has_id(snap.take(j + 1), x) by {
                if has_id(snap.take(j + 1), x) {
                    let k = choose|k: int| 0 <= k < j + 1 && (#[trigger] snap.take(j + 1)[k]).id == x;
                    if k < j {
                        assert(snap.take(j as int)[k] == snap.take(j + 1)[k]);
                    }
                }
                if before.contains_key(x) {
                    let k = choose|k: int| 0 <= k < j && (#[trigger] snap.take(j as int)[k]).id == x;
                    assert(snap.take(j + 1)[k] == snap.take(j as int)[k]);
                }
                if x == id {
                    assert(snap.take(j + 1)[j as int] == snap[j as int]);
                }
            }
        }
        j = j + 1;
    }
    proof {
        assert(snap.take(snap.len() as int) =~= snap);
    }
    m
}

/// The set of ids of `v`.
fn ids_of(v: &Vec<SinkInputData>) -> (r: HashSet<u32>)
    ensures
        forall|id: u32| #[trigger] r@.contains(id) <==> has_id(v@, id),
{
    let mut r: HashSet<u32> = HashSet::new();
    let mut i: usize = 0;
    while i < v.len()
        invariant
            i <= v.len(),
            forall|id: u32| #[trigger] r@.contains(id) <==> has_id(v@.take(i as int), id),
        decreases v.len() - i,
    {
        let ghost before = r@;
        let id = v[i].id;
        r.insert(id);
        proof {
            let t = v@.take(i + 1);
            assert forall|x: u32| #[trigger] r@.contains(x) <==> has_id(t, x) by {
                if has_id(t, x) {
                    let k = choose|k: int| 0 <= k < i + 1 && (#[trigger] t[k]).id == x;
                    if k < i {
                        assert(v@.take(i as int)[k] == t[k]);
                    }
                }
                if before.contains(x) {
                    let k = choose|k: int| 0 <= k < i && (#[trigger] v@.take(i as int)[k]).id == x;
                    assert(t[k] == v@.take(i as int)[k]);
                }
                if x == id {
                    assert(t[i as int] == v@[i as int]);
                }
            }
        }
        i = i + 1;
    }
    proof {
        assert(v@.take(v.len() as int) =~= v@);
    }
    r
}

/// Brings the stream records in line with a fresh snapshot of the live streams,
/// keeping the UI slot paired with each record at the same index.
///
/// Records whose id the snapshot still reports keep their place and their slot,
/// and take the level and mute flag of the first snapshot entry with that id.
/// Records the snapshot no longer reports are dropped together with their slot.
/// Snapshot entries whose id is not present yet are then appended in snapshot
/// order, each with a slot made by `new_ui`.
pub fn update_sink_inputs<U, F: Fn() -> U>(
    sink_inputs: &mut Vec<SinkInputData>,
    sink_input_uis: &mut Vec<U>,
    snapshot: &Vec<SinkInputData>,
    new_ui: F,
)
    requires
        old(sink_inputs).len() == old(sink_input_uis).len(),
        new_ui.requires(()),
    ensures
        final(sink_inputs)@ == reconciled(old(sink_inputs)@, snapshot@),
        final(sink_input_uis).len() == final(sink_inputs).len(),
        final(sink_input_uis)@.take(pruned(old(sink_inputs)@, snapshot@).len() as int)
            == kept_slots(old(sink_inputs)@, old(sink_input_uis)@, snapshot@),
        forall|i: int|
            pruned(old(sink_inputs)@, snapshot@).len() <= i < final(sink_input_uis).len()
                ==> new_ui.ensures((), #[trigger] final(sink_input_uis)@[i]),
        ids_unique(old(sink_inputs)@) ==> ids_unique(final(sink_inputs)@),
{
    let ghost old_recs = sink_inputs@;
    let ghost old_uis = sink_input_uis@;
    let ghost snap = snapshot@;
    let ghost n: int = old_recs.len() as int;
    proof {
        assert(old_recs.take(0) =~= Seq::<SinkInputData>::empty());
        assert(old_uis.take(0) =~= Seq::<U>::empty());
        assert(old_recs.skip(0) =~= old_recs);
        assert(old_uis.skip(0) =~= old_uis);
    }
    let first = first_positions(snapshot);
    let mut i: usize = 0;
    let ghost mut k: int = 0;
    while i < sink_inputs.len()
        invariant
            0 <= k <= n,
            n == old_recs.len(),
            n == old_uis.len(),
            snap == snapshot@,
            forall|id: u32| #[trigger] first@.contains_key(id) <==> has_id(snap, id),
            forall|id: u32| #[trigger] first@.contains_key(id) ==> is_first_with_id(snap, id, first@[id] as int),
            i == pruned(old_recs.take(k), snap).len(),
            sink_inputs@ == pruned(old_recs.take(k), snap) + old_recs.skip(k),
            sink_input_uis@ == kept_slots(old_recs.take(k), old_uis.take(k), snap) + old_uis.skip(k),
        decreases n - k,
    {
        proof {
            lemma_kept_slots_len(old_recs.take(k), old_uis.take(k), snap);
            assert(old_recs.take(k + 1).drop_last() =~= old_recs.take(k));
            assert(old_uis.take(k + 1).drop_last() =~= old_uis.take(k));
            assert(sink_inputs@[i as int] == old_recs[k]);
            assert(sink_input_uis@[i as int] == old_uis[k]);
        }
        let id = sink_inputs[i].id;
        match first.get(&id) {
            Some(j) => {
                let j = *j;
                proof {
                    lemma_first_unique(snap, id, j as int);
                }
                let volume = snapshot[j].volume;
                let mute = snapshot[j].mute;
                let mut r = sink_inputs[i].clone();
                r.volume = volume;
                r.mute = mute;
                sink_inputs.set(i, r);
                proof {
                    assert(sink_inputs@ =~= pruned(old_recs.take(k + 1), snap) + old_recs.skip(k + 1));
                    assert(sink_input_uis@ =~= kept_slots(old_recs.take(k + 1), old_uis.take(k + 1), snap)
                        + old_uis.skip(k + 1));
                }
                i = i + 1;
            },
            None => {
                sink_inputs.remove(i);
                sink_input_uis.remove(i);
                proof {
                    assert(sink_inputs@ =~= pruned(old_recs.take(k + 1), snap) + old_recs.skip(k + 1));
                    assert(sink_input_uis@ =~= kept_slots(old_recs.take(k + 1), old_uis.take(k + 1), snap)
                        + old_uis.skip(k + 1));
                }
            },
        }
        proof {
            k = k + 1;
        }
    }
    proof {
        assert(old_recs.take(n) =~= old_recs);
        assert(old_uis.take(n) =~= old_uis);
        lemma_kept_slots_len(old_recs, old_uis, snap);
        assert(sink_inputs@ =~= pruned(old_recs, snap));
        assert(sink_input_uis@ =~= kept_slots(old_recs, old_uis, snap));
        assert(snap.take(0) =~= Seq::<SinkInputData>::empty());
    }
    let mut present = ids_of(sink_inputs);
    let ghost base = sink_inputs@;
    let ghost m: int = base.len() as int;
    let mut j: usize = 0;
    while j < snapshot.len()
        invariant
            0 <= j <= snapshot.len(),
            snap == snapshot@,
            base == pruned(old_recs, snap),
            m == base.len(),
            new_ui.requires(()),
            sink_inputs@ == appended(base, snap.take(j as int)),
            forall|id: u32| #[trigger] present@.contains(id) <==> has_id(sink_inputs@, id),
            sink_input_uis.len() == sink_inputs.len(),
            sink_input_uis@.take(m as int) == kept_slots(old_recs, old_uis, snap),
            m <= sink_inputs.len(),
            forall|t: int| m <= t < sink_input_uis.len() ==> new_ui.ensures((), #[trigger] sink_input_uis@[t]),
        decreases snapshot.len() - j,
    {
        proof {
            assert(snap.take(j + 1).drop_last() =~= snap.take(j as int));
        }
        let id = snapshot[j].id;
        if !present.contains(&id) {
            let r = snapshot[j].clone();
            let ghost recs_before = sink_inputs@;
            sink_inputs.push(r);
            present.insert(id);
            proof {
                assert forall|x: u32| #[trigger] present@.contains(x) <==> has_id(sink_inputs@, x) by {
                    if has_id(recs_before, x) {
                        let t = choose|t: int| 0 <= t < recs_before.len() && (#[trigger] recs_before[t]).id == x;
                        assert(sink_inputs@[t] == recs_before[t]);
                    }
                    if has_id(sink_inputs@, x) && x != id {
                        let t = choose|t: int| 0 <= t < sink_inputs@.len() && (#[trigger] sink_inputs@[t]).id == x;
                        assert(t < recs_before.len());
                        assert(recs_before[t] == sink_inputs@[t]);
                    }
                    assert(sink_inputs@[recs_before.len() as int].id == id);
                }
            }
            let ui = new_ui();
            let ghost before = sink_input_uis@;
            sink_input_uis.push(ui);
            proof {
                assert(sink_input_uis@.take(m as int) =~= before.take(m as int));
            }
        }
        j = j + 1;
    }
    proof {
        assert(snap.take(snap.len() as int) =~= snap);
        if ids_unique(old_recs) {
            lemma_reconciled_ids_unique(old_recs, snap);
        }
    }
}

} // verus!
