//! What each record of the manifest does to the state, and when it is refused.

use vstd::prelude::*;

use crate::codec;
use crate::frame;
use crate::manifest;
use crate::state::{self, ApplyError, SegmentEntry};
use crate::state_laws;
use crate::SegmentId;

verus! {

// ── Refusals ──────────────────────────────────────────────────────────────────

/// `x` is the first of `ids` that is not live.
pub open spec fn first_not_live(s: state::StateView, ids: Seq<SegmentId>, x: SegmentId) -> bool {
    exists|i: int|
        0 <= i < ids.len() && #[trigger] ids[i] == x && !s.is_live(x) && forall|j: int|
            0 <= j < i ==> s.is_live(#[trigger] ids[j])
}

/// All of `ids` are live.
pub open spec fn all_live(s: state::StateView, ids: Seq<SegmentId>) -> bool {
    forall|i: int| 0 <= i < ids.len() ==> s.is_live(#[trigger] ids[i])
}

proof fn lemma_first_missing(s: state::StateView, ids: Seq<SegmentId>)
    ensures
        match state::first_missing(s, ids) {
            Some(x) => first_not_live(s, ids, x) && !all_live(s, ids),
            None => all_live(s, ids),
        },
    decreases ids.len(),
{
    if ids.len() > 0 && s.is_live(ids[0]) {
        let rest = ids.skip(1);
        lemma_first_missing(s, rest);
        match state::first_missing(s, rest) {
            Some(x) => {
                let i = choose|i: int|
                    0 <= i < rest.len() && #[trigger] rest[i] == x && !s.is_live(x) && forall|j: int|
                        0 <= j < i ==> s.is_live(#[trigger] rest[j]);
                assert(ids[i + 1] == x);
                assert forall|j: int| 0 <= j < i + 1 implies s.is_live(#[trigger] ids[j]) by {
                    if j > 0 {
                        assert(rest[j - 1] == ids[j]);
                    }
                }
            },
            None => {
                assert forall|j: int| 0 <= j < ids.len() implies s.is_live(#[trigger] ids[j]) by {
                    if j > 0 {
                        assert(rest[j - 1] == ids[j]);
                    }
                }
            },
        }
    } else if ids.len() > 0 {
        assert(first_not_live(s, ids, ids[0]));
    }
}

/// Law: a record is refused exactly where it does not fit the state, and the
/// refusal says why. A first segment is created only in a store without one, only
/// the active segment is sealed, the head does not move back, segments that are
/// rolled back over or into are live, and only dead segments are deleted.
pub proof fn law_record_is_refused_where_it_does_not_fit(
    s: state::StateView,
    e: state::ManifestOpView,
)
    ensures
        match e.op {
            state::OpView::CreateSegment { .. } => if s.segments.len() > 0 {
                state::apply_op(s, e) == Err::<state::StateView, _>(ApplyError::StoreNotEmpty)
            } else {
                state::apply_op(s, e) is Ok
            },
            state::OpView::RollSegment { sealed_id, .. } => if s.active == Some(sealed_id) {
                state::apply_op(s, e) is Ok
            } else {
                state::apply_op(s, e) == Err::<state::StateView, _>(
                    ApplyError::NotActiveSegment(sealed_id),
                )
            },
            state::OpView::TruncateStart { first_entry, .. } => if first_entry.0
                >= s.first_entry.0 {
                state::apply_op(s, e) is Ok
            } else {
                state::apply_op(s, e) == Err::<state::StateView, _>(
                    ApplyError::TruncateStartBeforeFirst(first_entry),
                )
            },
            state::OpView::TruncateEnd { new_active_id, drop, .. } => match state::apply_op(s, e) {
                Ok(_) => all_live(s, drop) && s.is_live(new_active_id),
                Err(err) => {
                    ||| err matches ApplyError::SegmentNotFound(x) && first_not_live(s, drop, x)
                    ||| err == ApplyError::SegmentNotFound(new_active_id) && all_live(s, drop)
                        && !s.is_live(new_active_id)
                },
            },
            state::OpView::SegmentDeleted { id } => if s.dead.contains(id) {
                state::apply_op(s, e) is Ok
            } else {
                state::apply_op(s, e) == Err::<state::StateView, _>(ApplyError::SegmentNotDead(id))
            },
            state::OpView::RecordOrphan { .. } => state::apply_op(s, e) is Ok,
            state::OpView::Metadata => state::apply_op(s, e) is Ok,
        },
{
    if let state::OpView::TruncateEnd { drop, .. } = e.op {
        lemma_first_missing(s, drop);
    }
}

// ── Effects ───────────────────────────────────────────────────────────────────

/// Law: a record changes what it is about and nothing else. Only a rollover seals
/// a segment, with what the record says, and only a segment that dies or is active
/// again loses its seal. The active segment is the one that is created or rolled
/// back into.
pub proof fn law_record_changes_seals_and_active(
    s: state::StateView,
    e: state::ManifestOpView,
    id: SegmentId,
)
    requires
        state::apply_op(s, e) is Ok,
    ensures
        ({
            let t = state::apply_op(s, e)->Ok_0;
            match e.op {
                state::OpView::CreateSegment { id: new, first_entry } => {
                    &&& t.segments.len() == 1
                    &&& t.segments[0] == (SegmentEntry { id: new, first_entry })
                    &&& t.first_entry == first_entry
                    &&& t.active == Some(new)
                    &&& t.seals == s.seals
                    &&& t.dead == s.dead
                    &&& t.cut_at is None
                },
                state::OpView::RollSegment { sealed_id, seal, new_id, new_first_entry } => {
                    &&& t.segments == s.segments.push(
                        SegmentEntry { id: new_id, first_entry: new_first_entry },
                    )
                    &&& t.seals.contains_key(id) <==> id == sealed_id || s.seals.contains_key(id)
                    &&& t.seals.contains_key(id) ==> t.seals[id] == if id == sealed_id {
                        seal
                    } else {
                        s.seals[id]
                    }
                    &&& t.active == Some(new_id)
                    &&& t.dead == s.dead
                    &&& t.first_entry == s.first_entry
                    &&& t.cut_at is None
                },
                state::OpView::TruncateStart { first_entry, drop } => {
                    &&& t.seals.contains_key(id) <==> s.seals.contains_key(id) && !drop.contains(id)
                    &&& t.seals.contains_key(id) ==> t.seals[id] == s.seals[id]
                    &&& t.active == s.active
                    &&& t.first_entry == first_entry
                    &&& t.cut_at == s.cut_at
                    &&& s.dead.is_prefix_of(t.dead)
                },
                state::OpView::TruncateEnd { new_active_id, byte_offset, drop } => {
                    &&& t.seals.contains_key(id) <==> s.seals.contains_key(id) && !drop.contains(id)
                        && id != new_active_id
                    &&& t.seals.contains_key(id) ==> t.seals[id] == s.seals[id]
                    &&& t.active == Some(new_active_id)
                    &&& t.first_entry == s.first_entry
                    &&& t.cut_at == Some(byte_offset)
                    &&& s.dead.is_prefix_of(t.dead)
                },
                state::OpView::SegmentDeleted { id: gone } => {
                    &&& t == (state::StateView { dead: t.dead, meta: t.meta, ..s })
                    &&& t.dead == s.dead.filter(|x: SegmentId| x != gone)
                },
                state::OpView::RecordOrphan { id: found } => {
                    &&& t == (state::StateView { dead: t.dead, meta: t.meta, ..s })
                    &&& s.dead.contains(found) ==> t.dead == s.dead
                    &&& !s.dead.contains(found) ==> t.dead == s.dead.push(found)
                },
                state::OpView::Metadata => t == (state::StateView {
                    meta: t.meta,
                    cut_at: None,
                    ..s
                }),
            }
        }),
{
    match e.op {
        state::OpView::TruncateStart { drop, .. } => {
            state_laws::lemma_kill_all(s, drop);
            lemma_dead_grow(s, drop);
        },
        state::OpView::TruncateEnd { drop, .. } => {
            state_laws::lemma_kill_all(s, drop);
            lemma_dead_grow(s, drop);
        },
        state::OpView::SegmentDeleted { id: gone } => lemma_without_is_filter(s.dead, gone),
        _ => {},
    }
}

proof fn lemma_dead_grow(s: state::StateView, ids: Seq<SegmentId>)
    ensures
        s.dead.is_prefix_of(state::kill_all(s, ids).dead),
    decreases ids.len(),
{
    if ids.len() > 0 {
        let before = state::kill_all(s, ids.drop_last()).dead;
        lemma_dead_grow(s, ids.drop_last());
        let after = state::insert_dead(before, ids.last());
        assert(s.dead =~= after.subrange(0, s.dead.len() as int)) by {
            assert(s.dead =~= before.subrange(0, s.dead.len() as int));
            assert forall|i: int| 0 <= i < s.dead.len() implies s.dead[i] == after[i] by {
                assert(s.dead[i] == before.subrange(0, s.dead.len() as int)[i]);
            }
        }
    }
}

proof fn lemma_without_is_filter(ids: Seq<SegmentId>, id: SegmentId)
    ensures
        state::without_id(ids, id) == ids.filter(|x: SegmentId| x != id),
    decreases ids.len(),
{
    reveal(Seq::filter);
    if ids.len() > 0 {
        lemma_without_is_filter(ids.drop_last(), id);
    }
}

/// Law: segments die in the order in which a record lists them, behind those that
/// are dead already.
pub proof fn law_segments_die_in_order(
    s: state::StateView,
    e: state::ManifestOpView,
    drop: Seq<SegmentId>,
)
    requires
        e.op is TruncateStart && e.op->TruncateStart_drop == drop || e.op is TruncateEnd
            && e.op->TruncateEnd_drop == drop,
        state::apply_op(s, e) is Ok,
        drop.no_duplicates(),
        forall|i: int| 0 <= i < drop.len() ==> !s.dead.contains(#[trigger] drop[i]),
    ensures
        state::apply_op(s, e)->Ok_0.dead == s.dead + drop,
{
    lemma_die_in_order(s, drop);
}

pub proof fn lemma_die_in_order(s: state::StateView, drop: Seq<SegmentId>)
    requires
        drop.no_duplicates(),
        forall|i: int| 0 <= i < drop.len() ==> !s.dead.contains(#[trigger] drop[i]),
    ensures
        state::kill_all(s, drop).dead == s.dead + drop,
    decreases drop.len(),
{
    if drop.len() == 0 {
        assert(s.dead + drop =~= s.dead);
    } else {
        let front = drop.drop_last();
        assert forall|i: int| 0 <= i < front.len() implies !s.dead.contains(#[trigger] front[i]) by {
            assert(front[i] == drop[i]);
        }
        lemma_die_in_order(s, front);
        let before = s.dead + front;
        let id = drop.last();
        assert(!before.contains(id)) by {
            if before.contains(id) {
                let i = choose|i: int| 0 <= i < before.len() && before[i] == id;
                assert(drop[drop.len() - 1] == id);
                if i < s.dead.len() {
                    assert(s.dead.contains(id)) by {
                        assert(s.dead[i] == id);
                    }
                } else {
                    assert(drop[i - s.dead.len()] == id);
                }
            }
        }
        assert(before.push(id) =~= s.dead + drop);
    }
}

/// Law: a live segment is found by its id: the first one with it, and none exactly
/// where no live segment has it.
pub proof fn law_live_segment_is_found_by_id(segments: Seq<SegmentEntry>, id: SegmentId)
    ensures
        match state::find_segment(segments, id) {
            Some(entry) => exists|i: int|
                0 <= i < segments.len() && #[trigger] segments[i] == entry && entry.id == id
                    && forall|j: int| 0 <= j < i ==> (#[trigger] segments[j]).id != id,
            None => forall|i: int| 0 <= i < segments.len() ==> (#[trigger] segments[i]).id != id,
        },
{
    crate::opened_laws::lemma_found(segments, id);
}

// ── Metadata ──────────────────────────────────────────────────────────────────

/// No key occurs twice.
pub open spec fn keys_distinct(meta: Seq<(u8, Seq<u8>)>) -> bool {
    forall|i: int, j: int|
        0 <= i < j < meta.len() ==> (#[trigger] meta[i]).0 != (#[trigger] meta[j]).0
}

/// `pairs` set `key`, and the last one to do so sets it to `value`.
pub open spec fn sets_last(pairs: Seq<(u8, Seq<u8>)>, key: u8, value: Seq<u8>) -> bool {
    exists|i: int|
        0 <= i < pairs.len() && #[trigger] pairs[i] == (key, value) && forall|j: int|
            i < j < pairs.len() ==> (#[trigger] pairs[j]).0 != key
}

/// `pairs` do not set `key`.
pub open spec fn leaves(pairs: Seq<(u8, Seq<u8>)>, key: u8) -> bool {
    forall|i: int| 0 <= i < pairs.len() ==> (#[trigger] pairs[i]).0 != key
}

/// What setting a key does to metadata in which no key occurs twice.
proof fn lemma_set(meta: Seq<(u8, Seq<u8>)>, key: u8, value: Seq<u8>)
    requires
        keys_distinct(meta),
    ensures
        ({
            let after = state::set_meta(meta, key, value);
            &&& keys_distinct(after)
            &&& after.len() >= meta.len()
            &&& forall|i: int| 0 <= i < meta.len() ==> (#[trigger] after[i]).0 == meta[i].0
            &&& forall|k: u8, v: Seq<u8>| #[trigger]
                after.contains((k, v)) <==> if k == key {
                    v == value
                } else {
                    meta.contains((k, v))
                }
            &&& leaves(meta, key) ==> after == meta.push((key, value))
            &&& forall|i: int|
                0 <= i < meta.len() && (#[trigger] meta[i]).0 == key ==> after == meta.update(
                    i,
                    (key, value),
                )
        }),
{
    let after = state::set_meta(meta, key, value);
    state_laws::lemma_find_key(meta, key);
    let at = match state::find_key(meta, key) {
        Some(i) => i,
        None => meta.len() as int,
    };
    assert(after[at] == (key, value));
    assert forall|i: int| 0 <= i < after.len() && i != at implies #[trigger] after[i] == meta[i]
        && meta[i].0 != key by {
        if at < meta.len() {
            if i < at {
                assert(meta[i].0 != meta[at].0);
            } else {
                assert(meta[at].0 != meta[i].0);
            }
        }
    }
    assert forall|i: int, j: int| 0 <= i < j < after.len() implies (#[trigger] after[i]).0 != (
    #[trigger] after[j]).0 by {
        if i != at && j != at {
            assert(meta[i].0 != meta[j].0);
        }
    }
    assert forall|k: u8, v: Seq<u8>| #[trigger] after.contains((k, v)) <==> if k == key {
        v == value
    } else {
        meta.contains((k, v))
    } by {
        if after.contains((k, v)) {
            let i = choose|i: int| 0 <= i < after.len() && after[i] == (k, v);
            if i != at {
                assert(meta[i] == (k, v));
            }
        }
        if k == key && v == value {
            assert(after[at] == (k, v));
        }
        if k != key && meta.contains((k, v)) {
            let i = choose|i: int| 0 <= i < meta.len() && meta[i] == (k, v);
            assert(i != at);
            assert(after[i] == (k, v));
        }
    }
    assert forall|i: int| 0 <= i < meta.len() && (#[trigger] meta[i]).0 == key implies after
        == meta.update(i, (key, value)) by {
        if i != at {
            assert(after[i].0 != key);
        }
    }
}

#[verifier::spinoff_prover]
proof fn lemma_merge(meta: Seq<(u8, Seq<u8>)>, pairs: Seq<(u8, Seq<u8>)>, key: u8, value: Seq<u8>)
    requires
        keys_distinct(meta),
    ensures
        ({
            let after = state::merge_meta(meta, pairs);
            &&& keys_distinct(after)
            &&& after.len() >= meta.len()
            &&& forall|i: int| 0 <= i < meta.len() ==> (#[trigger] after[i]).0 == meta[i].0
            &&& after.contains((key, value)) <==> sets_last(pairs, key, value) || leaves(
                pairs,
                key,
            ) && meta.contains((key, value))
        }),
    decreases pairs.len(),
{
    if pairs.len() > 0 {
        let front = pairs.drop_last();
        let n = front.len() as int;
        let (k, v) = pairs.last();
        lemma_merge(meta, front, key, value);
        let before = state::merge_meta(meta, front);
        lemma_set(before, k, v);
        let after = state::merge_meta(meta, pairs);
        assert(pairs[n] == (k, v));
        assert forall|i: int| 0 <= i < meta.len() implies (#[trigger] after[i]).0 == meta[i].0 by {
            assert(before[i].0 == meta[i].0);
            assert(after[i].0 == before[i].0);
        }
        if k == key {
            assert(!leaves(pairs, key));
            if v == value {
                assert(sets_last(pairs, key, value));
            }
            if sets_last(pairs, key, value) {
                let i = choose|i: int|
                    0 <= i < pairs.len() && #[trigger] pairs[i] == (key, value) && forall|j: int|
                        i < j < pairs.len() ==> (#[trigger] pairs[j]).0 != key;
                if i < n {
                    assert(pairs[n].0 != key);
                }
            }
        } else {
            if sets_last(front, key, value) {
                let i = choose|i: int|
                    0 <= i < front.len() && #[trigger] front[i] == (key, value) && forall|j: int|
                        i < j < front.len() ==> (#[trigger] front[j]).0 != key;
                assert(pairs[i] == (key, value));
                assert forall|j: int| i < j < pairs.len() implies (#[trigger] pairs[j]).0
                    != key by {
                    if j < n {
                        assert(front[j] == pairs[j]);
                    }
                }
            }
            if sets_last(pairs, key, value) {
                let i = choose|i: int|
                    0 <= i < pairs.len() && #[trigger] pairs[i] == (key, value) && forall|j: int|
                        i < j < pairs.len() ==> (#[trigger] pairs[j]).0 != key;
                assert(front[i] == (key, value));
                assert forall|j: int| i < j < front.len() implies (#[trigger] front[j]).0
                    != key by {
                    assert(front[j] == pairs[j]);
                }
            }
            assert(leaves(pairs, key) <==> leaves(front, key)) by {
                if leaves(front, key) {
                    assert forall|j: int| 0 <= j < pairs.len() implies (#[trigger] pairs[j]).0
                        != key by {
                        if j < n {
                            assert(front[j] == pairs[j]);
                        }
                    }
                }
                if leaves(pairs, key) {
                    assert forall|j: int| 0 <= j < front.len() implies (#[trigger] front[j]).0
                        != key by {
                        assert(front[j] == pairs[j]);
                    }
                }
            }
        }
    }
}

proof fn lemma_meta_before(s: state::StateView, e: state::ManifestOpView)
    requires
        state::apply_op(s, e) is Ok,
    ensures
        state::apply_op(s, e)->Ok_0.meta == state::merge_meta(s.meta, e.meta),
{
    match e.op {
        state::OpView::TruncateStart { drop, .. } => state_laws::lemma_kill_all(s, drop),
        state::OpView::TruncateEnd { drop, .. } => state_laws::lemma_kill_all(s, drop),
        _ => {},
    }
}

/// Law: metadata lists each key once, with the last value written to it. Keys
/// that are there keep their places, and a key that the record does not set keeps
/// its value.
pub proof fn law_metadata_lists_each_key_once(
    s: state::StateView,
    e: state::ManifestOpView,
    key: u8,
    value: Seq<u8>,
)
    requires
        keys_distinct(s.meta),
        state::apply_op(s, e) is Ok,
    ensures
        ({
            let meta = state::apply_op(s, e)->Ok_0.meta;
            &&& keys_distinct(state::StateView::empty().meta)
            &&& keys_distinct(meta)
            &&& meta.contains((key, value)) <==> sets_last(e.meta, key, value) || leaves(
                e.meta,
                key,
            ) && s.meta.contains((key, value))
            &&& meta.len() >= s.meta.len()
            &&& forall|i: int| 0 <= i < s.meta.len() ==> (#[trigger] meta[i]).0 == s.meta[i].0
        }),
{
    lemma_meta_before(s, e);
    lemma_merge(s.meta, e.meta, key, value);
}

/// Law: a pair overwrites the value of its key where the key stands, and a new key
/// comes last.
pub proof fn law_metadata_pair_overwrites(s: state::StateView, key: u8, value: Seq<u8>)
    requires
        keys_distinct(s.meta),
    ensures
        ({
            let e = state::ManifestOpView {
                op: state::OpView::Metadata,
                meta: seq![(key, value)],
            };
            let meta = state::apply_op(s, e)->Ok_0.meta;
            &&& state::apply_op(s, e) is Ok
            &&& leaves(s.meta, key) ==> meta == s.meta.push((key, value))
            &&& forall|i: int|
                0 <= i < s.meta.len() && (#[trigger] s.meta[i]).0 == key ==> meta == s.meta.update(
                    i,
                    (key, value),
                )
        }),
{
    let pairs = seq![(key, value)];
    lemma_set(s.meta, key, value);
    reveal_with_fuel(state::merge_meta, 2);
    assert(pairs.drop_last() =~= Seq::<(u8, Seq<u8>)>::empty());
}

/// Law: the pairs of a record are set one after another: a record with more pairs
/// is as good as one record after the other.
pub proof fn law_metadata_pairs_are_set_in_order(
    s: state::StateView,
    a: Seq<(u8, Seq<u8>)>,
    b: Seq<(u8, Seq<u8>)>,
)
    ensures
        ({
            let first = state::apply_op(
                s,
                state::ManifestOpView { op: state::OpView::Metadata, meta: a },
            );
            let second = state::apply_op(
                first->Ok_0,
                state::ManifestOpView { op: state::OpView::Metadata, meta: b },
            );
            state::apply_op(
                s,
                state::ManifestOpView { op: state::OpView::Metadata, meta: a + b },
            ) == second
        }),
{
    lemma_merge_concat(s.meta, a, b);
}

proof fn lemma_merge_concat(
    meta: Seq<(u8, Seq<u8>)>,
    a: Seq<(u8, Seq<u8>)>,
    b: Seq<(u8, Seq<u8>)>,
)
    ensures
        state::merge_meta(meta, a + b) == state::merge_meta(state::merge_meta(meta, a), b),
    decreases b.len(),
{
    if b.len() == 0 {
        assert(a + b =~= a);
    } else {
        assert((a + b).drop_last() =~= a + b.drop_last());
        lemma_merge_concat(meta, a, b.drop_last());
    }
}

/// Law: no key occurs twice in the metadata of a state that a manifest leads to.
pub proof fn law_replayed_metadata_lists_each_key_once(s: state::StateView, data: Seq<u8>, pos: int)
    requires
        keys_distinct(s.meta),
        manifest::replay_from(s, data, pos) is Ok,
    ensures
        keys_distinct(manifest::replay_from(s, data, pos)->Ok_0.0.meta),
    decreases data.len() - pos,
{
    match frame::raw_frame_at(data, pos) {
        frame::RawFrame::Whole(f) => match manifest::replay_record(s, f.payload, pos as u64) {
            Ok(t) => {
                reveal(manifest::replay_record);
                let op = codec::decode_op(f.payload)->Ok_0;
                lemma_meta_before(s, op);
                lemma_merge(s.meta, op.meta, 0, Seq::empty());
                law_replayed_metadata_lists_each_key_once(t, data, f.end());
            },
            Err(_) => {},
        },
        _ => {},
    }
}

} // verus!
