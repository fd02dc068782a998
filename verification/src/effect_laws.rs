//! What the operations of a store change, and what they leave alone.

use vstd::prelude::*;

use crate::action;
use crate::format_laws;
use crate::frame::{self, ScanError};
use crate::index;
use crate::log_laws;
use crate::op_laws;
use crate::record_laws;
use crate::scan_laws;
use crate::scanner_laws;
use crate::state::{self, ApplyError, SegmentEntry};
use crate::state_laws;
use crate::store::{self, Batch, Outcome, StoreError};
use crate::truncate_end_laws;
use crate::truncate_laws;
use crate::{EntryId, IoFault, SegmentId};

verus! {

// ── Filters ───────────────────────────────────────────────────────────────────

/// Two filters that agree on every element give the same.
proof fn lemma_same_filter<A>(s: Seq<A>, p: spec_fn(A) -> bool, q: spec_fn(A) -> bool)
    requires
        forall|i: int| 0 <= i < s.len() ==> p(#[trigger] s[i]) == q(s[i]),
    ensures
        s.filter(p) == s.filter(q),
    decreases s.len(),
{
    reveal(Seq::filter);
    if s.len() > 0 {
        let front = s.drop_last();
        assert forall|i: int| 0 <= i < front.len() implies p(#[trigger] front[i]) == q(front[i]) by {
            assert(front[i] == s[i]);
        }
        lemma_same_filter(front, p, q);
        assert(p(s[s.len() - 1]) == q(s[s.len() - 1]));
    }
}

// ── The head ──────────────────────────────────────────────────────────────────

/// The segment is sealed, and its last entry comes before `first`.
pub open spec fn is_behind(st: state::StateView, id: SegmentId, first: EntryId) -> bool {
    st.seals.contains_key(id) && st.seals[id].last_entry.0 < first.0
}

/// The live segments that are behind `first`, in order.
pub open spec fn behind(st: state::StateView, first: EntryId) -> Seq<SegmentId> {
    st.segments.filter(|x: SegmentEntry| is_behind(st, x.id, first)).map_values(
        |x: SegmentEntry| x.id,
    )
}

proof fn lemma_evicted_are_behind(
    st: state::StateView,
    segments: Seq<SegmentEntry>,
    first: EntryId,
)
    ensures
        store::evicted(segments, st.seals, first) == segments.filter(
            |x: SegmentEntry| is_behind(st, x.id, first),
        ).map_values(|x: SegmentEntry| x.id),
    decreases segments.len(),
{
    let p = |x: SegmentEntry| is_behind(st, x.id, first);
    let f = |x: SegmentEntry| x.id;
    let drop = store::evicted(segments, st.seals, first);
    if segments.len() == 0 {
        reveal(Seq::filter);
        assert(segments.filter(p).map_values(f) =~= drop);
    } else {
        let front = segments.drop_last();
        lemma_evicted_are_behind(st, front, first);
        assert(segments =~= front.push(segments.last()));
        scan_laws::lemma_filtered_push(front, segments.last(), p);
        assert(segments.filter(p).map_values(f) =~= drop);
    }
}

/// A live segment is among those behind `first` exactly where it is.
proof fn lemma_behind(st: state::StateView, first: EntryId, id: SegmentId)
    ensures
        behind(st, first).contains(id) <==> st.is_live(id) && is_behind(st, id, first),
{
    lemma_evicted_are_behind(st, st.segments, first);
    store::lemma_evicted(st.segments, st.seals, first);
    assert(store::evicted(st.segments, st.seals, first).contains(id) <==> is_behind(st, id, first)
        && st.is_live(id));
}

/// Law: an advance of the head buries the sealed segments all of whose entries
/// come before it, and no others. They are dead, in order, behind those that were;
/// the other segments stay live, in order, the head is where it was asked for, and
/// the metadata that came with it is set in the same record. Nothing else changes
/// but the index, in which a lookup finds what it found, unless that is before the
/// head.
#[verifier::spinoff_prover]
pub proof fn law_head_buries_what_is_behind_it(
    s: store::StoreView,
    d: action::Disk,
    first: EntryId,
    meta: Seq<(u8, Seq<u8>)>,
    id: SegmentId,
    target: u64,
)
    requires
        s.manifest == (frame::CursorView {
            pending: Seq::empty(),
            position: d.manifest.len() as u64,
        }),
        first.0 >= s.state.first_entry.0,
        d.manifest.len() + store::op_frame(store::truncate_start_op(s.state, first, meta)).len()
            <= i64::MAX,
        index::ordered(s.index),
    ensures
        ({
            let (s1, p1) = store::begin_truncate_start(s, first, meta);
            let (t, e, q) = op_laws::run(s1, d, p1, 2);
            let op = state::ManifestOpView {
                op: state::OpView::TruncateStart {
                    first_entry: first,
                    drop: behind(s.state, first),
                },
                meta,
            };
            &&& q == store::ProgressView::Finished(Outcome::Done)
            &&& e.manifest == d.manifest + store::op_frame(op)
            &&& e.segments == d.segments
            &&& Ok::<_, ApplyError>(t.state) == state::apply_op(s.state, op)
            &&& t == (store::StoreView {
                state: t.state,
                index: t.index,
                manifest: frame::CursorView {
                    pending: Seq::empty(),
                    position: e.manifest.len() as u64,
                },
                ..s
            })
            &&& t.state.first_entry == first
            &&& t.state.segments == s.state.segments.filter(
                |x: SegmentEntry| !is_behind(s.state, x.id, first),
            )
            &&& s.state.is_live(id) ==> (t.state.is_live(id) <==> !is_behind(s.state, id, first))
            &&& t.state.dead.contains(id) <==> s.state.dead.contains(id) || s.state.is_live(id)
                && is_behind(s.state, id, first)
            &&& index::position_of(t.index, target) == (match index::position_of(s.index, target) {
                Some(p) if p.checkpoint.0 >= first.0 => Some(p),
                _ => None,
            })
        }),
{
    let st = s.state;
    let segs = st.segments;
    let (s1, p1) = store::begin_truncate_start(s, first, meta);
    let op = store::truncate_start_op(st, first, meta);
    let drop = behind(st, first);
    lemma_evicted_are_behind(st, segs, first);
    op_laws::lemma_record_written(
        s,
        d,
        op,
        store::AfterView::TruncateStart { first_entry: first },
        0,
    );
    let (t, e, q) = op_laws::run(s1, d, p1, 2);
    assert(e == op_laws::with_record(d, op));
    state_laws::lemma_kill_all(st, drop);
    state_laws::lemma_killed_are_dropped(st, drop);
    assert forall|i: int| 0 <= i < segs.len() implies drop.contains((#[trigger] segs[i]).id)
        == is_behind(st, segs[i].id, first) by {
        lemma_behind(st, first, segs[i].id);
    }
    lemma_same_filter(
        segs,
        |x: SegmentEntry| !drop.contains(x.id),
        |x: SegmentEntry| !is_behind(st, x.id, first),
    );
    lemma_behind(st, first, id);
    if st.is_live(id) {
        let i = choose|i: int| 0 <= i < segs.len() && (#[trigger] segs[i]).id == id;
        assert(segs.contains(segs[i]));
        if !is_behind(st, id, first) {
            assert(t.state.segments.contains(segs[i]));
            let j = choose|j: int| 0 <= j < t.state.segments.len() && t.state.segments[j] == segs[i];
            assert(t.state.segments[j].id == id);
        } else if t.state.is_live(id) {
            let j = choose|j: int|
                0 <= j < t.state.segments.len() && (#[trigger] t.state.segments[j]).id == id;
            assert(t.state.segments.contains(t.state.segments[j]));
        }
    }
    index::law_index_after_truncate_start(s.index, first.0, target);
}

// ── Rollback ──────────────────────────────────────────────────────────────────

/// Law: a rollback leaves the segments up to the one that holds the last entry,
/// which is written to from now on. The later ones are dead, in order, behind
/// those that were. What the store needs to go on is as it was, and a lookup finds
/// the nearest checkpoint that is not behind the last entry.
#[verifier::spinoff_prover]
pub proof fn law_rollback_leaves_earlier_segments(
    s: store::StoreView,
    d: action::Disk,
    m: int,
    k: int,
    target: u64,
)
    requires
        truncate_end_laws::can_roll_back(s, d, m, k),
    ensures
        ({
            let segs = s.state.segments;
            let last = log_laws::segment_frames(d, segs[m].id)[k].id;
            let (s1, p1) = store::begin_truncate_end(s, EntryId(last));
            let (t, e, q) = op_laws::run(s1, d, p1, 4);
            &&& q == store::ProgressView::Finished(Outcome::Done)
            &&& t.state.segments == segs.take(m + 1)
            &&& t.state.dead == s.state.dead + segs.skip(m + 1).map_values(
                |x: SegmentEntry| x.id,
            )
            &&& t.active_id == segs[m].id
            &&& t.last_entry_id == Some(EntryId(last))
            &&& t.trigger == s.trigger
            &&& t.next_seg_id == s.next_seg_id
            &&& !t.rollover_pending
            &&& e.segments == d.segments.insert(
                segs[m].id,
                d.segments[segs[m].id].take(
                    log_laws::segment_frames(d, segs[m].id)[k].end(),
                ),
            )
            &&& index::position_of(t.index, target) == index::position_of(
                s.index,
                if target < last {
                    target
                } else {
                    last
                },
            )
        }),
{
    let segs = s.state.segments;
    let cut = truncate_end_laws::rollback(s, d, m, k);
    let last = cut.last_valid.0;
    truncate_end_laws::lemma_rollback(s, d, m, k);
    let t1 = truncate_end_laws::lemma_rollback_recorded(s, d, m, k);
    let t = truncate_end_laws::lemma_rollback_done(s, d, m, k);
    lemma_later_segments_die(s.state, d, m, cut.byte_offset);
    lemma_last_in_segment(s, d, m, k);
    let bound = if target < last {
        target
    } else {
        last
    };
    assert(index::ordered(t1.index) && index::ordered(s.index));
    index::law_index_after_truncate_end(t1.index, last, target);
    index::law_index_after_truncate_end(s.index, cut.full_last.0, bound);
}

/// No frame of a segment is behind its last one.
proof fn lemma_last_in_segment(s: store::StoreView, d: action::Disk, m: int, k: int)
    requires
        log_laws::ordered(s.state, d),
        0 <= m < s.state.segments.len(),
        0 <= k < log_laws::segment_frames(d, s.state.segments[m].id).len(),
    ensures
        ({
            let fs = log_laws::segment_frames(d, s.state.segments[m].id);
            fs[k].id <= fs.last().id
        }),
{
    let segs = s.state.segments;
    let fs = log_laws::segment_frames(d, segs[m].id);
    assert(log_laws::frames_between(
        fs,
        segs[m].first_entry.0 as int,
        log_laws::upper(segs, m),
    ));
    if k < fs.len() - 1 {
        assert(fs[k].id < fs[fs.len() - 1].id);
    }
}

/// The segments after place `m` die in order.
proof fn lemma_later_segments_die(st: state::StateView, d: action::Disk, m: int, end: u64)
    requires
        log_laws::files_fit(st, d),
        0 <= m < st.segments.len(),
    ensures
        truncate_end_laws::cut_state(st, m, end).dead == st.dead + st.segments.skip(
            m + 1,
        ).map_values(|x: SegmentEntry| x.id),
{
    let segs = st.segments;
    let ids = truncate_laws::ids_between(segs, m + 1, segs.len() as int);
    assert(ids =~= segs.skip(m + 1).map_values(|x: SegmentEntry| x.id));
    assert(ids.no_duplicates()) by {
        assert forall|i: int, j: int| 0 <= i < ids.len() && 0 <= j < ids.len() && i != j implies ids[i]
            != ids[j] by {
            if i < j {
                assert(segs[m + 1 + i].id != segs[m + 1 + j].id);
            } else {
                assert(segs[m + 1 + j].id != segs[m + 1 + i].id);
            }
        }
    }
    assert forall|i: int| 0 <= i < ids.len() implies !st.dead.contains(#[trigger] ids[i]) by {
        assert(segs[m + 1 + i].id == ids[i]);
        assert(st.is_live(ids[i]));
        if st.dead.contains(ids[i]) {
            let j = choose|j: int| 0 <= j < st.dead.len() && st.dead[j] == ids[i];
            assert(!st.is_live(st.dead[j]));
        }
    }
    record_laws::lemma_die_in_order(st, ids);
}

// ── Writes ────────────────────────────────────────────────────────────────────

/// Law: what a write leaves alone. The index, the threshold, the head, the
/// metadata and the dead stay; the next id is taken, and the first entry of the
/// active segment changes, exactly where a new segment is started, which is then
/// the last one.
#[verifier::spinoff_prover]
pub proof fn law_write_leaves_the_rest(s: store::StoreView, d: action::Disk, batch: Batch)
    requires
        s.manifest == (frame::CursorView {
            pending: Seq::empty(),
            position: d.manifest.len() as u64,
        }),
        s.state.active == Some(s.active_id),
        s.next_seg_id.0 < u32::MAX,
        d.manifest.len() + store::op_frame(store::go_on_op()).len() <= i64::MAX,
        d.manifest.len() + store::op_frame(store::roll_op(s, batch.first)).len() <= i64::MAX,
    ensures
        ({
            let (s1, p1) = store::begin_write(s, batch);
            let (t, e, q) = op_laws::run(s1, d, p1, 4);
            let rolls = s.rollover_pending;
            &&& q is Finished
            &&& t.index == s.index
            &&& t.trigger == s.trigger
            &&& t.last_entry_id == Some(batch.last)
            &&& t.next_seg_id.0 == s.next_seg_id.0 + if rolls {
                1int
            } else {
                0int
            }
            &&& t.active_id == if rolls {
                s.next_seg_id
            } else {
                s.active_id
            }
            &&& t.active_first_entry == if rolls {
                batch.first
            } else {
                s.active_first_entry
            }
            &&& t.active_entry_count == if rolls {
                batch.count
            } else {
                (s.active_entry_count + batch.count) as u64
            }
            &&& t.active.pending.len() == 0
            &&& t.state.first_entry == s.state.first_entry
            &&& t.state.meta == s.state.meta
            &&& t.state.dead == s.state.dead
            &&& t.state.cut_at is None
            &&& t.state.segments == if rolls {
                s.state.segments.push(
                    SegmentEntry { id: s.next_seg_id, first_entry: batch.first },
                )
            } else {
                s.state.segments
            }
            &&& !rolls ==> t.state.seals == s.state.seals && t.state.active == s.state.active
            &&& rolls ==> t.state.active == Some(s.next_seg_id)
        }),
{
    let (s1, p1) = store::begin_write(s, batch);
    if s.rollover_pending {
        let new = s.next_seg_id;
        let d1 = action::perform(d, p1->Next_1);
        let op = store::roll_op(s, batch.first);
        let after = store::AfterView::Rolled { new_id: new, batch };
        let (s2, p2) = store::log_op(s, op, after);
        assert(store::step(s1, p1->Next_0, action::EventView::Done) == (s2, p2));
        assert(op_laws::run(s1, d, p1, 4) == op_laws::run(s2, d1, p2, 3));
        op_laws::lemma_record_written(s, d1, op, after, 1);
        let r = op_laws::rolled_store(s, d, batch);
        assert(state::merge_meta(s.state.meta, op.meta) == s.state.meta);
        lemma_batch_runs(r, op_laws::with_record(d1, op), batch, 0);
    } else if s.state.cut_at is Some {
        let op = store::go_on_op();
        op_laws::lemma_record_written(s, d, op, store::AfterView::WentOn { batch }, 2);
        let e = op_laws::with_record(d, op);
        assert(state::merge_meta(s.state.meta, op.meta) == s.state.meta);
        let r = store::StoreView {
            manifest: frame::CursorView {
                pending: Seq::empty(),
                position: e.manifest.len() as u64,
            },
            state: state::apply_op(s.state, op)->Ok_0,
            ..s
        };
        lemma_batch_runs(r, e, batch, 1);
    } else {
        lemma_batch_runs(s, d, batch, 3);
    }
}

proof fn lemma_batch_runs(s: store::StoreView, d: action::Disk, batch: Batch, steps: nat)
    ensures
        ({
            let p = store::write_batch(s, batch).1;
            let (t, q) = store::step(
                s,
                store::TaskView::WriteBatch { batch },
                action::EventView::Done,
            );
            op_laws::run(s, d, p, steps + 1) == (t, action::perform(d, p->Next_1), q)
        }),
{
    let p = store::write_batch(s, batch).1;
    let (t, q) = store::step(s, p->Next_0, action::EventView::Done);
    let e = action::perform(d, p->Next_1);
    assert(op_laws::run(t, e, q, steps) == (t, e, q));
    assert(op_laws::run(s, d, p, steps + 1) == op_laws::run(t, e, q, steps));
}

// ── Records ───────────────────────────────────────────────────────────────────

/// Law: a record is a frame with id 0, written to the end of the manifest, behind
/// what is waiting there. It is synced before it counts: the state changes only
/// once the sync is done.
pub proof fn law_record_is_synced_before_it_counts(
    s: store::StoreView,
    op: state::ManifestOpView,
    after: store::AfterView,
)
    ensures
        ({
            let frame = frame::encode_frame(0, crate::codec::encode_op(op));
            let (s1, p1) = store::log_op(s, op, after);
            let task = store::TaskView::WriteOp { op, after };
            let (s2, p2) = store::step(s1, task, action::EventView::Done);
            let synced = store::TaskView::SyncOp { op, after };
            let (s3, p3) = store::step(s2, synced, action::EventView::Done);
            let bytes = s.manifest.pending + frame;
            &&& p1 == store::ProgressView::Next(
                task,
                action::ActionView::WriteManifest { offset: s.manifest.position, bytes },
            )
            &&& s1 == (store::StoreView {
                manifest: frame::CursorView { pending: bytes, ..s.manifest },
                ..s
            })
            &&& p2 == store::ProgressView::Next(synced, action::ActionView::SyncManifest)
            &&& s2 == (store::StoreView {
                manifest: frame::CursorView {
                    pending: Seq::empty(),
                    position: (s.manifest.position + bytes.len()) as u64,
                },
                ..s
            })
            &&& (s3, p3) == store::proceed(
                store::StoreView { state: state::apply_op(s.state, op)->Ok_0, ..s2 },
                after,
            )
        }),
{
}

// ── Where a rollback looks ────────────────────────────────────────────────────

/// Law: rolling back to the last entry or beyond, or without any entry, does
/// nothing. Else the segment is read that may hold the entry: the last one that
/// starts at or before it, where segments are in order, or the first one. The
/// entry is looked for from the nearest checkpoint in that segment, or from its
/// first frame, and the later segments are to be dropped.
pub proof fn law_rollback_reads_the_segment_of_the_entry(
    s: store::StoreView,
    last: EntryId,
    m: int,
)
    requires
        0 <= m < s.state.segments.len(),
        forall|i: int, j: int|
            0 <= i <= j < s.state.segments.len() ==> (
            #[trigger] s.state.segments[i]).first_entry.0 <= (
            #[trigger] s.state.segments[j]).first_entry.0,
        m > 0 ==> s.state.segments[m].first_entry.0 <= last.0,
        m + 1 < s.state.segments.len() ==> s.state.segments[m + 1].first_entry.0 > last.0,
    ensures
        ({
            let segs = s.state.segments;
            let (t, p) = store::begin_truncate_end(s, last);
            &&& t == s
            &&& if s.last_entry_id matches Some(id) && last.0 < id.0 {
                &&& p matches store::ProgressView::Next(task, action)
                &&& action == action::ActionView::ReadSegment(segs[m].id)
                &&& task == (store::TaskView::ReadTarget {
                    last_valid: last,
                    target: segs[m].id,
                    start_offset: match index::position_of(s.index, last.0) {
                        Some(c) if c.segment == segs[m].id => c.byte_offset,
                        _ => 8,
                    },
                    drop: segs.skip(m + 1).map_values(|x: SegmentEntry| x.id),
                })
            } else {
                p == store::ProgressView::Finished(Outcome::Done)
            }
        }),
{
    let segs = s.state.segments;
    let k = if segs[0].first_entry.0 <= last.0 {
        m
    } else {
        -1
    };
    if k >= 0 {
        assert forall|i: int| 0 <= i <= k implies (#[trigger] segs[i]).first_entry.0 <= last.0 by {
            if m > 0 {
                assert(segs[i].first_entry.0 <= segs[m].first_entry.0);
            }
        }
    } else {
        assert(m == 0) by {
            if m > 0 {
                assert(segs[0].first_entry.0 <= segs[m].first_entry.0);
            }
        }
    }
    truncate_end_laws::lemma_starting_by(segs, last, k);
    assert(store::target_place(segs, last) == m);
    assert(store::ids_after(segs, m) =~= segs.skip(m + 1).map_values(|x: SegmentEntry| x.id));
}

/// Law: a rollback fails where the segment cannot be read as one, or holds no
/// frame with the id from the offset on, and says where its frames end. Else the
/// rollback is recorded: the segment is to end right behind the first such frame.
/// The frames passed over are returned.
pub proof fn law_rollback_needs_the_entry(
    s: store::StoreView,
    task: store::TaskView,
    data: Seq<u8>,
) -> (fs: Seq<frame::Frame>)
    requires
        task is ReadTarget,
        task->ReadTarget_start_offset <= data.len() <= i64::MAX,
    ensures
        ({
            let (t, p) = store::step(s, task, action::EventView::Contents(data));
            let start = task->ReadTarget_start_offset as int;
            let id = task->ReadTarget_last_valid.0;
            let end = scanner_laws::chain_end(start, fs);
            &&& scanner_laws::chain(data, start, fs)
            &&& !format_laws::begins_as_segment(data) ==> (t, p) == (
                s,
                store::ProgressView::Failed(StoreError::Io(IoFault::InvalidData)),
            )
            &&& format_laws::begins_as_segment(data) ==> {
                if fs.len() > 0 && fs.last().id == id {
                    &&& forall|i: int| 0 <= i < fs.len() - 1 ==> (#[trigger] fs[i]).id != id
                    &&& p matches store::ProgressView::Next(
                        store::TaskView::WriteOp { op, after },
                        _,
                    )
                    &&& (t, p) == store::log_op(s, op, after)
                    &&& op == (state::ManifestOpView {
                        op: state::OpView::TruncateEnd {
                            new_active_id: task->ReadTarget_target,
                            byte_offset: end as u64,
                            drop: task->ReadTarget_drop,
                        },
                        meta: Seq::empty(),
                    })
                } else {
                    &&& forall|i: int| 0 <= i < fs.len() ==> (#[trigger] fs[i]).id != id
                    &&& !(frame::raw_frame_at(data, end) is Whole)
                    &&& (t, p) == (
                        s,
                        store::ProgressView::Failed(
                            StoreError::Scan(ScanError::Truncated { offset: end as u64 }),
                        ),
                    )
                }
            }
        }),
{
    format_laws::lemma_magic(data);
    let start = task->ReadTarget_start_offset as int;
    scanner_laws::law_search_ends_behind_the_id(data, start, task->ReadTarget_last_valid.0)
}

// ── Failures ──────────────────────────────────────────────────────────────────

/// Law: an action that fails ends its operation with the failure, and an answer
/// that does not fit the action does too. The store stays as it was.
pub proof fn law_failure_ends_the_operation(
    s: store::StoreView,
    task: store::TaskView,
    fault: IoFault,
    data: Seq<u8>,
)
    ensures
        store::step(s, task, action::EventView::Failed(fault)) == (
            s,
            store::ProgressView::Failed(StoreError::Io(fault)),
        ),
        !(task is ReadTarget) ==> store::step(s, task, action::EventView::Contents(data)) == (
            s,
            store::ProgressView::Failed(StoreError::Io(IoFault::Other)),
        ),
        task is ReadTarget ==> store::step(s, task, action::EventView::Done) == (
            s,
            store::ProgressView::Failed(StoreError::Io(IoFault::Other)),
        ),
{
}

/// Law: metadata updates and deletions change the state and the manifest, and
/// nothing else of the store.
pub proof fn law_records_leave_the_rest(s: store::StoreView, after: store::AfterView)
    requires
        after is Metadata || after is Deleted,
    ensures
        store::proceed(s, after).0 == s,
{
}

// ── Limits ────────────────────────────────────────────────────────────────────

/// Law: operations go on until a file would be longer than files can be, or ids
/// or counts run out.
pub proof fn law_limits_are_those_of_files_and_ids(s: store::StoreView)
    ensures
        store::within_limits(s) <==> {
            &&& s.manifest.position + s.manifest.pending.len() < 0x8000_0000_0000_0000
            &&& s.active.position + s.active.pending.len() < 0x8000_0000_0000_0000
            &&& s.active_entry_count < 0x8000_0000_0000_0000
            &&& s.next_seg_id.0 < 0xffff_ffff
            &&& s.state.segments.len() <= 0xffff_fff7
        },
{
}

} // verus!
