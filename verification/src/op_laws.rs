//! What writes and metadata updates promise.

use vstd::prelude::*;

use crate::action;
use crate::codec;
use crate::codec_laws;
use crate::files::{MAGIC_LEN, SEGMENT_MAGIC};
use crate::frame;
use crate::frame_laws;
use crate::log_laws;
use crate::manifest_laws;
use crate::state::{self, ApplyError, SealInfo, SegmentEntry};
use crate::state_laws;
use crate::store::{self, Batch, Commit, Outcome};
use crate::tlv;
use crate::{EntryId, SegmentId};

verus! {

broadcast use crate::bytes::lemma_be_bytes_len;

// ── Running an operation ──────────────────────────────────────────────────────

/// What a file system on which nothing fails answers.
pub open spec fn reply(d: action::Disk, action: action::ActionView) -> action::EventView {
    match action {
        action::ActionView::ReadSegment(id) => action::EventView::Contents(d.segments[id]),
        _ => action::EventView::Done,
    }
}

/// An operation carried on for up to `steps` steps, on a file system on which
/// nothing fails.
pub open spec fn run(s: store::StoreView, d: action::Disk, p: store::ProgressView, steps: nat) -> (
    store::StoreView,
    action::Disk,
    store::ProgressView,
)
    decreases steps,
{
    match p {
        store::ProgressView::Next(task, action) if steps > 0 => {
            let (t, q) = store::step(s, task, reply(d, action));
            run(t, action::perform(d, action), q, (steps - 1) as nat)
        },
        _ => (s, d, p),
    }
}

/// An operation that is carried on twice.
pub proof fn lemma_run_on(
    s: store::StoreView,
    d: action::Disk,
    p: store::ProgressView,
    a: nat,
    b: nat,
)
    ensures
        ({
            let (t, e, q) = run(s, d, p, a);
            run(s, d, p, a + b) == run(t, e, q, b)
        }),
    decreases a,
{
    match p {
        store::ProgressView::Next(task, action) if a > 0 => {
            let (t, q) = store::step(s, task, reply(d, action));
            lemma_run_on(t, action::perform(d, action), q, (a - 1) as nat, b);
        },
        _ => {},
    }
}

/// The manifest after a record was appended.
pub open spec fn with_record(d: action::Disk, op: state::ManifestOpView) -> action::Disk {
    action::Disk { manifest: d.manifest + store::op_frame(op), ..d }
}

/// A record that is logged is appended to the manifest, applied, and followed
/// by what comes after it.
pub proof fn lemma_record_written(
    s: store::StoreView,
    d: action::Disk,
    op: state::ManifestOpView,
    after: store::AfterView,
    steps: nat,
)
    requires
        s.manifest == (frame::CursorView {
            pending: Seq::empty(),
            position: d.manifest.len() as u64,
        }),
        d.manifest.len() + store::op_frame(op).len() <= i64::MAX,
    ensures
        ({
            let (s1, p1) = store::log_op(s, op, after);
            let applied = store::StoreView {
                manifest: frame::CursorView {
                    pending: Seq::empty(),
                    position: with_record(d, op).manifest.len() as u64,
                },
                state: state::apply_op(s.state, op)->Ok_0,
                ..s
            };
            let (s2, p2) = store::proceed(applied, after);
            run(s1, d, p1, steps + 2) == run(s2, with_record(d, op), p2, steps)
        }),
{
    let (s1, p1) = store::log_op(s, op, after);
    let frame = store::op_frame(op);
    let (task, action) = (p1->Next_0, p1->Next_1);
    assert(s.manifest.pending + frame =~= frame);
    let d1 = action::perform(d, action);
    assert(d1.manifest =~= d.manifest + frame);
    assert(d1 =~= with_record(d, op));
    let (s2, p2) = store::step(s1, task, action::EventView::Done);
    assert(run(s1, d, p1, steps + 2) == run(s2, d1, p2, steps + 1));
    let d2 = action::perform(d1, p2->Next_1);
    assert(d2 == d1);
    let (s3, p3) = store::step(s2, p2->Next_0, action::EventView::Done);
    assert(run(s2, d1, p2, steps + 1) == run(s3, d2, p3, steps));
    assert(s2.manifest.position == d1.manifest.len());
}

// ── Sizes of records ──────────────────────────────────────────────────────────

proof fn lemma_small_fields(fields: Seq<(u16, Seq<u8>)>)
    requires
        forall|i: int| 0 <= i < fields.len() ==> (#[trigger] fields[i]).1.len() <= 8,
    ensures
        tlv::fields_bytes(fields).len() <= 14 * fields.len(),
    decreases fields.len(),
{
    if fields.len() > 0 {
        let rest = fields.skip(1);
        assert forall|i: int| 0 <= i < rest.len() implies (#[trigger] rest[i]).1.len() <= 8 by {
            assert(rest[i] == fields[i + 1]);
        }
        assert(fields[0].1.len() <= 8);
        lemma_small_fields(rest);
    }
}

/// A record without metadata takes at most 14 bytes per field, and 5 more.
pub proof fn lemma_bare_record_size(op: state::OpView)
    requires
        codec::encodable(state_laws::bare(op)),
    ensures
        codec_laws::encodes_exactly(state_laws::bare(op)),
        codec::encode_op(
            state_laws::bare(op),
        ).len() <= 5 + 14 * codec::op_fields(state_laws::bare(op)).len(),
        codec::op_fields(state_laws::bare(op)).len() == 1 + crate::codec::body_fields(op).len(),
{
    let fields = codec::op_fields(state_laws::bare(op));
    assert forall|i: int| 0 <= i < fields.len() implies (#[trigger] fields[i]).1.len() <= 8 by {
        if i > 0 {
            assert(fields[i] == crate::codec::body_fields(op)[i - 1]);
        }
    }
    lemma_small_fields(fields);
}

pub proof fn lemma_roll_is_recordable(s: store::StoreView, first: EntryId)
    ensures
        manifest_laws::recordable(store::roll_op(s, first)),
        store::op_frame(store::roll_op(s, first)).len() <= 256,
{
    lemma_bare_record_size(store::roll_op(s, first).op);
}

// ── Metadata ──────────────────────────────────────────────────────────────────

/// Law: metadata that is written is in the manifest, so that it is there when
/// the store is opened again, and neither the log nor its head changes. A
/// rollback that was not completed ends with what is left.
pub proof fn law_metadata_is_persistent(
    s: store::StoreView,
    d: action::Disk,
    pairs: Seq<(u8, Seq<u8>)>,
)
    requires
        log_laws::fitting(s, d),
        manifest_laws::recordable(
            state::ManifestOpView { op: state::OpView::Metadata, meta: pairs },
        ),
        d.manifest.len() + store::op_frame(
            state::ManifestOpView { op: state::OpView::Metadata, meta: pairs },
        ).len()
            <= i64::MAX,
    ensures
        ({
            let op = state::ManifestOpView { op: state::OpView::Metadata, meta: pairs };
            let (s1, p1) = store::log_op(s, op, store::AfterView::Metadata);
            let (t, e, q) = run(s1, d, p1, 2);
            &&& q == store::ProgressView::Finished(Outcome::Done)
            &&& log_laws::synced(t, e)
            &&& t.state == (state::StateView {
                meta: crate::state::merge_meta(s.state.meta, pairs),
                cut_at: None,
                ..s.state
            })
            &&& log_laws::log_of(t.state.segments, e) == log_laws::log_of(s.state.segments, d)
        }),
{
    let op = state::ManifestOpView { op: state::OpView::Metadata, meta: pairs };
    let (s1, p1) = store::log_op(s, op, store::AfterView::Metadata);
    lemma_record_written(s, d, op, store::AfterView::Metadata, 0);
    let (t, e, q) = run(s1, d, p1, 2);
    assert(e == with_record(d, op));
    manifest_laws::law_manifest_follows_state(s.state, d.manifest, op);
    lemma_structure_decides(s.state, t.state, d, e);
    log_laws::lemma_log_same_files(s.state.segments, d, e);
    lemma_index_same_files(s.index, s.state.segments, d, e);
    assert(log_laws::last_ok(t, e));
}

/// Whether the files fit does not depend on the metadata, nor on the head.
pub proof fn lemma_structure_decides(
    st: state::StateView,
    new: state::StateView,
    d: action::Disk,
    e: action::Disk,
)
    requires
        log_laws::files_fit(st, d),
        log_laws::ordered(st, d),
        new.segments == st.segments,
        new.seals == st.seals,
        new.active == st.active,
        new.dead == st.dead,
        e.segments == d.segments,
        manifest_laws::manifest_ok(new, e.manifest),
        e.manifest.len() <= i64::MAX,
    ensures
        log_laws::files_fit(new, e),
        log_laws::ordered(new, e),
{
    assert forall|id: SegmentId| #[trigger] new.is_live(id) == st.is_live(id) by {
        assert(new.segments == st.segments);
    }
    assert forall|id: SegmentId| #[trigger] new.seals.contains_key(id) implies new.is_live(id) by {
        assert(st.seals.contains_key(id));
    }
    assert forall|id: SegmentId| #[trigger] e.segments.contains_key(id) <==> new.is_live(id)
        || new.dead.contains(id) by {
        assert(d.segments.contains_key(id) <==> st.is_live(id) || st.dead.contains(id));
    }
    assert forall|i: int| 0 <= i < new.segments.len() implies log_laws::frames_between(
        log_laws::segment_frames(e, (#[trigger] new.segments[i]).id),
        new.segments[i].first_entry.0 as int,
        log_laws::upper(new.segments, i),
    ) by {
        assert(log_laws::frames_between(
            log_laws::segment_frames(d, st.segments[i].id),
            st.segments[i].first_entry.0 as int,
            log_laws::upper(st.segments, i),
        ));
    }
}

/// The index stays good while the files of live segments stay the same.
pub proof fn lemma_index_same_files(
    index: Seq<(SegmentId, Seq<(EntryId, u64)>)>,
    segments: Seq<SegmentEntry>,
    d: action::Disk,
    e: action::Disk,
)
    requires
        log_laws::index_ok(index, segments, d),
        forall|i: int|
            0 <= i < segments.len() ==> e.segments[(#[trigger] segments[i]).id]
                == d.segments[segments[i].id],
    ensures
        log_laws::index_ok(index, segments, e),
{
    assert forall|i: int, c: int|
        #![trigger index[i].1[c]]
        0 <= i < index.len() && 0 <= c < index[i].1.len() implies log_laws::checkpoint_ok(
        segments,
        e,
        index[i].0,
        index[i].1[c],
    ) by {
        assert(log_laws::checkpoint_ok(segments, d, index[i].0, index[i].1[c]));
    }
}

// ── Writes ────────────────────────────────────────────────────────────────────

/// The store without what is buffered for the active segment.
pub open spec fn unbuffered(s: store::StoreView) -> store::StoreView {
    store::StoreView { active: frame::CursorView { pending: Seq::empty(), ..s.active }, ..s }
}

/// What a writer hands over for a list of entries.
pub open spec fn batch_of(es: Seq<(u64, Seq<u8>)>) -> Batch {
    Batch {
        first: EntryId(es[0].0),
        last: EntryId(es.last().0),
        count: es.len() as u64,
    }
}

/// The entries can follow the log: ids go on up, none is below where the active
/// segment starts, and every length fits.
pub open spec fn can_follow(s: store::StoreView, d: action::Disk, es: Seq<(u64, Seq<u8>)>) -> bool {
    &&& es.len() > 0
    &&& log_laws::payloads_fit(es)
    &&& log_laws::increasing(log_laws::log_of(s.state.segments, d) + es)
    &&& es[0].0 >= s.active_first_entry.0
}

/// The frames of the last segment are the end of the log.
pub proof fn lemma_last_frames_in_log(segments: Seq<SegmentEntry>, d: action::Disk, k: int)
    requires
        segments.len() > 0,
        0 <= k < log_laws::segment_frames(d, segments.last().id).len(),
    ensures
        ({
            let fs = log_laws::segment_frames(d, segments.last().id);
            let es = log_laws::log_of(segments, d);
            let i = es.len() - fs.len() + k;
            0 <= i < es.len() && es[i].0 == fs[k].id
        }),
{
    let fs = log_laws::segment_frames(d, segments.last().id);
    let before = log_laws::log_of(segments.drop_last(), d);
    assert(log_laws::log_of(segments, d) == before + log_laws::entries_of(fs));
    assert((before + log_laws::entries_of(fs))[before.len() + k] == log_laws::entries_of(fs)[k]);
}

/// The files after entries were appended to the active segment.
pub open spec fn with_entries(
    d: action::Disk,
    id: SegmentId,
    es: Seq<(u64, Seq<u8>)>,
) -> action::Disk {
    action::Disk { segments: d.segments.insert(id, d.segments[id] + log_laws::encode_all(es)), ..d }
}

/// Files and store agree after buffered entries were written.
#[verifier::spinoff_prover]
proof fn lemma_batch_written(s: store::StoreView, d: action::Disk, es: Seq<(u64, Seq<u8>)>)
    requires
        log_laws::fitting(unbuffered(s), d),
        s.state.cut_at is None,
        s.active.pending == log_laws::encode_all(es),
        can_follow(s, d, es),
        d.segments[s.active_id].len() + log_laws::encode_all(es).len() <= i64::MAX,
    ensures
        ({
            let (t, q) = store::step(
                s,
                store::TaskView::WriteBatch { batch: batch_of(es) },
                action::EventView::Done,
            );
            let e = with_entries(d, s.active_id, es);
            &&& action::perform(
                d,
                action::ActionView::WriteSegment {
                    id: s.active_id,
                    offset: s.active.position,
                    bytes: s.active.pending,
                },
            ) == e
            &&& q == store::ProgressView::Finished(Outcome::Written(Commit(Some(s.active_id))))
            &&& log_laws::synced(t, e)
            &&& t.state == s.state
            &&& t.active_id == s.active_id
            &&& t.last_entry_id == Some(EntryId(es.last().0))
            &&& t.rollover_pending == (s.rollover_pending || e.segments[t.active_id].len()
                > s.trigger)
            &&& log_laws::log_of(t.state.segments, e) == log_laws::log_of(s.state.segments, d) + es
        }),
{
    let st = s.state;
    let segs = st.segments;
    let n = segs.len() as int;
    let id = s.active_id;
    let data = d.segments[id];
    let bytes = log_laws::encode_all(es);
    let e = with_entries(d, id, es);
    let (t, q) = store::step(
        s,
        store::TaskView::WriteBatch { batch: batch_of(es) },
        action::EventView::Done,
    );
    let start = MAGIC_LEN as int;
    assert(segs[n - 1].id == id);
    assert(data.take(data.len() as int) + bytes =~= data + bytes);
    assert(action::perform(
        d,
        action::ActionView::WriteSegment { id, offset: s.active.position, bytes: s.active.pending },
    ) =~= e);
    log_laws::lemma_append_entries(data, start, es);
    let old_fs = log_laws::segment_frames(d, id);
    let fs = log_laws::segment_frames(e, id);
    assert(e.segments[id] == data + bytes);
    assert((data + bytes).take(start) =~= data.take(start));
    assert(log_laws::sound(e.segments[id]));
    frame_laws::lemma_frame_count(e.segments[id], start);
    // Other segments keep their files.
    assert forall|i: int| 0 <= i < n - 1 implies e.segments[(#[trigger] segs[i]).id]
        == d.segments[segs[i].id] by {
        assert(segs[i].id != segs[n - 1].id);
    }
    // The log grows by the entries.
    let front = segs.drop_last();
    assert forall|i: int| 0 <= i < front.len() implies d.segments[(#[trigger] front[i]).id]
        == e.segments[front[i].id] by {
        assert(front[i] == segs[i]);
    }
    log_laws::lemma_log_same_files(front, d, e);
    assert(log_laws::entries_of(fs) == log_laws::entries_of(old_fs) + es);
    assert(log_laws::log_of(segs, e) =~= log_laws::log_of(segs, d) + es);
    // Files.
    assert forall|i: int| 0 <= i < n implies e.segments.contains_key((#[trigger] segs[i]).id)
        && log_laws::sound(e.segments[segs[i].id]) by {
        assert(d.segments.contains_key(segs[i].id) && log_laws::sound(d.segments[segs[i].id]));
    }
    assert forall|i: int| 0 <= i < n - 1 implies log_laws::seal_ok(
        e.segments[(#[trigger] segs[i]).id],
        st.seals[segs[i].id],
    ) by {
        assert(log_laws::seal_ok(d.segments[segs[i].id], st.seals[segs[i].id]));
    }
    assert forall|x: SegmentId| #[trigger] e.segments.contains_key(x) <==> st.is_live(x)
        || st.dead.contains(x) by {
        assert(d.segments.contains_key(x) <==> st.is_live(x) || st.dead.contains(x));
        assert(d.segments.contains_key(id));
    }
    assert(log_laws::files_fit(st, e));
    // Order.
    assert(fs.len() == old_fs.len() + es.len());
    assert forall|k: int| 0 <= k < fs.len() implies (#[trigger] fs[k]).id
        >= segs[n - 1].first_entry.0 && (k < old_fs.len() ==> fs[k] == old_fs[k]) && (k
        >= old_fs.len() ==> fs[k].id == es[k - old_fs.len()].0) by {
        if k < old_fs.len() {
            assert(fs.take(old_fs.len() as int)[k] == fs[k]);
            assert(log_laws::frames_between(
                log_laws::segment_frames(d, segs[n - 1].id),
                segs[n - 1].first_entry.0 as int,
                log_laws::upper(segs, n - 1),
            ));
        } else {
            let j = k - old_fs.len();
            assert(log_laws::entries_of(fs)[k] == es[j]);
            let all = log_laws::log_of(segs, d) + es;
            let base = log_laws::log_of(segs, d).len();
            assert(all[base as int] == es[0]);
            if j > 0 {
                assert(all[base + j] == es[j]);
            }
        }
    }
    assert forall|a: int, b: int| 0 <= a < b < fs.len() implies (#[trigger] fs[a]).id < (
    #[trigger] fs[b]).id by {
        let all = log_laws::log_of(segs, d) + es;
        let base = log_laws::log_of(segs, d).len();
        if b < old_fs.len() {
            assert(old_fs[a].id < old_fs[b].id) by {
                assert(log_laws::frames_between(
                    log_laws::segment_frames(d, segs[n - 1].id),
                    segs[n - 1].first_entry.0 as int,
                    log_laws::upper(segs, n - 1),
                ));
            }
        } else {
            let j = b - old_fs.len();
            assert(all[base + j] == es[j]);
            if a < old_fs.len() {
                lemma_last_frames_in_log(segs, d, a);
                let i = base - old_fs.len() + a;
                assert(all[i] == log_laws::log_of(segs, d)[i]);
            } else {
                let i = a - old_fs.len();
                assert(all[base + i] == es[i]);
            }
        }
    }
    assert forall|i: int| 0 <= i < n implies log_laws::frames_between(
        log_laws::segment_frames(e, (#[trigger] segs[i]).id),
        segs[i].first_entry.0 as int,
        log_laws::upper(segs, i),
    ) by {
        if i < n - 1 {
            assert(log_laws::frames_between(
                log_laws::segment_frames(d, segs[i].id),
                segs[i].first_entry.0 as int,
                log_laws::upper(segs, i),
            ));
        }
    }
    assert(log_laws::ordered(st, e));
    // Memory.
    assert(fs.last().id == es.last().0) by {
        assert(log_laws::entries_of(fs)[fs.len() - 1] == es[es.len() - 1]);
    }
    assert(log_laws::last_ok(t, e));
    let index = s.index;
    assert forall|i: int, c: int|
        #![trigger index[i].1[c]]
        0 <= i < index.len() && 0 <= c < index[i].1.len() implies log_laws::checkpoint_ok(
        segs,
        e,
        index[i].0,
        index[i].1[c],
    ) by {
        assert(log_laws::checkpoint_ok(segs, d, index[i].0, index[i].1[c]));
        if index[i].0 == id {
            let k = choose|k: int|
                0 <= k < old_fs.len() && (#[trigger] old_fs[k]).id == index[i].1[c].0.0
                    && old_fs[k].start == index[i].1[c].1;
            assert(fs[k] == old_fs[k]);
        }
    }
    assert(log_laws::index_ok(index, segs, e));
    assert forall|x: SegmentId| #[trigger] e.segments.contains_key(x) implies x.0
        < t.next_seg_id.0 by {
        assert(d.segments.contains_key(id));
        assert(d.segments.contains_key(x));
    }
    assert(t.active == (frame::CursorView {
        pending: Seq::empty(),
        position: e.segments[id].len() as u64,
    }));
    assert(log_laws::memory_matches(t, e));
}

/// The files after a rollover.
pub open spec fn rolled(s: store::StoreView, d: action::Disk, first: EntryId) -> action::Disk {
    with_record(
        action::Disk { segments: d.segments.insert(s.next_seg_id, SEGMENT_MAGIC@), ..d },
        store::roll_op(s, first),
    )
}

/// The store after a rollover.
pub open spec fn rolled_store(
    s: store::StoreView,
    d: action::Disk,
    batch: Batch,
) -> store::StoreView {
    store::proceed(
        store::StoreView {
            manifest: frame::CursorView {
                pending: Seq::empty(),
                position: rolled(s, d, batch.first).manifest.len() as u64,
            },
            state: state::apply_op(s.state, store::roll_op(s, batch.first))->Ok_0,
            ..s
        },
        store::AfterView::Rolled { new_id: s.next_seg_id, batch },
    ).0
}

pub proof fn lemma_new_segment_is_sound()
    ensures
        log_laws::sound(SEGMENT_MAGIC@),
        frame::frames(SEGMENT_MAGIC@, MAGIC_LEN as int) == Seq::<crate::frame::Frame>::empty(),
{
    let data = SEGMENT_MAGIC@;
    assert(data.take(MAGIC_LEN as int) =~= data);
    assert(crate::frame::raw_frame_at(data, MAGIC_LEN as int) is End);
}

/// Files and store agree after a rollover, and the new segment is empty.
#[verifier::spinoff_prover]
proof fn lemma_rolled(s: store::StoreView, d: action::Disk, es: Seq<(u64, Seq<u8>)>)
    requires
        log_laws::fitting(unbuffered(s), d),
        s.rollover_pending,
        can_follow(s, d, es),
        s.next_seg_id.0 < u32::MAX,
        d.manifest.len() + store::op_frame(store::roll_op(s, batch_of(es).first)).len() <= i64::MAX,
    ensures
        ({
            let batch = batch_of(es);
            let t = rolled_store(s, d, batch);
            let e = rolled(s, d, batch.first);
            &&& log_laws::fitting(unbuffered(t), e)
            &&& t.state.cut_at is None
            &&& t.active.pending == s.active.pending
            &&& t.state.first_entry == s.state.first_entry
            &&& t.state.meta == s.state.meta
            &&& t.active_id == s.next_seg_id
            &&& e.segments[t.active_id].len() == MAGIC_LEN
            &&& log_laws::log_of(t.state.segments, e) == log_laws::log_of(s.state.segments, d)
            &&& t.active_first_entry == batch.first
        }),
{
    let batch = batch_of(es);
    let first = batch.first;
    let st = s.state;
    let segs = st.segments;
    let n = segs.len() as int;
    let new = s.next_seg_id;
    let op = store::roll_op(s, first);
    let t = rolled_store(s, d, batch);
    let e = rolled(s, d, first);
    let after = t.state.segments;
    let fs = log_laws::segment_frames(d, s.active_id);
    assert(segs[n - 1].id == s.active_id);
    assert(!d.segments.contains_key(new));
    lemma_roll_is_recordable(s, first);
    manifest_laws::law_manifest_follows_state(st, d.manifest, op);
    lemma_new_segment_is_sound();
    assert(crate::state::merge_meta(st.meta, op.meta) == st.meta);
    let entry = SegmentEntry { id: new, first_entry: first };
    assert(after == segs.push(entry));
    assert(t.state.seals == st.seals.insert(s.active_id, st_seal(s, first)));
    assert(e.segments == d.segments.insert(new, SEGMENT_MAGIC@));
    assert forall|i: int| 0 <= i < n implies (#[trigger] after[i]) == segs[i] && after[i].id.0
        < new.0 && d.segments.contains_key(after[i].id) by {
        assert(d.segments.contains_key(segs[i].id));
    }
    assert(log_laws::segment_frames(e, new).len() == 0);
    // Files.
    assert(store::distinct(after));
    assert forall|i: int| 0 <= i < after.len() implies e.segments.contains_key(
        (#[trigger] after[i]).id,
    ) && log_laws::sound(e.segments[after[i].id]) by {
        if i < n {
            assert(d.segments.contains_key(segs[i].id) && log_laws::sound(d.segments[segs[i].id]));
        }
    }
    assert forall|i: int| 0 <= i < after.len() implies (t.state.seals.contains_key(
        (#[trigger] after[i]).id,
    ) <==> i < after.len() - 1) by {
        if i < n {
            assert(st.seals.contains_key(segs[i].id) <==> i < n - 1);
        } else {
            if st.seals.contains_key(new) {
                assert(st.is_live(new));
                assert(d.segments.contains_key(new));
            }
        }
    }
    assert forall|i: int| 0 <= i < after.len() - 1 implies log_laws::seal_ok(
        e.segments[(#[trigger] after[i]).id],
        t.state.seals[after[i].id],
    ) by {
        if i < n - 1 {
            assert(log_laws::seal_ok(d.segments[segs[i].id], st.seals[segs[i].id]));
            assert(segs[i].id != segs[n - 1].id);
        }
    }
    assert forall|id: SegmentId| #[trigger] t.state.is_live(id) <==> st.is_live(id) || id
        == new by {
        if t.state.is_live(id) {
            let i = choose|i: int| 0 <= i < after.len() && (#[trigger] after[i]).id == id;
            if i < n {
                assert(segs[i].id == id);
            }
        }
        if st.is_live(id) {
            let i = choose|i: int| 0 <= i < segs.len() && (#[trigger] segs[i]).id == id;
            assert(after[i].id == id);
        }
        assert(after[n].id == new);
    }
    assert forall|id: SegmentId| #[trigger] t.state.seals.contains_key(id) implies t.state.is_live(
        id,
    ) by {
        if id != s.active_id {
            assert(st.seals.contains_key(id));
        } else {
            assert(segs[n - 1].id == id);
            assert(st.is_live(id));
        }
    }
    assert forall|id: SegmentId| #[trigger] e.segments.contains_key(id) <==> t.state.is_live(id)
        || t.state.dead.contains(id) by {
        assert(d.segments.contains_key(id) <==> st.is_live(id) || st.dead.contains(id));
    }
    assert forall|i: int| 0 <= i < t.state.dead.len() implies !t.state.is_live(
        #[trigger] t.state.dead[i],
    ) by {
        assert(!st.is_live(st.dead[i]));
        assert(st.dead.contains(st.dead[i]));
        assert(d.segments.contains_key(st.dead[i]));
    }
    assert(log_laws::files_fit(t.state, e));
    // Order.
    let all = log_laws::log_of(segs, d) + es;
    let base = log_laws::log_of(segs, d).len();
    assert(all[base as int] == es[0]);
    assert forall|i: int| 0 <= i < after.len() implies log_laws::frames_between(
        log_laws::segment_frames(e, (#[trigger] after[i]).id),
        after[i].first_entry.0 as int,
        log_laws::upper(after, i),
    ) by {
        if i < n {
            assert(log_laws::frames_between(
                log_laws::segment_frames(d, segs[i].id),
                segs[i].first_entry.0 as int,
                log_laws::upper(segs, i),
            ));
            assert(
                log_laws::segment_frames(e, after[i].id) == log_laws::segment_frames(d, segs[i].id)
            );
            if i == n - 1 {
                assert(log_laws::upper(after, i) == es[0].0);
                assert forall|k: int| 0 <= k < fs.len() implies (#[trigger] fs[k]).id < es[0].0 by {
                    lemma_last_frames_in_log(segs, d, k);
                    let m = base - fs.len() + k;
                    assert(all[m] == log_laws::log_of(segs, d)[m]);
                }
            } else {
                assert(log_laws::upper(after, i) == log_laws::upper(segs, i)) by {
                    assert(after[i + 1] == segs[i + 1]);
                }
            }
        }
    }
    assert forall|i: int, j: int| 0 <= i <= j < after.len() implies (
    #[trigger] after[i]).first_entry.0 <= (#[trigger] after[j]).first_entry.0 by {
        if j == n && i < n {
            assert(segs[i].first_entry.0 <= segs[n - 1].first_entry.0);
        }
    }
    assert(log_laws::ordered(t.state, e));
    // The log is the same.
    assert forall|i: int| 0 <= i < segs.len() implies d.segments[(#[trigger] segs[i]).id]
        == e.segments[segs[i].id] by {
        assert(after[i] == segs[i]);
    }
    log_laws::lemma_log_same_files(segs, d, e);
    assert(after.drop_last() =~= segs);
    assert(
        log_laws::log_of(after, e) =~= log_laws::log_of(segs, e) + log_laws::entries_of(
            log_laws::segment_frames(e, new),
        )
    );
    assert(log_laws::log_of(after, e) =~= log_laws::log_of(segs, d));
    // Memory.
    let u = unbuffered(t);
    assert forall|id: SegmentId| #[trigger] e.segments.contains_key(id) implies id.0
        < u.next_seg_id.0 by {
        if id != new {
            assert(d.segments.contains_key(id));
        }
    }
    let index = s.index;
    assert forall|i: int, c: int|
        #![trigger index[i].1[c]]
        0 <= i < index.len() && 0 <= c < index[i].1.len() implies log_laws::checkpoint_ok(
        after,
        e,
        index[i].0,
        index[i].1[c],
    ) by {
        assert(log_laws::checkpoint_ok(segs, d, index[i].0, index[i].1[c]));
        let k = choose|k: int| 0 <= k < segs.len() && (#[trigger] segs[k]).id == index[i].0;
        assert(after[k].id == index[i].0);
    }
    assert(log_laws::index_ok(index, after, e));
    assert(after[after.len() - 2] == segs[n - 1]);
    assert(log_laws::last_ok(u, e));
    assert(log_laws::memory_matches(u, e));
}

/// The store once it is on record that it goes on after a rollback.
spec fn went_on(s: store::StoreView, d: action::Disk) -> store::StoreView {
    store::StoreView {
        manifest: frame::CursorView {
            pending: Seq::empty(),
            position: with_record(d, store::go_on_op()).manifest.len() as u64,
        },
        state: state::StateView { cut_at: None, ..s.state },
        ..s
    }
}

/// Files and store agree once it is on record that the store goes on.
proof fn lemma_went_on(s: store::StoreView, d: action::Disk, batch: Batch)
    requires
        log_laws::fitting(unbuffered(s), d),
        d.manifest.len() + store::op_frame(store::go_on_op()).len() <= i64::MAX,
    ensures
        log_laws::fitting(unbuffered(went_on(s, d)), with_record(d, store::go_on_op())),
        state::apply_op(s.state, store::go_on_op()) == Ok::<_, ApplyError>(
            went_on(s, d).state,
        ),
{
    let op = store::go_on_op();
    let e = with_record(d, op);
    let t = went_on(s, d);
    assert(state::merge_meta(s.state.meta, op.meta) == s.state.meta);
    lemma_bare_record_size(op.op);
    manifest_laws::law_manifest_follows_state(s.state, d.manifest, op);
    lemma_structure_decides(s.state, t.state, d, e);
    lemma_index_same_files(s.index, s.state.segments, d, e);
    assert(log_laws::last_ok(unbuffered(t), e));
}

/// The seal that a rollover records.
pub open spec fn st_seal(s: store::StoreView, first: EntryId) -> SealInfo {
    store::roll_op(s, first).op->RollSegment_seal
}

/// Law: entries that are written are the new end of the log, in order, whether
/// or not a new segment is started for them, and the store agrees with its files
/// again. All of them go to one segment: to a new one exactly if the active one
/// was left beyond the rollover threshold by the write before. Neither the head
/// of the log nor the metadata changes. Where a rollback was not completed, the
/// entries follow what it has left.
#[verifier::spinoff_prover]
pub proof fn law_written_entries_end_the_log(
    s: store::StoreView,
    d: action::Disk,
    es: Seq<(u64, Seq<u8>)>,
)
    requires
        log_laws::fitting(unbuffered(s), d),
        s.active.pending == log_laws::encode_all(es),
        can_follow(s, d, es),
        d.segments[s.active_id].len() + log_laws::encode_all(es).len() <= i64::MAX,
        s.state.cut_at is Some ==> d.manifest.len() + store::op_frame(store::go_on_op()).len()
            <= i64::MAX,
        s.rollover_pending ==> s.next_seg_id.0 < u32::MAX && d.manifest.len() + store::op_frame(
            store::roll_op(s, batch_of(es).first),
        ).len() <= i64::MAX,
    ensures
        ({
            let (s1, p1) = store::begin_write(s, batch_of(es));
            let (t, e, q) = run(s1, d, p1, 4);
            &&& q == store::ProgressView::Finished(Outcome::Written(Commit(Some(t.active_id))))
            &&& log_laws::synced(t, e)
            &&& log_laws::log_of(t.state.segments, e) == log_laws::log_of(s.state.segments, d) + es
            &&& t.last_entry_id == Some(EntryId(es.last().0))
            &&& t.active_id == if s.rollover_pending {
                s.next_seg_id
            } else {
                s.active_id
            }
            &&& t.rollover_pending <==> e.segments[t.active_id].len() > s.trigger
            &&& t.state.first_entry == s.state.first_entry
            &&& t.state.meta == s.state.meta
        }),
{
    let batch = batch_of(es);
    let (s1, p1) = store::begin_write(s, batch);
    if s.rollover_pending {
        let new = s.next_seg_id;
        let d1 = action::Disk { segments: d.segments.insert(new, SEGMENT_MAGIC@), ..d };
        assert(action::perform(d, p1->Next_1) == d1);
        let op = store::roll_op(s, batch.first);
        let after = store::AfterView::Rolled { new_id: new, batch };
        let (s2, p2) = store::log_op(s, op, after);
        assert(store::step(s1, p1->Next_0, action::EventView::Done) == (s2, p2));
        assert(run(s1, d, p1, 4) == run(s2, d1, p2, 3));
        lemma_record_written(s, d1, op, after, 1);
        let r = rolled_store(s, d, batch);
        let e1 = rolled(s, d, batch.first);
        let p3 = crate::store::write_batch(r, batch).1;
        assert(run(s2, d1, p2, 3) == run(r, e1, p3, 1));
        lemma_rolled(s, d, es);
        assert(can_follow(r, e1, es));
        lemma_batch_written(r, e1, es);
        let (t, q) = store::step(r, store::TaskView::WriteBatch { batch }, action::EventView::Done);
        assert(run(r, e1, p3, 1) == run(t, with_entries(e1, r.active_id, es), q, 0));
    } else if s.state.cut_at is Some {
        lemma_went_on(s, d, batch);
        let r = went_on(s, d);
        let e1 = with_record(d, store::go_on_op());
        let p3 = crate::store::write_batch(r, batch).1;
        assert(run(s1, d, p1, 4) == run(r, e1, p3, 2)) by {
            lemma_record_written(s, d, store::go_on_op(), store::AfterView::WentOn { batch }, 2);
        }
        log_laws::lemma_log_same_files(s.state.segments, d, e1);
        assert(can_follow(r, e1, es));
        lemma_batch_written(r, e1, es);
        let (t, q) = store::step(r, store::TaskView::WriteBatch { batch }, action::EventView::Done);
        assert(run(r, e1, p3, 2) == run(t, with_entries(e1, r.active_id, es), q, 1));
    } else {
        lemma_batch_written(s, d, es);
        let (t, q) = store::step(s, store::TaskView::WriteBatch { batch }, action::EventView::Done);
        assert(run(s1, d, p1, 4) == run(t, with_entries(d, s.active_id, es), q, 3));
    }
}

/// Law: a rollover seals the active segment with what it holds, after a rollback
/// into it too: where it starts, its last entry, the number of its frames (as far
/// as 32 bits hold it) and its size. The new segment is empty and starts with the
/// entries that are waiting, none of which is lost.
pub proof fn law_rollover_seals_what_the_segment_holds(
    s: store::StoreView,
    d: action::Disk,
    batch: Batch,
)
    requires
        log_laws::fitting(unbuffered(s), d),
        s.rollover_pending,
        s.next_seg_id.0 < u32::MAX,
        d.manifest.len() + store::op_frame(store::roll_op(s, batch.first)).len() <= i64::MAX,
    ensures
        ({
            let segs = s.state.segments;
            let fs = log_laws::segment_frames(d, s.active_id);
            let (s1, p1) = store::begin_write(s, batch);
            let (t, e, q) = run(s1, d, p1, 3);
            &&& q == crate::store::write_batch(t, batch).1
            &&& fs.len() > 0
            &&& t.state.seals == s.state.seals.insert(
                s.active_id,
                SealInfo {
                    first_entry: segs.last().first_entry,
                    last_entry: EntryId(fs.last().id),
                    entry_count: fs.len() as u32,
                    final_size: d.segments[s.active_id].len() as u64,
                },
            )
            &&& t.state.segments == segs.push(
                SegmentEntry { id: s.next_seg_id, first_entry: batch.first },
            )
            &&& t.state.active == Some(s.next_seg_id)
            &&& t.active_id == s.next_seg_id
            &&& t.active.pending == s.active.pending
            &&& e.segments == d.segments.insert(s.next_seg_id, SEGMENT_MAGIC@)
        }),
{
    let (s1, p1) = store::begin_write(s, batch);
    let new = s.next_seg_id;
    let d1 = action::Disk { segments: d.segments.insert(new, SEGMENT_MAGIC@), ..d };
    let op = store::roll_op(s, batch.first);
    let after = store::AfterView::Rolled { new_id: new, batch };
    let (s2, p2) = store::log_op(s, op, after);
    assert(action::perform(d, p1->Next_1) == d1);
    assert(store::step(s1, p1->Next_0, action::EventView::Done) == (s2, p2));
    assert(run(s1, d, p1, 3) == run(s2, d1, p2, 2));
    lemma_record_written(s, d1, op, after, 0);
    let r = rolled_store(s, d, batch);
    let e = rolled(s, d, batch.first);
    let p3 = crate::store::write_batch(r, batch).1;
    assert(run(r, e, p3, 0) == (r, e, p3));
    assert(state::merge_meta(s.state.meta, op.meta) == s.state.meta);
    assert(log_laws::last_ok(unbuffered(s), d));
}

} // verus!
