//! What a sync makes durable, and what a crash that loses the rest leaves.

use vstd::prelude::*;

use crate::action;
use crate::crash_laws;
use crate::delete_laws;
use crate::files::{self, MAGIC_LEN, SEGMENT_MAGIC};
use crate::frame;
use crate::frame_laws;
use crate::issue::FileIssue;
use crate::log_laws;
use crate::manifest_laws;
use crate::op_laws;
use crate::open;
use crate::open_laws;
use crate::recovery;
use crate::recovery_laws;
use crate::scan;
use crate::state::{self, SegmentEntry};
use crate::state_laws;
use crate::store::{self, Outcome};
use crate::truncate_end_laws;
use crate::{EntryId, SegmentId};

verus! {

// ── The medium ────────────────────────────────────────────────────────────────

/// The files as they are seen, and what of them is durable: what each held when
/// it was last synced.
#[verifier::ext_equal]
pub ghost struct Medium {
    pub seen: action::Disk,
    pub kept: action::Disk,
}

/// The files after an action that succeeds. What is created or cut off is synced
/// with it, what is written is not.
pub open spec fn perform_on(m: Medium, action: action::ActionView) -> Medium {
    let seen = action::perform(m.seen, action);
    let kept = match action {
        action::ActionView::CreateManifest => action::Disk { manifest: seen.manifest, ..m.kept },
        action::ActionView::TruncateManifest { .. } => action::Disk {
            manifest: seen.manifest,
            ..m.kept
        },
        action::ActionView::SyncManifest => action::Disk { manifest: seen.manifest, ..m.kept },
        action::ActionView::CreateSegment(id) => with_file(m.kept, id, seen.segments[id]),
        action::ActionView::TruncateSegment { id, .. } => with_file(
            m.kept,
            id,
            seen.segments[id],
        ),
        action::ActionView::SyncSegment(id) => with_file(m.kept, id, seen.segments[id]),
        action::ActionView::DeleteSegment(id) => action::Disk {
            segments: m.kept.segments.remove(id),
            ..m.kept
        },
        action::ActionView::ReadSegment(_) => m.kept,
        action::ActionView::WriteManifest { .. } => m.kept,
        action::ActionView::WriteSegment { .. } => m.kept,
    };
    Medium { seen, kept }
}

/// The files with the contents of one segment.
pub open spec fn with_file(d: action::Disk, id: SegmentId, data: Seq<u8>) -> action::Disk {
    action::Disk { segments: d.segments.insert(id, data), ..d }
}

/// `b` holds all of `a` and no more than `c`, in the order of the bytes.
pub open spec fn between(a: Seq<u8>, b: Seq<u8>, c: Seq<u8>) -> bool {
    a.is_prefix_of(b) && b.is_prefix_of(c)
}

/// What a crash may leave: of each file at least what is durable, and of what was
/// written since only the first bytes. Files that are not durable may be there or
/// not.
pub open spec fn survives(m: Medium, e: action::Disk) -> bool {
    &&& between(m.kept.manifest, e.manifest, m.seen.manifest)
    &&& forall|id: SegmentId| #[trigger]
        m.kept.segments.contains_key(id) ==> e.segments.contains_key(id) && between(
            m.kept.segments[id],
            e.segments[id],
            m.seen.segments[id],
        )
}

/// What a store between two operations has made durable: every record, every
/// sealed segment, and of the active segment some of its first entries.
pub open spec fn well_kept(st: state::StateView, m: Medium) -> bool {
    &&& m.kept.manifest == m.seen.manifest
    &&& forall|i: int|
        0 <= i < st.segments.len() ==> m.kept.segments.contains_key((#[trigger] st.segments[i]).id)
    &&& forall|i: int|
        0 <= i < st.segments.len() - 1 ==> m.kept.segments[(#[trigger] st.segments[i]).id]
            == m.seen.segments[st.segments[i].id]
    &&& log_laws::sound(m.kept.segments[st.segments.last().id])
    &&& m.kept.segments[st.segments.last().id].is_prefix_of(
        m.seen.segments[st.segments.last().id],
    )
}

/// The active segment is durable as it is seen.
pub open spec fn active_kept(st: state::StateView, m: Medium) -> bool {
    m.kept.segments[st.segments.last().id] == m.seen.segments[st.segments.last().id]
}

// ── Frames of a part ──────────────────────────────────────────────────────────

/// The frames of the first part of a file are its first frames.
proof fn lemma_frames_of_part(a: Seq<u8>, b: Seq<u8>, pos: int)
    requires
        0 <= pos <= a.len(),
        a.is_prefix_of(b),
    ensures
        frame::frames(a, pos).is_prefix_of(frame::frames(b, pos)),
    decreases a.len() - pos,
{
    let rest = b.skip(a.len() as int);
    assert(b =~= a + rest);
    match frame::raw_frame_at(a, pos) {
        frame::RawFrame::Whole(f) if frame::intact(a, f) => {
            frame_laws::lemma_frame_is_local(a, rest, pos);
            lemma_frames_of_part(a, b, f.end());
            let (fa, fb) = (frame::frames(a, f.end()), frame::frames(b, f.end()));
            assert(frame::frames(a, pos) =~= seq![f] + fa);
            assert(frame::frames(b, pos) =~= seq![f] + fb);
            assert((seq![f] + fa).is_prefix_of(seq![f] + fb));
        },
        _ => {},
    }
}

/// Where only the last segment differs, and has more frames, the log is longer.
proof fn lemma_log_of_part(segments: Seq<SegmentEntry>, d: action::Disk, e: action::Disk)
    requires
        segments.len() > 0,
        forall|i: int|
            0 <= i < segments.len() - 1 ==> d.segments[(#[trigger] segments[i]).id]
                == e.segments[segments[i].id],
        log_laws::segment_frames(d, segments.last().id).is_prefix_of(
            log_laws::segment_frames(e, segments.last().id),
        ),
    ensures
        log_laws::log_of(segments, d).is_prefix_of(log_laws::log_of(segments, e)),
{
    let front = segments.drop_last();
    assert forall|i: int| 0 <= i < front.len() implies d.segments[(#[trigger] front[i]).id]
        == e.segments[front[i].id] by {
        assert(front[i] == segments[i]);
    }
    log_laws::lemma_log_same_files(front, d, e);
    let (fd, fe) = (
        log_laws::segment_frames(d, segments.last().id),
        log_laws::segment_frames(e, segments.last().id),
    );
    let (ed, ee) = (log_laws::entries_of(fd), log_laws::entries_of(fe));
    assert forall|i: int| 0 <= i < ed.len() implies ed[i] == ee[i] by {
        assert(fd[i] == fe.subrange(0, fd.len() as int)[i]);
    }
    let before = log_laws::log_of(front, d);
    let (ld, le) = (before + ed, before + ee);
    assert(ld =~= le.subrange(0, ld.len() as int));
}

// ── A crash ───────────────────────────────────────────────────────────────────

/// Law: a crash loses nothing that was synced. Whatever it leaves of what was
/// not, the store can be recovered to the state with every finished record in it,
/// and its log holds every durable entry, and behind them only entries that were
/// written, from the first one on.
#[verifier::spinoff_prover]
pub proof fn law_synced_data_survives_a_crash(s: store::StoreView, m: Medium, e: action::Disk)
    requires
        log_laws::synced(op_laws::unbuffered(s), m.seen),
        well_kept(s.state, m),
        survives(m, e),
    ensures
        recovery_laws::recoverable(s.state, e),
        log_laws::ordered(s.state, recovery_laws::settled(s.state, e)),
        ({
            let log = log_laws::log_of(s.state.segments, recovery_laws::settled(s.state, e));
            &&& log_laws::log_of(s.state.segments, m.kept).is_prefix_of(log)
            &&& log.is_prefix_of(log_laws::log_of(s.state.segments, m.seen))
        }),
{
    let st = s.state;
    let segs = st.segments;
    let n = segs.len() as int;
    let id = segs[n - 1].id;
    let start = MAGIC_LEN as int;
    assert(segs.last() == segs[n - 1]);
    assert(e.manifest =~= m.seen.manifest);
    open_laws::lemma_clean_frontier(e.manifest, start);
    assert forall|i: int| 0 <= i < n - 1 implies e.segments[(#[trigger] segs[i]).id]
        == m.seen.segments[segs[i].id] && m.kept.segments[segs[i].id]
        == m.seen.segments[segs[i].id] by {
        assert(m.kept.segments.contains_key(segs[i].id));
        assert(e.segments[segs[i].id] =~= m.seen.segments[segs[i].id]);
    }
    assert(m.kept.segments.contains_key(segs[n - 1].id));
    assert(m.seen.segments.contains_key(segs[n - 1].id) && log_laws::sound(
        m.seen.segments[segs[n - 1].id],
    ));
    let (a, b, c) = (m.kept.segments[id], e.segments[id], m.seen.segments[id]);
    assert(b.take(start) =~= a.take(start));
    assert forall|i: int| 0 <= i < n implies e.segments.contains_key((#[trigger] segs[i]).id)
        && files::has_magic(e.segments[segs[i].id], SEGMENT_MAGIC) && e.segments[segs[i].id].len()
        <= i64::MAX by {
        assert(m.kept.segments.contains_key(segs[i].id));
        assert(m.seen.segments.contains_key(segs[i].id) && log_laws::sound(
            m.seen.segments[segs[i].id],
        ));
    }
    assert forall|i: int| 0 <= i < n - 1 implies log_laws::sound(
        e.segments[(#[trigger] segs[i]).id],
    )
        && log_laws::seal_ok(e.segments[segs[i].id], st.seals[segs[i].id]) by {
        assert(m.seen.segments.contains_key(segs[i].id) && log_laws::sound(
            m.seen.segments[segs[i].id],
        ));
        assert(log_laws::seal_ok(m.seen.segments[segs[i].id], st.seals[segs[i].id]));
    }
    assert(recovery_laws::recoverable(st, e));
    let kept = recovery_laws::settled(st, e);
    assert(kept.segments =~= e.segments);
    lemma_frames_of_part(a, b, start);
    lemma_frames_of_part(b, c, start);
    lemma_log_of_part(segs, m.kept, kept);
    lemma_log_of_part(segs, kept, m.seen);
    lemma_part_ordered(st, m.seen, kept);
}

/// What is left of a log in order is in order.
proof fn lemma_part_ordered(st: state::StateView, d: action::Disk, e: action::Disk)
    requires
        log_laws::ordered(st, d),
        st.segments.len() > 0,
        forall|i: int|
            0 <= i < st.segments.len() - 1 ==> e.segments[(#[trigger] st.segments[i]).id]
                == d.segments[st.segments[i].id],
        log_laws::segment_frames(e, st.segments.last().id).is_prefix_of(
            log_laws::segment_frames(d, st.segments.last().id),
        ),
    ensures
        log_laws::ordered(st, e),
{
    let segs = st.segments;
    assert forall|i: int| 0 <= i < segs.len() implies log_laws::frames_between(
        log_laws::segment_frames(e, (#[trigger] segs[i]).id),
        segs[i].first_entry.0 as int,
        log_laws::upper(segs, i),
    ) by {
        let (fd, fe) = (
            log_laws::segment_frames(d, segs[i].id),
            log_laws::segment_frames(e, segs[i].id),
        );
        assert(log_laws::frames_between(
            fd,
            segs[i].first_entry.0 as int,
            log_laws::upper(segs, i),
        ));
        assert forall|k: int| 0 <= k < fe.len() && fe.is_prefix_of(fd) implies (#[trigger] fe[k])
            == fd[k] by {
            assert(fe[k] == fd.subrange(0, fe.len() as int)[k]);
        }
    }
}

/// Law: after such a crash the store opens, with an automatic recovery, and
/// agrees with its files. It has every finished record and every durable entry.
pub proof fn law_store_opens_after_a_crash(
    s: store::StoreView,
    m: Medium,
    e: action::Disk,
    ids: Seq<SegmentId>,
    new_ids: Seq<SegmentId>,
    trigger: u64,
)
    requires
        log_laws::synced(op_laws::unbuffered(s), m.seen),
        well_kept(s.state, m),
        survives(m, e),
        ({
            let report = scan::scan_of(open_laws::directory_of(e, ids));
            let f = recovery_laws::mend(e, recovery::plan(report.issues, false)->Ok_0);
            let again = scan::scan_of(open_laws::directory_of(f, new_ids));
            &&& open_laws::lists(ids, e)
            &&& open_laws::lists(new_ids, f)
            &&& e.manifest.len() + 128 * (ids.len() + report.state.dead.len()) <= i64::MAX
            &&& open::max_id(again.state) < u32::MAX
        }),
    ensures
        ({
            let report = scan::scan_of(open_laws::directory_of(e, ids));
            let f = recovery_laws::mend(e, recovery::plan(report.issues, false)->Ok_0);
            let again = scan::scan_of(open_laws::directory_of(f, new_ids));
            let opened = open::opened_store(trigger, again);
            let log = log_laws::log_of(opened.state.segments, f);
            &&& recovery::plan(report.issues, false) is Ok
            &&& again.issues == Seq::<FileIssue>::empty()
            &&& open::openable(again)
            &&& log_laws::synced(opened, f)
            &&& opened.state == (state::StateView { dead: opened.state.dead, ..s.state })
            &&& log_laws::log_of(s.state.segments, m.kept).is_prefix_of(log)
            &&& log.is_prefix_of(log_laws::log_of(s.state.segments, m.seen))
        }),
{
    law_synced_data_survives_a_crash(s, m, e);
    crash_laws::lemma_recovered_store_opens(s.state, e, ids, new_ids, trigger);
}

/// Law: the sync that ends a write makes all entries durable.
pub proof fn law_sync_makes_entries_durable(s: store::StoreView, m: Medium)
    requires
        log_laws::synced(op_laws::unbuffered(s), m.seen),
        well_kept(s.state, m),
    ensures
        ({
            let after = perform_on(m, action::ActionView::SyncSegment(s.active_id));
            &&& after.seen == m.seen
            &&& well_kept(s.state, after)
            &&& active_kept(s.state, after)
            &&& log_laws::log_of(s.state.segments, after.kept) == log_laws::log_of(
                s.state.segments,
                m.seen,
            )
        }),
{
    let segs = s.state.segments;
    let n = segs.len() as int;
    let after = perform_on(m, action::ActionView::SyncSegment(s.active_id));
    assert(segs.last() == segs[n - 1]);
    assert(m.seen.segments.contains_key(segs[n - 1].id) && log_laws::sound(
        m.seen.segments[segs[n - 1].id],
    ));
    assert forall|i: int| 0 <= i < n implies after.kept.segments.contains_key(
        (#[trigger] segs[i]).id,
    ) && after.kept.segments[segs[i].id] == m.seen.segments[segs[i].id] by {
        assert(m.kept.segments.contains_key(segs[i].id));
        if i < n - 1 {
            assert(segs[i].id != segs[n - 1].id);
            assert(m.kept.segments[segs[i].id] == m.seen.segments[segs[i].id]);
        }
    }
    log_laws::lemma_log_same_files(segs, after.kept, m.seen);
}

/// Law: a store that was just created is durable.
pub proof fn law_created_store_is_durable(m: Medium)
    requires
        m.seen.segments == Map::<SegmentId, Seq<u8>>::empty(),
    ensures
        ({
            let work = open::creation();
            let after = perform_on(
                perform_on(perform_on(perform_on(m, work[0]), work[1]), work[2]),
                work[3],
            );
            &&& log_laws::files_match(open_laws::created_state(), after.seen)
            &&& well_kept(open_laws::created_state(), after)
            &&& active_kept(open_laws::created_state(), after)
        }),
{
    let work = open::creation();
    let m1 = perform_on(m, work[0]);
    let m2 = perform_on(m1, work[1]);
    let m3 = perform_on(m2, work[2]);
    let m4 = perform_on(m3, work[3]);
    let st = open_laws::created_state();
    open_laws::law_created_store_is_empty(m.seen);
    assert(action::perform_all(m.seen, work) == m4.seen) by {
        reveal_with_fuel(action::perform_all, 5);
        let a3 = work.drop_last();
        let a2 = a3.drop_last();
        let a1 = a2.drop_last();
        assert(a3.last() == work[2] && a2.last() == work[1] && a1.last() == work[0]);
        assert(a1.drop_last().len() == 0);
    }
    assert(st.segments.last() == st.segments[0]);
    op_laws::lemma_new_segment_is_sound();
    assert(m4.kept.segments[SegmentId(1)] == SEGMENT_MAGIC@);
    assert(m4.seen.segments[SegmentId(1)] == SEGMENT_MAGIC@);
}

/// Law: files that a store is opened on, once they are read from the medium, are
/// durable.
pub proof fn law_opened_store_is_durable(st: state::StateView, d: action::Disk)
    requires
        log_laws::files_match(st, d),
    ensures
        well_kept(st, Medium { seen: d, kept: d }),
        active_kept(st, Medium { seen: d, kept: d }),
{
    let segs = st.segments;
    assert(segs.last() == segs[segs.len() - 1]);
    assert(d.segments.contains_key(segs[segs.len() - 1].id) && log_laws::sound(
        d.segments[segs[segs.len() - 1].id],
    ));
}

// ── Running an operation ──────────────────────────────────────────────────────

/// An operation carried on for up to `steps` steps, on a file system on which
/// nothing fails.
pub open spec fn run_on(s: store::StoreView, m: Medium, p: store::ProgressView, steps: nat) -> (
    store::StoreView,
    Medium,
    store::ProgressView,
)
    decreases steps,
{
    match p {
        store::ProgressView::Next(task, action) if steps > 0 => {
            let (t, q) = store::step(s, task, op_laws::reply(m.seen, action));
            run_on(t, perform_on(m, action), q, (steps - 1) as nat)
        },
        _ => (s, m, p),
    }
}

/// What is seen does not depend on what is durable.
pub proof fn lemma_run_on_seen(
    s: store::StoreView,
    m: Medium,
    p: store::ProgressView,
    steps: nat,
)
    ensures
        ({
            let (t, after, q) = run_on(s, m, p, steps);
            (t, after.seen, q) == op_laws::run(s, m.seen, p, steps)
        }),
    decreases steps,
{
    match p {
        store::ProgressView::Next(task, action) if steps > 0 => {
            let (t, q) = store::step(s, task, op_laws::reply(m.seen, action));
            lemma_run_on_seen(t, perform_on(m, action), q, (steps - 1) as nat);
        },
        _ => {},
    }
}

/// A record that is logged is durable before it is applied.
proof fn lemma_record_kept(
    s: store::StoreView,
    m: Medium,
    op: state::ManifestOpView,
    after: store::AfterView,
    steps: nat,
)
    requires
        s.manifest == (frame::CursorView {
            pending: Seq::empty(),
            position: m.seen.manifest.len() as u64,
        }),
        m.seen.manifest.len() + store::op_frame(op).len() <= i64::MAX,
    ensures
        ({
            let (s1, p1) = store::log_op(s, op, after);
            let seen = op_laws::with_record(m.seen, op);
            let applied = store::StoreView {
                manifest: frame::CursorView {
                    pending: Seq::empty(),
                    position: seen.manifest.len() as u64,
                },
                state: state::apply_op(s.state, op)->Ok_0,
                ..s
            };
            let (s2, p2) = store::proceed(applied, after);
            let kept = action::Disk { manifest: seen.manifest, ..m.kept };
            run_on(s1, m, p1, steps + 2) == run_on(s2, Medium { seen, kept }, p2, steps)
        }),
{
    let (s1, p1) = store::log_op(s, op, after);
    let frame = store::op_frame(op);
    let (task, action) = (p1->Next_0, p1->Next_1);
    let seen = op_laws::with_record(m.seen, op);
    assert(s.manifest.pending + frame =~= frame);
    let m1 = perform_on(m, action);
    assert(m1.seen.manifest =~= m.seen.manifest + frame);
    assert(m1.seen =~= seen);
    let (s2, p2) = store::step(s1, task, action::EventView::Done);
    assert(run_on(s1, m, p1, steps + 2) == run_on(s2, m1, p2, steps + 1));
    let m2 = perform_on(m1, p2->Next_1);
    let (s3, p3) = store::step(s2, p2->Next_0, action::EventView::Done);
    assert(run_on(s2, m1, p2, steps + 1) == run_on(s3, m2, p3, steps));
    assert(m2.seen =~= seen);
    assert(m2.kept =~= action::Disk { manifest: seen.manifest, ..m.kept });
}

// ── What operations keep ──────────────────────────────────────────────────────

/// Law: a metadata update that is done is durable, and takes nothing from what
/// is.
pub proof fn law_metadata_is_durable(
    s: store::StoreView,
    m: Medium,
    pairs: Seq<(u8, Seq<u8>)>,
)
    requires
        log_laws::synced(s, m.seen),
        well_kept(s.state, m),
        manifest_laws::recordable(
            state::ManifestOpView { op: state::OpView::Metadata, meta: pairs },
        ),
        m.seen.manifest.len() + store::op_frame(
            state::ManifestOpView { op: state::OpView::Metadata, meta: pairs },
        ).len() <= i64::MAX,
    ensures
        ({
            let op = state::ManifestOpView { op: state::OpView::Metadata, meta: pairs };
            let (s1, p1) = store::log_op(s, op, store::AfterView::Metadata);
            let (t, after, q) = run_on(s1, m, p1, 2);
            &&& q == store::ProgressView::Finished(Outcome::Done)
            &&& log_laws::synced(t, after.seen)
            &&& well_kept(t.state, after)
            &&& log_laws::log_of(t.state.segments, after.kept) == log_laws::log_of(
                s.state.segments,
                m.kept,
            )
        }),
{
    let op = state::ManifestOpView { op: state::OpView::Metadata, meta: pairs };
    let (s1, p1) = store::log_op(s, op, store::AfterView::Metadata);
    lemma_record_kept(s, m, op, store::AfterView::Metadata, 0);
    lemma_run_on_seen(s1, m, p1, 2);
    op_laws::law_metadata_is_persistent(s, m.seen, pairs);
    let (t, after, q) = run_on(s1, m, p1, 2);
    assert(after.kept.segments == m.kept.segments);
    assert(s.state.segments.skip(0) =~= s.state.segments);
    lemma_same_files_kept(s.state, t.state, m, after, 0);
    log_laws::lemma_log_same_files(s.state.segments, m.kept, after.kept);
}

/// What is durable of the segments from place `k` on stays so while the files
/// stay the same.
proof fn lemma_same_files_kept(
    st: state::StateView,
    new: state::StateView,
    m: Medium,
    after: Medium,
    k: int,
)
    requires
        well_kept(st, m),
        0 <= k < st.segments.len(),
        new.segments == st.segments.skip(k),
        after.kept.manifest == after.seen.manifest,
        after.seen.segments == m.seen.segments,
        after.kept.segments == m.kept.segments,
    ensures
        well_kept(new, after),
{
    let (segs, rest) = (st.segments, new.segments);
    assert(rest.last() == segs.last());
    assert forall|i: int| 0 <= i < rest.len() implies (#[trigger] rest[i]) == segs[k + i] by {}
}

/// Law: an advance of the head that is done is durable, and takes nothing from
/// what is durable of the segments that are left.
pub proof fn law_head_is_durable(
    s: store::StoreView,
    m: Medium,
    first: EntryId,
    meta: Seq<(u8, Seq<u8>)>,
)
    requires
        log_laws::synced(s, m.seen),
        well_kept(s.state, m),
        first.0 >= s.state.first_entry.0,
        manifest_laws::recordable(store::truncate_start_op(s.state, first, meta)),
        m.seen.manifest.len() + store::op_frame(
            store::truncate_start_op(s.state, first, meta),
        ).len() <= i64::MAX,
    ensures
        ({
            let (s1, p1) = store::begin_truncate_start(s, first, meta);
            let (t, after, q) = run_on(s1, m, p1, 2);
            &&& q == store::ProgressView::Finished(Outcome::Done)
            &&& log_laws::synced(t, after.seen)
            &&& t.state.first_entry == first
            &&& well_kept(t.state, after)
            &&& after.kept.segments == m.kept.segments
        }),
{
    let op = store::truncate_start_op(s.state, first, meta);
    let (s1, p1) = store::begin_truncate_start(s, first, meta);
    lemma_record_kept(s, m, op, store::AfterView::TruncateStart { first_entry: first }, 0);
    lemma_run_on_seen(s1, m, p1, 2);
    crate::truncate_laws::law_truncate_start_keeps_later_entries(s, m.seen, first, meta);
    let (t, after, q) = run_on(s1, m, p1, 2);
    let segs = s.state.segments;
    let k = choose|k: int| 0 <= k < segs.len() && t.state.segments == #[trigger] segs.skip(k);
    lemma_same_files_kept(s.state, t.state, m, after, k);
}

/// What is durable after a rollback: the record, and the target as it is cut off.
#[verifier::spinoff_prover]
proof fn lemma_rollback_kept(s: store::StoreView, m: Medium, p: int, k: int)
    requires
        truncate_end_laws::can_roll_back(s, m.seen, p, k),
    ensures
        ({
            let cut = truncate_end_laws::rollback(s, m.seen, p, k);
            let seen = op_laws::with_record(m.seen, truncate_end_laws::rollback_op(s, m.seen, p, k));
            let recorded = Medium {
                seen,
                kept: action::Disk { manifest: seen.manifest, ..m.kept },
            };
            let (s1, p1) = store::begin_truncate_end(s, cut.last_valid);
            run_on(s1, m, p1, 4).1 == perform_on(
                recorded,
                action::ActionView::TruncateSegment { id: cut.target, len: cut.byte_offset },
            )
        }),
{
    let d = m.seen;
    let cut = truncate_end_laws::rollback(s, d, p, k);
    let op = truncate_end_laws::rollback_op(s, d, p, k);
    let after = store::AfterView::TruncateEnd { cut };
    truncate_end_laws::lemma_rollback(s, d, p, k);
    truncate_end_laws::lemma_rollback_reads(s, d, p, k);
    let (s1, p1) = store::begin_truncate_end(s, cut.last_valid);
    let (s2, p2) = store::log_op(s, op, after);
    assert(perform_on(m, p1->Next_1) =~= m);
    assert(run_on(s1, m, p1, 4) == run_on(s2, m, p2, 3));
    lemma_record_kept(s, m, op, after, 1);
    let seen = op_laws::with_record(d, op);
    let recorded = Medium { seen, kept: action::Disk { manifest: seen.manifest, ..m.kept } };
    let applied = store::StoreView {
        manifest: frame::CursorView { pending: Seq::empty(), position: seen.manifest.len() as u64 },
        state: state::apply_op(s.state, op)->Ok_0,
        ..s
    };
    let (s3, p3) = store::proceed(applied, after);
    assert(run_on(s2, m, p2, 3) == run_on(s3, recorded, p3, 1));
    let last = perform_on(recorded, p3->Next_1);
    let (s4, p4) = store::step(s3, p3->Next_0, action::EventView::Done);
    assert(run_on(s4, last, p4, 0) == (s4, last, p4));
    assert(run_on(s3, recorded, p3, 1) == run_on(s4, last, p4, 0));
}

/// Law: a rollback that is done is durable, and so are all entries that it has
/// left.
#[verifier::spinoff_prover]
pub proof fn law_rollback_is_durable(s: store::StoreView, m: Medium, last: EntryId)
    requires
        crash_laws::rolls_back(s, m.seen, last),
        well_kept(s.state, m),
    ensures
        ({
            let (s1, p1) = store::begin_truncate_end(s, last);
            let (t, after, q) = run_on(s1, m, p1, 4);
            &&& q == store::ProgressView::Finished(Outcome::Done)
            &&& log_laws::synced(t, after.seen)
            &&& well_kept(t.state, after)
            &&& log_laws::log_of(t.state.segments, after.kept) == log_laws::entries_up_to(
                log_laws::log_of(s.state.segments, m.seen),
                last.0,
            )
        }),
{
    let d = m.seen;
    let segs = s.state.segments;
    let log = log_laws::log_of(segs, d);
    let i = choose|i: int| 0 <= i < log.len() && (#[trigger] log[i]).0 == last.0;
    let (p, k) = truncate_end_laws::lemma_entry_place(segs, d, i);
    let cut = truncate_end_laws::rollback(s, d, p, k);
    assert(cut.last_valid == last);
    let t1 = truncate_end_laws::lemma_rollback_recorded(s, d, p, k);
    let t2 = truncate_end_laws::lemma_rollback_done(s, d, p, k);
    let (s1, p1) = store::begin_truncate_end(s, last);
    lemma_run_on_seen(s1, m, p1, 4);
    lemma_rollback_kept(s, m, p, k);
    let after = run_on(s1, m, p1, 4).1;
    let rest = t2.state.segments;
    assert(rest == segs.take(p + 1));
    lemma_cut_is_kept(s, m, p, k, after);
    assert(rest.last() == segs[p]);
    assert(after.seen.segments.contains_key(rest[rest.len() - 1].id) && log_laws::sound(
        after.seen.segments[rest[rest.len() - 1].id],
    ));
    log_laws::lemma_log_same_files(rest, after.kept, after.seen);
}

/// The segments up to the one that was cut off are durable as they are seen.
proof fn lemma_cut_is_kept(s: store::StoreView, m: Medium, p: int, k: int, after: Medium)
    requires
        store::distinct(s.state.segments),
        well_kept(s.state, m),
        0 <= p < s.state.segments.len(),
        ({
            let cut = truncate_end_laws::rollback(s, m.seen, p, k);
            let seen = op_laws::with_record(m.seen, truncate_end_laws::rollback_op(s, m.seen, p, k));
            let recorded = Medium {
                seen,
                kept: action::Disk { manifest: seen.manifest, ..m.kept },
            };
            after == perform_on(
                recorded,
                action::ActionView::TruncateSegment { id: cut.target, len: cut.byte_offset },
            )
        }),
    ensures
        after.kept.manifest == after.seen.manifest,
        forall|j: int|
            0 <= j <= p ==> after.kept.segments.contains_key(
                (#[trigger] s.state.segments.take(p + 1)[j]).id,
            ) && after.kept.segments[s.state.segments.take(p + 1)[j].id]
                == after.seen.segments[s.state.segments.take(p + 1)[j].id],
{
    let segs = s.state.segments;
    let rest = segs.take(p + 1);
    assert forall|j: int| 0 <= j <= p implies after.kept.segments.contains_key(
        (#[trigger] rest[j]).id,
    ) && after.kept.segments[rest[j].id] == after.seen.segments[rest[j].id] by {
        assert(rest[j] == segs[j]);
        assert(m.kept.segments.contains_key(segs[j].id));
        if j < p {
            assert(segs[j].id != segs[p].id);
            assert(m.kept.segments[segs[j].id] == m.seen.segments[segs[j].id]);
        }
    }
}

/// Law: the deletion of dead segments, once done, is durable, and takes nothing
/// from what is durable of live ones.
pub proof fn law_deletion_is_durable(s: store::StoreView, m: Medium)
    requires
        log_laws::synced(s, m.seen),
        well_kept(s.state, m),
        m.seen.manifest.len() + 128 * s.state.dead.len() <= i64::MAX,
    ensures
        ({
            let dead = s.state.dead;
            let (s1, p1) = store::delete_next(s, dead, 0);
            let (t, after, q) = run_on(s1, m, p1, 3 * dead.len());
            &&& q == store::ProgressView::Finished(Outcome::Deleted(dead.len() as usize))
            &&& log_laws::synced(t, after.seen)
            &&& well_kept(t.state, after)
            &&& log_laws::log_of(t.state.segments, after.kept) == log_laws::log_of(
                s.state.segments,
                m.kept,
            )
        }),
{
    let dead = s.state.dead;
    let segs = s.state.segments;
    let (s1, p1) = store::delete_next(s, dead, 0);
    lemma_run_on_seen(s1, m, p1, 3 * dead.len());
    delete_laws::law_dead_segments_are_deleted(s, m.seen);
    assert forall|i: int| 0 <= i < dead.len() implies s.state.dead.contains(
        #[trigger] dead[i],
    ) by {}
    lemma_deletions_kept(s, m, dead, 0);
    let (t, after, q) = run_on(s1, m, p1, 3 * dead.len());
    assert forall|i: int| 0 <= i < segs.len() implies !dead.contains((#[trigger] segs[i]).id) by {
        if dead.contains(segs[i].id) {
            let j = choose|j: int| 0 <= j < dead.len() && dead[j] == segs[i].id;
            assert(!s.state.is_live(dead[j]));
            assert(s.state.is_live(segs[i].id));
        }
    }
    assert(segs.last() == segs[segs.len() - 1]);
    assert forall|i: int| 0 <= i < segs.len() implies m.kept.segments[(#[trigger] segs[i]).id]
        == after.kept.segments[segs[i].id] && after.kept.segments.contains_key(segs[i].id)
        && m.seen.segments[segs[i].id] == after.seen.segments[segs[i].id] by {
        assert(m.kept.segments.contains_key(segs[i].id));
        assert(after.kept.segments.contains_key(segs[i].id) == m.kept.segments.contains_key(
            segs[i].id,
        ));
    }
    log_laws::lemma_log_same_files(segs, m.kept, after.kept);
}

/// Deletions touch the files of dead segments only, and their records are
/// durable.
#[verifier::spinoff_prover]
proof fn lemma_deletions_kept(s: store::StoreView, m: Medium, dead: Seq<SegmentId>, next: int)
    requires
        s.manifest == (frame::CursorView {
            pending: Seq::empty(),
            position: m.seen.manifest.len() as u64,
        }),
        m.kept.manifest == m.seen.manifest,
        store::deletable(s.state, dead, next),
        m.seen.manifest.len() + 128 * (dead.len() - next) <= i64::MAX,
    ensures
        ({
            let p = store::delete_next(s, dead, next).1;
            let (t, after, q) = run_on(s, m, p, (3 * (dead.len() - next)) as nat);
            &&& after.kept.manifest == after.seen.manifest
            &&& t.state.segments == s.state.segments
            &&& forall|x: SegmentId|
                !dead.contains(x) ==> (#[trigger] after.kept.segments.contains_key(x)
                    == m.kept.segments.contains_key(x)) && after.kept.segments[x]
                    == m.kept.segments[x] && after.seen.segments[x] == m.seen.segments[x]
        }),
    decreases dead.len() - next,
{
    let p = store::delete_next(s, dead, next).1;
    if next < dead.len() {
        let id = dead[next];
        let op = delete_laws::deleted_op(id);
        let steps = (3 * (dead.len() - next - 1)) as nat;
        let m1 = perform_on(m, p->Next_1);
        let (s1, p1) = store::step(s, p->Next_0, action::EventView::Done);
        assert(run_on(s, m, p, steps + 3) == run_on(s1, m1, p1, steps + 2));
        delete_laws::lemma_deleted_op_size(id);
        let after = store::AfterView::Deleted { dead, next };
        lemma_record_kept(s, m1, op, after, steps);
        let seen = op_laws::with_record(m1.seen, op);
        let m2 = Medium { seen, kept: action::Disk { manifest: seen.manifest, ..m1.kept } };
        let t = store::StoreView {
            manifest: frame::CursorView {
                pending: Seq::empty(),
                position: seen.manifest.len() as u64,
            },
            state: state::apply_op(s.state, op)->Ok_0,
            ..s
        };
        assert(s.state.dead.contains(dead[next]));
        state_laws::lemma_without_id(s.state.dead, id);
        assert forall|i: int| next + 1 <= i < dead.len() implies t.state.dead.contains(
            #[trigger] dead[i],
        ) by {
            assert(s.state.dead.contains(dead[i]));
            assert(dead[i] != dead[next]);
        }
        lemma_deletions_kept(t, m2, dead, next + 1);
        assert(dead.contains(dead[next]));
    }
}

/// Law: a write takes nothing from what is durable. Its own entries are not
/// durable yet.
///
/// Where the write starts a new segment, the entries before it have to be
/// durable: a sealed segment that loses some of them is not the one that was
/// sealed.
#[verifier::spinoff_prover]
pub proof fn law_write_keeps_what_is_durable(
    s: store::StoreView,
    m: Medium,
    es: Seq<(u64, Seq<u8>)>,
)
    requires
        log_laws::synced(op_laws::unbuffered(s), m.seen),
        well_kept(s.state, m),
        s.active.pending == log_laws::encode_all(es),
        op_laws::can_follow(s, m.seen, es),
        m.seen.segments[s.active_id].len() + log_laws::encode_all(es).len() <= i64::MAX,
        s.state.cut_at is Some ==> m.seen.manifest.len() + store::op_frame(
            store::go_on_op(),
        ).len() <= i64::MAX,
        s.rollover_pending ==> s.next_seg_id.0 < u32::MAX && m.seen.manifest.len()
            + store::op_frame(store::roll_op(s, op_laws::batch_of(es).first)).len() <= i64::MAX,
        s.rollover_pending ==> active_kept(s.state, m),
    ensures
        ({
            let (s1, p1) = store::begin_write(s, op_laws::batch_of(es));
            let (t, after, q) = run_on(s1, m, p1, 4);
            &&& q is Finished
            &&& log_laws::synced(t, after.seen)
            &&& well_kept(t.state, after)
            &&& log_laws::log_of(t.state.segments, after.kept) == log_laws::log_of(
                s.state.segments,
                m.kept,
            )
            &&& log_laws::log_of(t.state.segments, after.seen) == log_laws::log_of(
                s.state.segments,
                m.seen,
            ) + es
        }),
{
    let batch = op_laws::batch_of(es);
    let (s1, p1) = store::begin_write(s, batch);
    lemma_run_on_seen(s1, m, p1, 4);
    op_laws::law_written_entries_end_the_log(s, m.seen, es);
    if s.rollover_pending {
        lemma_rolled_write_kept(s, m, batch);
    } else {
        lemma_plain_write_kept(s, m, batch);
    }
}

/// A write that starts a new segment.
#[verifier::spinoff_prover]
proof fn lemma_rolled_write_kept(s: store::StoreView, m: Medium, batch: store::Batch)
    requires
        log_laws::fitting(op_laws::unbuffered(s), m.seen),
        well_kept(s.state, m),
        s.rollover_pending,
        active_kept(s.state, m),
        m.seen.manifest.len() + store::op_frame(store::roll_op(s, batch.first)).len() <= i64::MAX,
    ensures
        ({
            let (s1, p1) = store::begin_write(s, batch);
            let (t, after, q) = run_on(s1, m, p1, 4);
            &&& well_kept(t.state, after)
            &&& log_laws::log_of(t.state.segments, after.kept) == log_laws::log_of(
                s.state.segments,
                m.kept,
            )
        }),
{
    let segs = s.state.segments;
    let n = segs.len() as int;
    let new = s.next_seg_id;
    let (s1, p1) = store::begin_write(s, batch);
    let m1 = perform_on(m, p1->Next_1);
    let op = store::roll_op(s, batch.first);
    let after = store::AfterView::Rolled { new_id: new, batch };
    let (s2, p2) = store::log_op(s, op, after);
    assert(store::step(s1, p1->Next_0, action::EventView::Done) == (s2, p2));
    assert(run_on(s1, m, p1, 4) == run_on(s2, m1, p2, 3));
    lemma_record_kept(s, m1, op, after, 1);
    let seen = op_laws::with_record(m1.seen, op);
    let m2 = Medium { seen, kept: action::Disk { manifest: seen.manifest, ..m1.kept } };
    let applied = store::StoreView {
        manifest: frame::CursorView { pending: Seq::empty(), position: seen.manifest.len() as u64 },
        state: state::apply_op(s.state, op)->Ok_0,
        ..s
    };
    let (r, p3) = store::proceed(applied, after);
    assert(run_on(s2, m1, p2, 3) == run_on(r, m2, p3, 1));
    lemma_batch_on(r, m2, batch, 0);
    let m3 = perform_on(m2, p3->Next_1);
    let segments = segs.push(SegmentEntry { id: new, first_entry: batch.first });
    assert(r.state.segments == segments);
    lemma_new_segment_kept(s.state, m, m3, new, batch.first, s.active.pending);
}

/// What is durable once a new segment follows segments that all are.
#[verifier::spinoff_prover]
proof fn lemma_new_segment_kept(
    st: state::StateView,
    m: Medium,
    after: Medium,
    new: SegmentId,
    first: EntryId,
    bytes: Seq<u8>,
)
    requires
        log_laws::files_fit(st, m.seen),
        well_kept(st, m),
        active_kept(st, m),
        !m.seen.segments.contains_key(new),
        after.kept.manifest == after.seen.manifest,
        after.kept.segments == m.kept.segments.insert(new, SEGMENT_MAGIC@),
        after.seen.segments == m.seen.segments.insert(new, SEGMENT_MAGIC@).insert(
            new,
            action::write_at(SEGMENT_MAGIC@, MAGIC_LEN as int, bytes),
        ),
    ensures
        ({
            let segments = st.segments.push(SegmentEntry { id: new, first_entry: first });
            let t = state::StateView { segments, ..st };
            &&& well_kept(t, after)
            &&& log_laws::log_of(segments, after.kept) == log_laws::log_of(st.segments, m.kept)
        }),
{
    let segs = st.segments;
    let n = segs.len() as int;
    let segments = segs.push(SegmentEntry { id: new, first_entry: first });
    op_laws::lemma_new_segment_is_sound();
    assert(segs.last() == segs[n - 1]);
    assert forall|i: int| 0 <= i < n implies (#[trigger] segments[i]) == segs[i] && segs[i].id
        != new && m.kept.segments.contains_key(segs[i].id) && m.kept.segments[segs[i].id]
        == m.seen.segments[segs[i].id] by {
        assert(m.seen.segments.contains_key(segs[i].id));
        assert(m.kept.segments.contains_key(segs[i].id));
    }
    assert(segments.last().id == new);
    let written = after.seen.segments[new];
    assert(written =~= SEGMENT_MAGIC@ + bytes);
    assert(SEGMENT_MAGIC@.is_prefix_of(written));
    assert forall|i: int| 0 <= i < segments.len() implies after.kept.segments.contains_key(
        (#[trigger] segments[i]).id,
    ) by {
        if i < n {
            assert(segments[i] == segs[i]);
        }
    }
    assert forall|i: int| 0 <= i < n implies m.kept.segments[(#[trigger] segs[i]).id]
        == after.kept.segments[segs[i].id] by {
        assert(segments[i] == segs[i]);
    }
    log_laws::lemma_log_same_files(segs, m.kept, after.kept);
    assert(segments.drop_last() =~= segs);
    assert(log_laws::segment_frames(after.kept, new).len() == 0);
    assert(log_laws::log_of(segments, after.kept) =~= log_laws::log_of(segs, m.kept));
}

/// A write to the active segment.
#[verifier::spinoff_prover]
proof fn lemma_plain_write_kept(s: store::StoreView, m: Medium, batch: store::Batch)
    requires
        log_laws::fitting(op_laws::unbuffered(s), m.seen),
        well_kept(s.state, m),
        !s.rollover_pending,
        s.state.cut_at is Some ==> m.seen.manifest.len() + store::op_frame(
            store::go_on_op(),
        ).len() <= i64::MAX,
    ensures
        ({
            let (s1, p1) = store::begin_write(s, batch);
            let (t, after, q) = run_on(s1, m, p1, 4);
            &&& well_kept(t.state, after)
            &&& log_laws::log_of(t.state.segments, after.kept) == log_laws::log_of(
                s.state.segments,
                m.kept,
            )
        }),
{
    let segs = s.state.segments;
    let n = segs.len() as int;
    assert(segs.last() == segs[n - 1]);
    assert(m.seen.segments.contains_key(segs[n - 1].id) && log_laws::sound(
        m.seen.segments[segs[n - 1].id],
    ));
    let went_on = s.state.cut_at is Some;
    let op = store::go_on_op();
    let seen = if went_on {
        op_laws::with_record(m.seen, op)
    } else {
        m.seen
    };
    let m1 = Medium { seen, kept: action::Disk { manifest: seen.manifest, ..m.kept } };
    let r = if went_on {
        store::StoreView {
            manifest: frame::CursorView {
                pending: Seq::empty(),
                position: seen.manifest.len() as u64,
            },
            state: state::apply_op(s.state, op)->Ok_0,
            ..s
        }
    } else {
        s
    };
    let p2 = store::write_batch(r, batch).1;
    if went_on {
        lemma_record_kept(s, m, op, store::AfterView::WentOn { batch }, 2);
        lemma_batch_on(r, m1, batch, 1);
    } else {
        assert(m1 =~= m);
        lemma_batch_on(r, m1, batch, 3);
    }
    let after = perform_on(m1, p2->Next_1);
    let id = s.active_id;
    let (a, b) = (m.kept.segments[id], m.seen.segments[id]);
    assert(b.take(b.len() as int) =~= b);
    assert(after.seen.segments[id] =~= b + s.active.pending);
    assert(a.is_prefix_of(after.seen.segments[id])) by {
        assert forall|i: int| 0 <= i < a.len() implies a[i] == after.seen.segments[id][i] by {
            assert(a[i] == b.subrange(0, a.len() as int)[i]);
        }
        assert(a =~= after.seen.segments[id].subrange(0, a.len() as int));
    }
    assert forall|i: int| 0 <= i < n - 1 implies after.seen.segments[(#[trigger] segs[i]).id]
        == m.seen.segments[segs[i].id] by {
        assert(segs[i].id != segs[n - 1].id);
    }
    log_laws::lemma_log_same_files(segs, m.kept, after.kept);
}

/// The write of a batch.
proof fn lemma_batch_on(s: store::StoreView, m: Medium, batch: store::Batch, steps: nat)
    ensures
        ({
            let p = store::write_batch(s, batch).1;
            let (t, q) = store::step(
                s,
                store::TaskView::WriteBatch { batch },
                action::EventView::Done,
            );
            run_on(s, m, p, steps + 1) == (t, perform_on(m, p->Next_1), q)
        }),
{
    let p = store::write_batch(s, batch).1;
    let (t, q) = store::step(s, p->Next_0, action::EventView::Done);
    let after = perform_on(m, p->Next_1);
    assert(run_on(t, after, q, steps) == (t, after, q));
    assert(run_on(s, m, p, steps + 1) == run_on(t, after, q, steps));
}

} // verus!
