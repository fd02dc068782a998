//! What a rollback that breaks off leaves behind.

use vstd::prelude::*;

use crate::action;
use crate::files::MAGIC_LEN;
use crate::frame_laws;
use crate::issue::FileIssue;
use crate::log_laws;
use crate::manifest_laws;
use crate::op_laws;
use crate::open;
use crate::open_laws;
use crate::recovery;
use crate::recovery_laws;
use crate::repair_laws;
use crate::scan;
use crate::state;
use crate::store::{self, StoreError};
use crate::truncate_end_laws;
use crate::{EntryId, IoFault, SegmentId};

verus! {

/// The files of an operation that breaks off after `steps` actions. Of a record
/// that was to be written next, the first `cut` bytes may be there.
pub open spec fn broken_off(
    s: store::StoreView,
    d: action::Disk,
    p: store::ProgressView,
    steps: nat,
    cut: nat,
) -> action::Disk {
    let (t, e, q) = op_laws::run(s, d, p, steps);
    match q {
        store::ProgressView::Next(_, action::ActionView::WriteManifest { offset, bytes }) =>
        action::perform(
            e,
            action::ActionView::WriteManifest {
                offset,
                bytes: if cut < bytes.len() {
                    bytes.take(cut as int)
                } else {
                    bytes
                },
            },
        ),
        _ => e,
    }
}

/// Files that fit a state are recoverable: there is nothing to do, but for a
/// rollback that is not completed.
pub proof fn lemma_fit_is_recoverable(st: state::StateView, d: action::Disk)
    requires
        log_laws::files_fit(st, d),
    ensures
        recovery_laws::recoverable(st, d),
{
    open_laws::lemma_clean_frontier(d.manifest, MAGIC_LEN as int);
    let segs = st.segments;
    assert forall|i: int| 0 <= i < segs.len() - 1 implies log_laws::sound(
        d.segments[(#[trigger] segs[i]).id],
    )
        && log_laws::seal_ok(d.segments[segs[i].id], st.seals[segs[i].id]) by {
        assert(d.segments.contains_key(segs[i].id) && log_laws::sound(d.segments[segs[i].id]));
    }
}

/// The id of the last entry in the segment that holds `last`.
pub open spec fn segment_last(
    segments: Seq<state::SegmentEntry>,
    d: action::Disk,
    last: EntryId,
) -> u64 {
    log_laws::segment_frames(d, segments[store::target_place(segments, last)].id).last().id
}

/// A record that breaks off leaves files that are recoverable to the state
/// before it.
proof fn lemma_torn_record(
    st: state::StateView,
    d: action::Disk,
    e: action::Disk,
    op: state::ManifestOpView,
    cut: int,
)
    requires
        log_laws::files_match(st, d),
        manifest_laws::recordable(op),
        0 <= cut < store::op_frame(op).len(),
        d.manifest.len() + store::op_frame(op).len() <= i64::MAX,
        e.manifest == d.manifest + store::op_frame(op).take(cut),
        e.segments == d.segments,
    ensures
        recovery_laws::recoverable(st, e),
        recovery_laws::settled(st, e).segments == d.segments,
{
    let segs = st.segments;
    let n = segs.len() as int;
    let none = Seq::<(u64, Seq<u8>)>::empty();
    assert(d.segments.contains_key(segs[n - 1].id) && log_laws::sound(d.segments[segs[n - 1].id]));
    assert(log_laws::encode_all(none).take(0) =~= Seq::<u8>::empty());
    let id = segs.last().id;
    assert(d.segments[id] + Seq::<u8>::empty() =~= d.segments[id]);
    assert forall|i: int| 0 <= i < n - 1 implies e.segments.contains_key((#[trigger] segs[i]).id)
        && e.segments[segs[i].id] == d.segments[segs[i].id] by {
        assert(d.segments.contains_key(segs[i].id));
    }
    let k = recovery_laws::law_crash_leaves_recoverable_files(st, d, e, op, cut, none, 0);
    assert(recovery_laws::settled(st, e).segments =~= d.segments);
}

/// The log can be rolled back to `last`: it is an entry of the log but not its
/// end, and the record of the rollback fits.
pub open spec fn rolls_back(s: store::StoreView, d: action::Disk, last: EntryId) -> bool {
    &&& log_laws::synced(s, d)
    &&& exists|i: int|
        0 <= i < log_laws::log_of(s.state.segments, d).len() && (#[trigger] log_laws::log_of(
            s.state.segments,
            d,
        )[i]).0 == last.0
    &&& s.last_entry_id matches Some(id) && last.0 < id.0
    &&& truncate_end_laws::drop_record_limit(s.state.segments) <= u32::MAX
    &&& d.manifest.len() + truncate_end_laws::drop_record_limit(s.state.segments) <= i64::MAX
}

/// The files of a rollback that breaks off: the state that they can be recovered
/// to.
#[verifier::spinoff_prover]
proof fn lemma_broken_rollback(
    s: store::StoreView,
    d: action::Disk,
    last: EntryId,
    steps: nat,
    cut: nat,
) -> (st: state::StateView)
    requires
        rolls_back(s, d, last),
    ensures
        ({
            let (s1, p1) = store::begin_truncate_end(s, last);
            let e = broken_off(s1, d, p1, steps, cut);
            let t = op_laws::run(s1, d, p1, 4).0;
            let log = log_laws::log_of(s.state.segments, d);
            let kept = recovery_laws::settled(st, e);
            &&& recovery_laws::recoverable(st, e)
            &&& log_laws::ordered(st, kept)
            &&& {
                ||| st == s.state && log_laws::log_of(st.segments, kept) == log
                ||| st == t.state && log_laws::log_of(st.segments, kept)
                    == log_laws::entries_up_to(log, last.0)
            }
        }),
{
    let segs = s.state.segments;
    let log = log_laws::log_of(segs, d);
    let i = choose|i: int| 0 <= i < log.len() && (#[trigger] log[i]).0 == last.0;
    let (m, k) = truncate_end_laws::lemma_entry_place(segs, d, i);
    let frame = store::op_frame(truncate_end_laws::rollback_op(s, d, m, k));
    assert(truncate_end_laws::rollback(s, d, m, k).last_valid == last);
    lemma_broken_files(s, d, m, k, steps, cut);
    if steps == 0 || steps == 1 && cut < frame.len() {
        lemma_rollback_not_done(s, d, m, k, steps, cut);
        s.state
    } else {
        lemma_rollback_done(s, d, m, k, steps, cut);
        let (s1, p1) = store::begin_truncate_end(s, last);
        op_laws::run(s1, d, p1, 4).0.state
    }
}

/// The files of a rollback that breaks off.
#[verifier::spinoff_prover]
proof fn lemma_broken_files(
    s: store::StoreView,
    d: action::Disk,
    m: int,
    k: int,
    steps: nat,
    cut: nat,
)
    requires
        truncate_end_laws::can_roll_back(s, d, m, k),
    ensures
        ({
            let last = truncate_end_laws::rollback(s, d, m, k).last_valid;
            let op = truncate_end_laws::rollback_op(s, d, m, k);
            let frame = store::op_frame(op);
            let (s1, p1) = store::begin_truncate_end(s, last);
            let e = broken_off(s1, d, p1, steps, cut);
            &&& steps == 0 ==> e == d
            &&& steps == 1 && cut < frame.len() ==> e == (action::Disk {
                manifest: d.manifest + frame.take(cut as int),
                ..d
            })
            &&& steps == 1 && cut >= frame.len() || steps == 2 || steps == 3
                ==> e == op_laws::with_record(d, op)
            &&& steps >= 4 ==> e == op_laws::run(s1, d, p1, 4).1
        }),
{
    let op = truncate_end_laws::rollback_op(s, d, m, k);
    let frame = store::op_frame(op);
    let last = truncate_end_laws::rollback(s, d, m, k).last_valid;
    let (s1, p1) = store::begin_truncate_end(s, last);
    truncate_end_laws::lemma_rollback_runs(s, d, m, k);
    lemma_broken_at(s1, d, p1, frame, steps, cut);
}

/// The files of an operation that reads, writes a record, syncs it and cuts a
/// segment off, where it breaks off.
#[verifier::spinoff_prover]
proof fn lemma_broken_at(
    s: store::StoreView,
    d: action::Disk,
    p: store::ProgressView,
    frame: Seq<u8>,
    steps: nat,
    cut: nat,
)
    requires
        p matches store::ProgressView::Next(_, action::ActionView::ReadSegment(_)),
        op_laws::run(s, d, p, 1).1 == d,
        op_laws::run(s, d, p, 1).2 matches store::ProgressView::Next(
            _,
            action::ActionView::WriteManifest { offset, bytes },
        ) && offset == d.manifest.len() && bytes == frame,
        op_laws::run(s, d, p, 2).1 == (action::Disk { manifest: d.manifest + frame, ..d }),
        op_laws::run(s, d, p, 2).2 matches store::ProgressView::Next(
            _,
            action::ActionView::SyncManifest,
        ),
        op_laws::run(s, d, p, 3).1 == (action::Disk { manifest: d.manifest + frame, ..d }),
        op_laws::run(s, d, p, 3).2 matches store::ProgressView::Next(
            _,
            action::ActionView::TruncateSegment { .. },
        ),
        op_laws::run(s, d, p, 4).2 is Finished,
    ensures
        ({
            let e = broken_off(s, d, p, steps, cut);
            &&& steps == 0 ==> e == d
            &&& steps == 1 && cut < frame.len() ==> e == (action::Disk {
                manifest: d.manifest + frame.take(cut as int),
                ..d
            })
            &&& steps == 1 && cut >= frame.len() || steps == 2 || steps == 3 ==> e
                == (action::Disk { manifest: d.manifest + frame, ..d })
            &&& steps >= 4 ==> e == op_laws::run(s, d, p, 4).1
        }),
{
    let e = broken_off(s, d, p, steps, cut);
    if steps == 0 {
        assert(op_laws::run(s, d, p, 0) == (s, d, p));
    } else if steps == 1 {
        assert(d.manifest.take(d.manifest.len() as int) =~= d.manifest);
        if cut < frame.len() {
            assert(e =~= action::Disk { manifest: d.manifest + frame.take(cut as int), ..d });
        } else {
            assert(e =~= action::Disk { manifest: d.manifest + frame, ..d });
        }
    } else if steps >= 4 {
        op_laws::lemma_run_on(s, d, p, 4, (steps - 4) as nat);
    }
}

/// Without a whole record, nothing has changed.
#[verifier::spinoff_prover]
proof fn lemma_rollback_not_done(
    s: store::StoreView,
    d: action::Disk,
    m: int,
    k: int,
    steps: nat,
    cut: nat,
)
    requires
        truncate_end_laws::can_roll_back(s, d, m, k),
        log_laws::cut_off(s.state, d),
        steps == 0 || steps == 1 && cut < store::op_frame(
            truncate_end_laws::rollback_op(s, d, m, k),
        ).len(),
    ensures
        ({
            let last = truncate_end_laws::rollback(s, d, m, k).last_valid;
            let (s1, p1) = store::begin_truncate_end(s, last);
            let e = broken_off(s1, d, p1, steps, cut);
            let kept = recovery_laws::settled(s.state, e);
            &&& recovery_laws::recoverable(s.state, e)
            &&& log_laws::ordered(s.state, kept)
            &&& log_laws::log_of(s.state.segments, kept) == log_laws::log_of(s.state.segments, d)
        }),
{
    let op = truncate_end_laws::rollback_op(s, d, m, k);
    let last = truncate_end_laws::rollback(s, d, m, k).last_valid;
    let (s1, p1) = store::begin_truncate_end(s, last);
    let e = broken_off(s1, d, p1, steps, cut);
    lemma_broken_files(s, d, m, k, steps, cut);
    if steps == 0 {
        lemma_fit_is_recoverable(s.state, d);
        lemma_cut_off_is_settled(s.state, d);
    } else {
        truncate_end_laws::lemma_rollback(s, d, m, k);
        lemma_torn_record(s.state, d, e, op, cut as int);
        let kept = recovery_laws::settled(s.state, e);
        lemma_same_order(s.state, d, kept);
        log_laws::lemma_log_same_files(s.state.segments, d, kept);
    }
}

/// With the whole record, the rollback is done as far as it counts.
#[verifier::spinoff_prover]
proof fn lemma_rollback_done(
    s: store::StoreView,
    d: action::Disk,
    m: int,
    k: int,
    steps: nat,
    cut: nat,
)
    requires
        truncate_end_laws::can_roll_back(s, d, m, k),
        steps > 1 || steps == 1 && cut >= store::op_frame(
            truncate_end_laws::rollback_op(s, d, m, k),
        ).len(),
    ensures
        ({
            let last = truncate_end_laws::rollback(s, d, m, k).last_valid;
            let (s1, p1) = store::begin_truncate_end(s, last);
            let e = broken_off(s1, d, p1, steps, cut);
            let st = op_laws::run(s1, d, p1, 4).0.state;
            let kept = recovery_laws::settled(st, e);
            &&& recovery_laws::recoverable(st, e)
            &&& log_laws::ordered(st, kept)
            &&& log_laws::log_of(st.segments, kept) == log_laws::entries_up_to(
                log_laws::log_of(s.state.segments, d),
                last.0,
            )
        }),
{
    let last = truncate_end_laws::rollback(s, d, m, k).last_valid;
    let (s1, p1) = store::begin_truncate_end(s, last);
    let t1 = truncate_end_laws::lemma_rollback_recorded(s, d, m, k);
    let t2 = truncate_end_laws::lemma_rollback_done(s, d, m, k);
    lemma_broken_files(s, d, m, k, steps, cut);
    if steps <= 3 {
        let e1 = op_laws::with_record(d, truncate_end_laws::rollback_op(s, d, m, k));
        lemma_fit_is_recoverable(t1.state, e1);
        let target = s.state.segments[m].id;
        truncate_end_laws::lemma_rollback(s, d, m, k);
        frame_laws::lemma_frame_at(d.segments[target], MAGIC_LEN as int, k);
        assert(t1.state.segments.last().id == target);
        lemma_recorded_is_settled(t1.state, e1, target, k);
    } else {
        let e2 = op_laws::run(s1, d, p1, 4).1;
        lemma_fit_is_recoverable(t2.state, e2);
        lemma_cut_off_is_settled(t2.state, e2);
    }
}

/// Of files that match a state, all counts.
proof fn lemma_cut_off_is_settled(st: state::StateView, d: action::Disk)
    requires
        log_laws::files_match(st, d),
    ensures
        recovery_laws::settled(st, d) == d,
{
    let segs = st.segments;
    assert(d.segments.contains_key(segs[segs.len() - 1].id));
    assert(recovery_laws::settled(st, d) =~= d);
}

/// Once the record of a rollback is there, what counts of the files is what is
/// there after the cut.
proof fn lemma_recorded_is_settled(
    st: state::StateView,
    e: action::Disk,
    target: SegmentId,
    k: int,
)
    requires
        st.segments.len() > 0,
        st.segments.last().id == target,
        st.active == Some(target),
        !st.seals.contains_key(target),
        ({
            let end = log_laws::segment_frames(e, target)[k].end();
            &&& st.cut_at == Some(end as u64)
            &&& MAGIC_LEN <= end <= e.segments[target].len() <= i64::MAX
        }),
    ensures
        recovery_laws::settled(st, e) == truncate_end_laws::cut_files(e, target, k),
{
    let data = e.segments[target];
    assert(data.take(data.len() as int) =~= data);
    assert(recovery_laws::settled(st, e) =~= truncate_end_laws::cut_files(e, target, k));
}

/// The order of the log depends only on the frames of its segments.
proof fn lemma_same_order(st: state::StateView, d: action::Disk, e: action::Disk)
    requires
        log_laws::ordered(st, d),
        forall|i: int|
            0 <= i < st.segments.len() ==> log_laws::segment_frames(
                e,
                (#[trigger] st.segments[i]).id,
            ) == log_laws::segment_frames(d, st.segments[i].id),
    ensures
        log_laws::ordered(st, e),
{
    let segs = st.segments;
    assert forall|i: int| 0 <= i < segs.len() implies log_laws::frames_between(
        log_laws::segment_frames(e, (#[trigger] segs[i]).id),
        segs[i].first_entry.0 as int,
        log_laws::upper(segs, i),
    ) by {
        assert(log_laws::frames_between(
            log_laws::segment_frames(d, segs[i].id),
            segs[i].first_entry.0 as int,
            log_laws::upper(segs, i),
        ));
    }
}

/// Law: a rollback that breaks off, wherever it does, is done or not done. The
/// files can be recovered. Either the record of the rollback is not whole, and
/// neither the state nor the log has changed. Or it is, and what counts of the
/// files is the log up to the entry that was to be the last one.
pub proof fn law_broken_rollback_is_recoverable(
    s: store::StoreView,
    d: action::Disk,
    last: EntryId,
    steps: nat,
    cut: nat,
)
    requires
        rolls_back(s, d, last),
    ensures
        ({
            let (s1, p1) = store::begin_truncate_end(s, last);
            let e = broken_off(s1, d, p1, steps, cut);
            let t = op_laws::run(s1, d, p1, 4).0;
            let log = log_laws::log_of(s.state.segments, d);
            ||| recovery_laws::recoverable(s.state, e) && log_laws::log_of(
                s.state.segments,
                recovery_laws::settled(s.state, e),
            ) == log
            ||| recovery_laws::recoverable(t.state, e) && log_laws::log_of(
                t.state.segments,
                recovery_laws::settled(t.state, e),
            ) == log_laws::entries_up_to(log, last.0)
        }),
{
    let _ = lemma_broken_rollback(s, d, last, steps, cut);
}

/// Law: the store opens after a rollback that broke off, with an automatic
/// recovery, and agrees with its files. Its log is what it was, or ends with the
/// entry that it was to end with.
#[verifier::spinoff_prover]
pub proof fn law_store_opens_after_broken_rollback(
    s: store::StoreView,
    d: action::Disk,
    last: EntryId,
    steps: nat,
    cut: nat,
    ids: Seq<SegmentId>,
    new_ids: Seq<SegmentId>,
    trigger: u64,
)
    requires
        rolls_back(s, d, last),
        ({
            let (s1, p1) = store::begin_truncate_end(s, last);
            let e = broken_off(s1, d, p1, steps, cut);
            let report = scan::scan_of(open_laws::directory_of(e, ids));
            let f = recovery_laws::mend(e, recovery::plan(report.issues, false)->Ok_0);
            let again = scan::scan_of(open_laws::directory_of(f, new_ids));
            &&& open_laws::lists(ids, e)
            &&& open_laws::lists(new_ids, f)
            &&& e.manifest.len() + 128 * (ids.len() + report.state.dead.len()) <= i64::MAX
            &&& open::max_id(again.state) < u32::MAX
        }),
    ensures
        ({
            let (s1, p1) = store::begin_truncate_end(s, last);
            let e = broken_off(s1, d, p1, steps, cut);
            let report = scan::scan_of(open_laws::directory_of(e, ids));
            let f = recovery_laws::mend(e, recovery::plan(report.issues, false)->Ok_0);
            let again = scan::scan_of(open_laws::directory_of(f, new_ids));
            let opened = open::opened_store(trigger, again);
            let log = log_laws::log_of(s.state.segments, d);
            &&& recovery::plan(report.issues, false) is Ok
            &&& again.issues == Seq::<FileIssue>::empty()
            &&& open::openable(again)
            &&& log_laws::synced(opened, f)
            &&& {
                ||| log_laws::log_of(opened.state.segments, f) == log
                ||| log_laws::log_of(opened.state.segments, f) == log_laws::entries_up_to(
                    log,
                    last.0,
                )
            }
        }),
{
    let (s1, p1) = store::begin_truncate_end(s, last);
    let e = broken_off(s1, d, p1, steps, cut);
    let st = lemma_broken_rollback(s, d, last, steps, cut);
    lemma_recovered_store_opens(st, e, ids, new_ids, trigger);
}

/// A store opens on recoverable files that are in order, and agrees with them.
#[verifier::spinoff_prover]
pub proof fn lemma_recovered_store_opens(
    st: state::StateView,
    e: action::Disk,
    ids: Seq<SegmentId>,
    new_ids: Seq<SegmentId>,
    trigger: u64,
)
    requires
        recovery_laws::recoverable(st, e),
        log_laws::ordered(st, recovery_laws::settled(st, e)),
        ({
            let report = scan::scan_of(open_laws::directory_of(e, ids));
            let f = recovery_laws::mend(e, recovery::plan(report.issues, false)->Ok_0);
            let again = scan::scan_of(open_laws::directory_of(f, new_ids));
            &&& open_laws::lists(ids, e)
            &&& open_laws::lists(new_ids, f)
            &&& e.manifest.len() + 128 * (ids.len() + report.state.dead.len()) <= i64::MAX
            &&& open::max_id(again.state) < u32::MAX
        }),
    ensures
        ({
            let report = scan::scan_of(open_laws::directory_of(e, ids));
            let f = recovery_laws::mend(e, recovery::plan(report.issues, false)->Ok_0);
            let again = scan::scan_of(open_laws::directory_of(f, new_ids));
            let opened = open::opened_store(trigger, again);
            &&& recovery::plan(report.issues, false) is Ok
            &&& again.issues == Seq::<FileIssue>::empty()
            &&& open::openable(again)
            &&& log_laws::synced(opened, f)
            &&& opened.state == (state::StateView { dead: opened.state.dead, ..st })
            &&& log_laws::log_of(opened.state.segments, f) == log_laws::log_of(
                st.segments,
                recovery_laws::settled(st, e),
            )
        }),
{
    let report = scan::scan_of(open_laws::directory_of(e, ids));
    let f = recovery_laws::mend(e, recovery::plan(report.issues, false)->Ok_0);
    let again = scan::scan_of(open_laws::directory_of(f, new_ids));
    let kept = recovery_laws::settled(st, e);
    lemma_recovered_state(st, e, ids);
    recovery_laws::law_crash_is_recovered(st, e, ids, new_ids);
    repair_laws::law_recovered_store_opens(e, ids, new_ids, false);
    let t = again.state;
    let segs = st.segments;
    assert forall|i: int| 0 <= i < segs.len() implies log_laws::segment_frames(
        f,
        (#[trigger] segs[i]).id,
    ) == log_laws::segment_frames(kept, segs[i].id) by {
        assert(e.segments.contains_key(segs[i].id));
        assert(st.seals.contains_key(segs[i].id) <==> i < segs.len() - 1);
        if i < segs.len() - 1 {
            assert(segs[i].id != segs[segs.len() - 1].id);
        }
    }
    lemma_same_order(t, kept, f);
    open_laws::law_reopened_store_is_the_same(t, f, new_ids, trigger);
}

/// A scan of recoverable files finds the state, and the files are readable.
proof fn lemma_recovered_state(st: state::StateView, e: action::Disk, ids: Seq<SegmentId>)
    requires
        recovery_laws::recoverable(st, e),
    ensures
        scan::scan_of(open_laws::directory_of(e, ids)).state == st,
        repair_laws::files_readable(st, e),
{
    recovery_laws::lemma_issues(st, e, ids);
}

/// Law: a rollback whose segment cannot be cut off fails, and the store fits its
/// files all the same: the log ends with that segment. A write goes on from there,
/// and the rollback can be tried again.
pub proof fn law_failed_cut_leaves_store_in_order(
    s: store::StoreView,
    d: action::Disk,
    last: EntryId,
    fault: IoFault,
)
    requires
        rolls_back(s, d, last),
    ensures
        ({
            let (s1, p1) = store::begin_truncate_end(s, last);
            let (t, e, q) = op_laws::run(s1, d, p1, 3);
            let (u, r) = store::step(t, q->Next_0, action::EventView::Failed(fault));
            &&& q matches store::ProgressView::Next(_, action::ActionView::TruncateSegment { .. })
            &&& r == store::ProgressView::Failed(StoreError::Io(fault))
            &&& log_laws::fitting(u, e)
            &&& log_laws::log_of(u.state.segments, e) == log_laws::entries_up_to(
                log_laws::log_of(s.state.segments, d),
                segment_last(s.state.segments, d, last),
            )
        }),
{
    let segs = s.state.segments;
    let i = choose|i: int|
        0 <= i < log_laws::log_of(segs, d).len() && (#[trigger] log_laws::log_of(segs, d)[i]).0
            == last.0;
    let (m, k) = truncate_end_laws::lemma_entry_place(segs, d, i);
    assert(truncate_end_laws::rollback(s, d, m, k).last_valid == last);
    truncate_end_laws::lemma_rollback(s, d, m, k);
    let _ = truncate_end_laws::lemma_rollback_recorded(s, d, m, k);
}

} // verus!
