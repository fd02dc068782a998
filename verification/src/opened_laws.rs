//! What an opened store knows.

use vstd::prelude::*;

use crate::action;
use crate::frame;
use crate::log_laws;
use crate::open;
use crate::open_laws;
use crate::reader_laws;
use crate::scan;
use crate::state::{self, SegmentEntry};
use crate::{EntryId, SegmentId};

verus! {

/// `x` is the id of a live or dead segment.
pub open spec fn in_use(st: state::StateView, x: SegmentId) -> bool {
    st.is_live(x) || st.dead.contains(x)
}

/// `next` is above every id in use, and no larger than it has to be.
pub open spec fn is_next_id(st: state::StateView, next: int) -> bool {
    &&& forall|x: SegmentId| #[trigger] in_use(st, x) ==> x.0 < next
    &&& next == 1 || exists|x: SegmentId| #[trigger] in_use(st, x) && x.0 + 1 == next
}

proof fn lemma_max_live(segments: Seq<SegmentEntry>)
    ensures
        forall|i: int| 0 <= i < segments.len() ==> (#[trigger] segments[i]).id.0
            <= open::max_live_id(segments),
        open::max_live_id(segments) == 0 || exists|i: int|
            0 <= i < segments.len() && (#[trigger] segments[i]).id.0 == open::max_live_id(segments),
    decreases segments.len(),
{
    if segments.len() > 0 {
        let front = segments.drop_last();
        lemma_max_live(front);
        let m = open::max_live_id(segments);
        assert(segments[segments.len() - 1] == segments.last());
        assert forall|i: int| 0 <= i < segments.len() implies (#[trigger] segments[i]).id.0 <= m by {
            if i < front.len() {
                assert(front[i] == segments[i]);
            }
        }
        if m != segments.last().id.0 && m != 0 {
            let i = choose|i: int| 0 <= i < front.len() && (#[trigger] front[i]).id.0 == m;
            assert(segments[i].id.0 == m);
        }
    }
}

proof fn lemma_max_dead(dead: Seq<SegmentId>)
    ensures
        forall|i: int| 0 <= i < dead.len() ==> (#[trigger] dead[i]).0 <= open::max_dead_id(dead),
        open::max_dead_id(dead) == 0 || exists|i: int|
            0 <= i < dead.len() && (#[trigger] dead[i]).0 == open::max_dead_id(dead),
    decreases dead.len(),
{
    if dead.len() > 0 {
        let front = dead.drop_last();
        lemma_max_dead(front);
        let m = open::max_dead_id(dead);
        assert(dead[dead.len() - 1] == dead.last());
        assert forall|i: int| 0 <= i < dead.len() implies (#[trigger] dead[i]).0 <= m by {
            if i < front.len() {
                assert(front[i] == dead[i]);
            }
        }
        if m != dead.last().0 && m != 0 {
            let i = choose|i: int| 0 <= i < front.len() && (#[trigger] front[i]).0 == m;
            assert(dead[i].0 == m);
        }
    }
}

proof fn lemma_next_id(st: state::StateView)
    ensures
        is_next_id(st, open::max_id(st) + 1),
{
    let m = open::max_id(st);
    lemma_max_live(st.segments);
    lemma_max_dead(st.dead);
    assert forall|x: SegmentId| #[trigger] in_use(st, x) implies x.0 < m + 1 by {
        if st.is_live(x) {
            let i = choose|i: int| 0 <= i < st.segments.len() && (#[trigger] st.segments[i]).id == x;
            assert(st.segments[i].id.0 <= open::max_live_id(st.segments));
        } else {
            let i = choose|i: int| 0 <= i < st.dead.len() && st.dead[i] == x;
            assert(st.dead[i].0 <= open::max_dead_id(st.dead));
        }
    }
    if m != 0 {
        if m == open::max_live_id(st.segments) {
            let i = choose|i: int|
                0 <= i < st.segments.len() && (#[trigger] st.segments[i]).id.0 == m;
            assert(in_use(st, st.segments[i].id));
        } else {
            let i = choose|i: int| 0 <= i < st.dead.len() && (#[trigger] st.dead[i]).0 == m;
            assert(st.dead.contains(st.dead[i]));
            assert(in_use(st, st.dead[i]));
        }
    }
}

/// `entry` is the first of `segments` with `id`.
pub open spec fn is_entry_of(segments: Seq<SegmentEntry>, id: SegmentId, entry: SegmentEntry) -> bool {
    exists|i: int|
        0 <= i < segments.len() && #[trigger] segments[i] == entry && entry.id == id && forall|j: int|
            0 <= j < i ==> (#[trigger] segments[j]).id != id
}

pub proof fn lemma_found(segments: Seq<SegmentEntry>, id: SegmentId)
    ensures
        match state::find_segment(segments, id) {
            Some(entry) => is_entry_of(segments, id, entry),
            None => forall|i: int| 0 <= i < segments.len() ==> (#[trigger] segments[i]).id != id,
        },
    decreases segments.len(),
{
    if segments.len() > 0 && segments[0].id != id {
        let rest = segments.skip(1);
        lemma_found(rest, id);
        match state::find_segment(rest, id) {
            Some(entry) => {
                let i = choose|i: int|
                    0 <= i < rest.len() && #[trigger] rest[i] == entry && entry.id == id
                        && forall|j: int| 0 <= j < i ==> (#[trigger] rest[j]).id != id;
                assert(segments[i + 1] == entry);
                assert forall|j: int| 0 <= j < i + 1 implies (#[trigger] segments[j]).id != id by {
                    if j > 0 {
                        assert(rest[j - 1] == segments[j]);
                    }
                }
            },
            None => {
                assert forall|j: int| 0 <= j < segments.len() implies (#[trigger] segments[j]).id
                    != id by {
                    if j > 0 {
                        assert(rest[j - 1] == segments[j]);
                    }
                }
            },
        }
    } else if segments.len() > 0 {
        assert(segments[0] == segments[0] && segments[0].id == id);
    }
}

/// `report` is the first of `reports` on segment `id`.
pub open spec fn is_report_on(
    reports: Seq<scan::SegmentReportView>,
    id: SegmentId,
    report: scan::SegmentReportView,
) -> bool {
    exists|i: int|
        0 <= i < reports.len() && #[trigger] reports[i] == report && report.id == id && forall|j: int|
            0 <= j < i ==> (#[trigger] reports[j]).id != id
}

proof fn lemma_reported(reports: Seq<scan::SegmentReportView>, id: SegmentId)
    ensures
        match open::find_report(reports, id) {
            Some(report) => is_report_on(reports, id, report),
            None => forall|i: int| 0 <= i < reports.len() ==> (#[trigger] reports[i]).id != id,
        },
    decreases reports.len(),
{
    if reports.len() > 0 && reports[0].id != id {
        let rest = reports.skip(1);
        lemma_reported(rest, id);
        match open::find_report(rest, id) {
            Some(report) => {
                let i = choose|i: int|
                    0 <= i < rest.len() && #[trigger] rest[i] == report && report.id == id
                        && forall|j: int| 0 <= j < i ==> (#[trigger] rest[j]).id != id;
                assert(reports[i + 1] == report);
                assert forall|j: int| 0 <= j < i + 1 implies (#[trigger] reports[j]).id != id by {
                    if j > 0 {
                        assert(rest[j - 1] == reports[j]);
                    }
                }
            },
            None => {
                assert forall|j: int| 0 <= j < reports.len() implies (#[trigger] reports[j]).id
                    != id by {
                    if j > 0 {
                        assert(rest[j - 1] == reports[j]);
                    }
                }
            },
        }
    } else if reports.len() > 0 {
        assert(reports[0] == reports[0] && reports[0].id == id);
    }
}

/// `last` is what the last of the first `n` segments that is sealed was sealed
/// with, if any is.
pub open spec fn is_last_sealed(st: state::StateView, n: int, last: Option<EntryId>) -> bool {
    match last {
        None => forall|i: int| 0 <= i < n ==> !st.seals.contains_key((#[trigger] st.segments[i]).id),
        Some(e) => exists|i: int|
            0 <= i < n && st.seals.contains_key((#[trigger] st.segments[i]).id)
                && st.seals[st.segments[i].id].last_entry == e && forall|j: int|
                i < j < n ==> !st.seals.contains_key((#[trigger] st.segments[j]).id),
    }
}

proof fn lemma_last_sealed(st: state::StateView, n: int)
    requires
        0 <= n <= st.segments.len(),
    ensures
        is_last_sealed(st, n, open::last_sealed_entry(st.segments.take(n), st.seals)),
    decreases n,
{
    let segs = st.segments;
    if n > 0 {
        assert(segs.take(n).last() == segs[n - 1]);
        assert(segs.take(n).drop_last() =~= segs.take(n - 1));
        if !st.seals.contains_key(segs[n - 1].id) {
            lemma_last_sealed(st, n - 1);
            let last = open::last_sealed_entry(segs.take(n - 1), st.seals);
            if let Some(e) = last {
                let i = choose|i: int|
                    0 <= i < n - 1 && st.seals.contains_key((#[trigger] segs[i]).id)
                        && st.seals[segs[i].id].last_entry == e && forall|j: int|
                        i < j < n - 1 ==> !st.seals.contains_key((#[trigger] segs[j]).id);
                assert(st.seals.contains_key(segs[i].id));
            }
        } else {
            assert(st.seals.contains_key(segs[n - 1].id));
        }
    }
}

/// Law: what a store knows that is made of a report without issues. Its state is
/// the reported one, with the index of every segment; it writes on where the
/// frames of the active segment end, and counts on from them; the last entry is
/// that of the active segment, or else the last that a segment before the last one
/// was sealed with, if any was; the next segment takes the first id above all in
/// use; nothing is buffered, and no rollover is due.
#[verifier::spinoff_prover]
pub proof fn law_store_is_made_of_its_report(trigger: u64, report: scan::ReportView)
    requires
        report.issues.len() == 0,
        open::openable(report),
    ensures
        ({
            let s = open::opened_store(trigger, report);
            let st = report.state;
            &&& s.trigger == trigger
            &&& s.state == st
            &&& st.active == Some(s.active_id)
            &&& is_entry_of(
                st.segments,
                s.active_id,
                SegmentEntry { id: s.active_id, first_entry: s.active_first_entry },
            )
            &&& exists|active: scan::SegmentReportView| #[trigger]
                is_report_on(report.segments, s.active_id, active) && s.active
                    == (frame::CursorView { pending: Seq::empty(), position: active.write_offset })
                    && s.active_entry_count == active.num_entries && match active.last_entry_id {
                    Some(id) => s.last_entry_id == Some(id),
                    None => is_last_sealed(st, st.segments.len() - 1, s.last_entry_id),
                }
            &&& s.manifest == (frame::CursorView {
                pending: Seq::empty(),
                position: report.manifest_next_offset,
            })
            &&& is_next_id(st, s.next_seg_id.0 as int)
            &&& !s.rollover_pending
            &&& s.index.len() == report.segments.len()
            &&& forall|i: int|
                0 <= i < s.index.len() ==> #[trigger] s.index[i] == (
                    report.segments[i].id,
                    report.segments[i].index,
                )
        }),
{
    let s = open::opened_store(trigger, report);
    let st = report.state;
    let id = st.active->Some_0;
    lemma_found(st.segments, id);
    lemma_reported(report.segments, id);
    lemma_next_id(st);
    let active = open::find_report(report.segments, id)->Some_0;
    assert(is_report_on(report.segments, s.active_id, active));
    let n = st.segments.len() - 1;
    lemma_last_sealed(st, n);
    assert(st.segments.take(n) =~= st.segments.drop_last());
}

/// Law: a report can be opened where it has issues to be seen to, or else where
/// its active segment is live and was scanned, and an id is left for the next one.
pub proof fn law_openable_needs_an_active_segment(report: scan::ReportView)
    ensures
        open::openable(report) <==> {
            ||| report.issues.len() > 0
            ||| {
                &&& report.state.active matches Some(id)
                &&& report.state.is_live(id)
                &&& exists|i: int|
                    0 <= i < report.segments.len() && (#[trigger] report.segments[i]).id == id
                &&& exists|next: int| #[trigger] is_next_id(report.state, next) && next
                    <= 0xffff_ffff
            }
        },
{
    let st = report.state;
    if let Some(id) = st.active {
        lemma_found(st.segments, id);
        lemma_reported(report.segments, id);
    }
    lemma_next_id(st);
    assert forall|next: int| #[trigger] is_next_id(st, next) implies next == open::max_id(st) + 1 by {
        lemma_one_next_id(st, next, open::max_id(st) + 1);
    }
}

/// There is one next id.
proof fn lemma_one_next_id(st: state::StateView, a: int, b: int)
    requires
        is_next_id(st, a),
        is_next_id(st, b),
    ensures
        a == b,
{
    if a != 1 {
        let x = choose|x: SegmentId| #[trigger] in_use(st, x) && x.0 + 1 == a;
        assert(x.0 < b);
    }
    if b != 1 {
        let y = choose|y: SegmentId| #[trigger] in_use(st, y) && y.0 + 1 == b;
        assert(y.0 < a);
    }
    if a == 1 && b != 1 {
        let y = choose|y: SegmentId| #[trigger] in_use(st, y) && y.0 + 1 == b;
        assert(y.0 < 1);
    }
    if b == 1 && a != 1 {
        let x = choose|x: SegmentId| #[trigger] in_use(st, x) && x.0 + 1 == a;
        assert(x.0 < 1);
    }
}

/// Law: a store that is opened knows as its last entry the last one on disk, and
/// none where there is none.
pub proof fn law_opened_store_knows_the_last_entry(
    st: state::StateView,
    d: action::Disk,
    ids: Seq<SegmentId>,
    trigger: u64,
)
    requires
        log_laws::files_match(st, d),
        log_laws::ordered(st, d),
        open_laws::lists(ids, d),
        open::max_id(st) < u32::MAX,
    ensures
        ({
            let s = open::opened_store(trigger, scan::scan_of(open_laws::directory_of(d, ids)));
            let log = log_laws::log_of(st.segments, d);
            s.last_entry_id == if log.len() == 0 {
                None
            } else {
                Some(EntryId(log.last().0))
            }
        }),
{
    let report = scan::scan_of(open_laws::directory_of(d, ids));
    let s = open::opened_store(trigger, report);
    let segs = st.segments;
    let n = segs.len() as int;
    let log = log_laws::log_of(segs, d);
    open_laws::law_reopened_store_is_the_same(st, d, ids, trigger);
    if log.len() > 0 {
        reader_laws::law_last_entry_ends_the_log(s, d);
    } else {
        law_store_is_made_of_its_report(trigger, report);
        open_laws::lemma_scan_finds_state(st, d, ids);
        assert(segs.last() == segs[n - 1]);
        assert(log_laws::log_of(segs, d) == log_laws::log_of(segs.drop_last(), d)
            + log_laws::entries_of(log_laws::segment_frames(d, segs.last().id)));
        assert(log_laws::segment_frames(d, segs[n - 1].id).len() == 0);
        assert(n == 1) by {
            if n > 1 {
                let front = segs.drop_last();
                assert(front.last() == segs[n - 2]);
                assert(log_laws::seal_ok(d.segments[segs[n - 2].id], st.seals[segs[n - 2].id]));
                assert(log_laws::log_of(front, d) == log_laws::log_of(front.drop_last(), d)
                    + log_laws::entries_of(log_laws::segment_frames(d, segs[n - 2].id)));
            }
        }
        let active = choose|active: scan::SegmentReportView| #[trigger]
            is_report_on(report.segments, s.active_id, active) && (match active.last_entry_id {
                Some(id) => s.last_entry_id == Some(id),
                None => is_last_sealed(st, st.segments.len() - 1, s.last_entry_id),
            });
        let i = choose|i: int| 0 <= i < report.segments.len() && report.segments[i] == active;
        assert(report.segments[0] == scan::scanned(segs[0].id, d.segments[segs[0].id]));
        assert(active.last_entry_id is None);
        assert(s.last_entry_id is None);
    }
}

/// Law: a store is created with a manifest and an empty segment 1, and a record of
/// it, which is synced. The log of a new store starts at entry 0.
pub proof fn law_new_store_has_segment_one()
    ensures
        ({
            let work = open::creation();
            let op = state::ManifestOpView {
                op: state::OpView::CreateSegment { id: SegmentId(1), first_entry: EntryId(0) },
                meta: Seq::empty(),
            };
            let st = open_laws::created_state();
            &&& work.len() == 4
            &&& work[0] == action::ActionView::CreateManifest
            &&& work[1] == action::ActionView::CreateSegment(SegmentId(1))
            &&& work[2] == action::ActionView::WriteManifest {
                offset: 8,
                bytes: frame::encode_frame(0, crate::codec::encode_op(op)),
            }
            &&& work[3] == action::ActionView::SyncManifest
            &&& state::apply_op(state::StateView::empty(), op) == Ok::<_, state::ApplyError>(st)
            &&& st.segments.len() == 1
            &&& st.segments[0] == (SegmentEntry { id: SegmentId(1), first_entry: EntryId(0) })
            &&& st.active == Some(SegmentId(1))
            &&& st.first_entry == EntryId(0)
            &&& st.dead.len() == 0
            &&& st.meta.len() == 0
            &&& st.cut_at is None
            &&& forall|id: SegmentId| !#[trigger] st.seals.contains_key(id)
        }),
{
    let op = open::creation_op();
    let empty = state::StateView::empty();
    let st = open_laws::created_state();
    assert(state::merge_meta(empty.meta, op.meta) == empty.meta);
    assert(state::apply_op(empty, op)->Ok_0 =~= st);
}

} // verus!
