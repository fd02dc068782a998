//! What a recovery leaves behind: nothing to recover.

use vstd::prelude::*;

use crate::action;
use crate::files::{self, MAGIC_LEN, SEGMENT_MAGIC};
use crate::frame::{self, ScanStatus};
use crate::frame_laws;
use crate::issue::{FileIssue, FileRef};
use crate::log_laws;
use crate::manifest;
use crate::manifest_laws;
use crate::op_laws;
use crate::open;
use crate::open_laws;
use crate::recovery::{self, FixUp, FixUpPhase, RecoveryError};
use crate::recovery_laws;
use crate::scan;
use crate::state::{self, SegmentEntry};
use crate::state_laws;
use crate::SegmentId;

verus! {

// ── The plan ──────────────────────────────────────────────────────────────────

/// A plan is made of the remedies of all issues.
proof fn lemma_plan_of_remedies(issues: Seq<FileIssue>, approved: bool)
    requires
        recovery::remedies(issues, approved) is Ok,
    ensures
        recovery::remedies(issues, approved) == Ok::<_, RecoveryError>(
            recovery_laws::remedies_of(issues),
        ),
        forall|i: int|
            0 <= i < issues.len() ==> recovery::remedy(#[trigger] issues[i]) is Some,
    decreases issues.len(),
{
    if issues.len() > 0 {
        let front = issues.drop_last();
        lemma_plan_of_remedies(front, approved);
        assert(recovery_laws::remedies_of(issues) =~= recovery_laws::remedies_of(front).push(
            recovery::remedy(issues.last())->Some_0,
        ));
        assert forall|i: int| 0 <= i < issues.len() implies recovery::remedy(
            #[trigger] issues[i],
        ) is Some by {
            if i < front.len() {
                assert(issues[i] == front[i]);
            }
        }
    } else {
        assert(recovery_laws::remedies_of(issues) =~= Seq::<FixUp>::empty());
    }
}

// ── The manifest ──────────────────────────────────────────────────────────────

/// A manifest without corrupt frames is replayed up to where its valid frames
/// end.
pub proof fn lemma_replay_ends_at_frontier(s: state::StateView, data: Seq<u8>, pos: int)
    requires
        frame::tail_status(data, pos) != ScanStatus::ChecksumCorrupt,
        manifest::replay_from(s, data, pos) is Ok,
    ensures
        manifest::replay_from(s, data, pos)->Ok_0.1 == frame::frontier(data, pos),
    decreases data.len() - pos,
{
    match frame::raw_frame_at(data, pos) {
        frame::RawFrame::Whole(f) => match manifest::replay_record(s, f.payload, pos as u64) {
            Ok(t) => lemma_replay_ends_at_frontier(t, data, f.end()),
            Err(_) => {},
        },
        _ => {},
    }
}

/// No segment of a replayed state is dead twice.
proof fn lemma_replay_keeps_dead_distinct(s: state::StateView, data: Seq<u8>, pos: int)
    requires
        s.dead.no_duplicates(),
        manifest::replay_from(s, data, pos) is Ok,
    ensures
        manifest::replay_from(s, data, pos)->Ok_0.0.dead.no_duplicates(),
    decreases data.len() - pos,
{
    match frame::raw_frame_at(data, pos) {
        frame::RawFrame::Whole(f) => match manifest::replay_record(s, f.payload, pos as u64) {
            Ok(t) => {
                reveal(manifest::replay_record);
                state_laws::law_no_segment_dies_twice(s, crate::codec::decode_op(f.payload)->Ok_0);
                lemma_replay_keeps_dead_distinct(t, data, f.end());
            },
            Err(_) => {},
        },
        _ => {},
    }
}

// ── The issues ────────────────────────────────────────────────────────────────

/// What a scan of the live segments reports.
pub open spec fn segment_issues(
    st: state::StateView,
    d: action::Disk,
    ids: Seq<SegmentId>,
    segments: Seq<SegmentEntry>,
) -> Seq<FileIssue> {
    scan::segment_scans(open_laws::directory_of(d, ids), st, segments).1
}

/// A scan whose issues have a plan went through: the manifest leads to a state
/// with segments, and the issues are those of the manifest, of files that are
/// not known or missing, and of the live segments.
#[verifier::spinoff_prover]
proof fn lemma_scan_went_through(d: action::Disk, ids: Seq<SegmentId>, approved: bool)
    requires
        d.manifest.len() <= i64::MAX,
        recovery::remedies(
            scan::scan_of(open_laws::directory_of(d, ids)).issues,
            approved,
        ) is Ok,
    ensures
        ({
            let report = scan::scan_of(open_laws::directory_of(d, ids));
            let st = report.state;
            &&& recovery_laws::manifest_recoverable(st, d.manifest)
            &&& st.segments.len() > 0
            &&& st.dead.no_duplicates()
            &&& report.issues == recovery_laws::manifest_issues(d) + scan::orphan_issues(st, ids)
                + scan::missing_dead_issues(st.dead, ids) + segment_issues(st, d, ids, st.segments)
        }),
{
    let dir = open_laws::directory_of(d, ids);
    let report = scan::scan_of(dir);
    let issues = report.issues;
    let start = MAGIC_LEN as int;
    lemma_plan_of_remedies(issues, approved);
    if !files::has_magic(d.manifest, files::MANIFEST_MAGIC) {
        assert(recovery::remedy(issues[0]) is None);
    } else {
        let status = frame::tail_status(d.manifest, start);
        if status == ScanStatus::ChecksumCorrupt {
            assert(recovery::remedy(issues[0]) is None);
        } else {
            let before = recovery_laws::manifest_issues(d);
            match manifest::replay_from(state::StateView::empty(), d.manifest, start) {
                Err(_) => {
                    assert(recovery::remedy(issues[before.len() as int]) is None);
                },
                Ok((st, next)) => {
                    if st.segments.len() == 0 {
                        assert(recovery::remedy(issues[before.len() as int]) is None);
                    } else {
                        lemma_replay_ends_at_frontier(
                            state::StateView::empty(),
                            d.manifest,
                            start,
                        );
                        lemma_replay_keeps_dead_distinct(
                            state::StateView::empty(),
                            d.manifest,
                            start,
                        );
                    }
                },
            }
        }
    }
}

/// The issues of the first `j` segments come one after another.
proof fn lemma_segment_issues_step(
    st: state::StateView,
    d: action::Disk,
    ids: Seq<SegmentId>,
    j: int,
)
    requires
        0 < j <= st.segments.len(),
    ensures
        ({
            let id = st.segments[j - 1].id;
            let dir = open_laws::directory_of(d, ids);
            segment_issues(st, d, ids, st.segments.take(j)) == scan::with_segment_issue(
                segment_issues(st, d, ids, st.segments.take(j - 1)),
                id,
                scan::live_scan(st, id, dir.file(id)).1,
            )
        }),
{
    let segs = st.segments;
    assert(segs.take(j).drop_last() =~= segs.take(j - 1));
    assert(segs.take(j).last() == segs[j - 1]);
}

/// Every issue of the first `j` segments can be fixed.
pub open spec fn segments_fixable(
    st: state::StateView,
    d: action::Disk,
    ids: Seq<SegmentId>,
    j: int,
) -> bool {
    forall|i: int|
        0 <= i < segment_issues(st, d, ids, st.segments.take(j)).len() ==> recovery::remedy(
            #[trigger] segment_issues(st, d, ids, st.segments.take(j))[i],
        ) is Some
}

/// The issue of segment `j`, where those of the first `j + 1` can be fixed: a
/// sealed segment has none.
proof fn lemma_issue_of_segment(
    st: state::StateView,
    d: action::Disk,
    ids: Seq<SegmentId>,
    j: int,
)
    requires
        0 < j <= st.segments.len(),
        segments_fixable(st, d, ids, j),
    ensures
        segments_fixable(st, d, ids, j - 1),
        ({
            let id = st.segments[j - 1].id;
            let dir = open_laws::directory_of(d, ids);
            let issue = scan::live_scan(st, id, dir.file(id)).1;
            &&& st.seals.contains_key(id) ==> issue is None
            &&& issue matches Some(i) ==> recovery::remedy(
                FileIssue { file: FileRef::Segment(id), issue: i },
            ) is Some
        }),
{
    lemma_segment_issues_step(st, d, ids, j);
    let segs = st.segments;
    let id = segs[j - 1].id;
    let dir = open_laws::directory_of(d, ids);
    let before = segment_issues(st, d, ids, segs.take(j - 1));
    let after = segment_issues(st, d, ids, segs.take(j));
    let issue = scan::live_scan(st, id, dir.file(id)).1;
    assert forall|i: int| 0 <= i < before.len() implies recovery::remedy(
        #[trigger] before[i],
    ) is Some by {
        assert(after[i] == before[i]);
    }
    if issue is Some {
        assert(after[before.len() as int] == FileIssue {
            file: FileRef::Segment(id),
            issue: issue->Some_0,
        });
    }
}

proof fn lemma_segment_remedies_phase(
    st: state::StateView,
    d: action::Disk,
    ids: Seq<SegmentId>,
    j: int,
)
    requires
        0 <= j <= st.segments.len(),
        segments_fixable(st, d, ids, j),
    ensures
        forall|i: int|
            0 <= i < segment_issues(st, d, ids, st.segments.take(j)).len() ==> (
            #[trigger] recovery_laws::remedies_of(
                segment_issues(st, d, ids, st.segments.take(j)),
            )[i]).phase == FixUpPhase::SegmentFileClean,
    decreases j,
{
    let segs = st.segments;
    if j == 0 {
        assert(segs.take(0) =~= Seq::<SegmentEntry>::empty());
    } else {
        lemma_issue_of_segment(st, d, ids, j);
        lemma_segment_issues_step(st, d, ids, j);
        lemma_segment_remedies_phase(st, d, ids, j - 1);
        let before = segment_issues(st, d, ids, segs.take(j - 1));
        let after = segment_issues(st, d, ids, segs.take(j));
        assert forall|i: int| 0 <= i < after.len() implies (
        #[trigger] recovery_laws::remedies_of(after)[i]).phase
            == FixUpPhase::SegmentFileClean by {
            if i < before.len() {
                assert(after[i] == before[i]);
                assert(recovery_laws::remedies_of(before)[i].phase
                    == FixUpPhase::SegmentFileClean);
            }
        }
    }
}

// ── The segments ──────────────────────────────────────────────────────────────

/// The bytes of a segment file that count.
pub open spec fn part_of(st: state::StateView, d: action::Disk, id: SegmentId) -> Seq<u8> {
    scan::within(d.segments[id], scan::size_limit(st, id))
}

/// A segment file that is not sealed, once it is repaired: cut off where the
/// valid frames that count end, or new where it was missing.
pub open spec fn repaired(st: state::StateView, d: action::Disk, id: SegmentId) -> Seq<u8> {
    if d.segments.contains_key(id) {
        d.segments[id].take(frame::frontier(part_of(st, d, id), MAGIC_LEN as int))
    } else {
        SEGMENT_MAGIC@
    }
}

/// A segment file that is there is one: a file that cannot be read as a segment
/// stands in the way of a new one.
pub open spec fn files_readable(st: state::StateView, d: action::Disk) -> bool {
    forall|i: int|
        0 <= i < st.segments.len() && d.segments.contains_key((#[trigger] st.segments[i]).id)
            ==> files::has_magic(d.segments[st.segments[i].id], SEGMENT_MAGIC)
            && d.segments[st.segments[i].id].len() <= i64::MAX
}

/// The first `j` segments are repaired, and nothing else has changed.
pub open spec fn first_repaired(
    st: state::StateView,
    d: action::Disk,
    e: action::Disk,
    j: int,
) -> bool {
    &&& forall|x: SegmentId| #[trigger]
        e.segments.contains_key(x) <==> d.segments.contains_key(x) || exists|i: int|
            0 <= i < j && (#[trigger] st.segments[i]).id == x
    &&& forall|x: SegmentId|
        #![trigger e.segments[x]]
        e.segments.contains_key(x) ==> e.segments[x] == d.segments[x]
            && d.segments.contains_key(x) || e.segments[x] == repaired(st, d, x)
            && !st.seals.contains_key(x)
    &&& forall|i: int|
        0 <= i < j && !st.seals.contains_key((#[trigger] st.segments[i]).id)
            ==> e.segments[st.segments[i].id] == repaired(st, d, st.segments[i].id)
}

/// What the fix-up of a segment's issue does to its file.
proof fn lemma_segment_repaired(
    st: state::StateView,
    d: action::Disk,
    e: action::Disk,
    ids: Seq<SegmentId>,
    j: int,
    fix_up: FixUp,
)
    requires
        0 < j <= st.segments.len(),
        files_readable(st, d),
        segments_fixable(st, d, ids, j),
        first_repaired(st, d, e, j - 1),
        ({
            let id = st.segments[j - 1].id;
            let issue = scan::live_scan(st, id, open_laws::directory_of(d, ids).file(id)).1;
            issue matches Some(i) && recovery::remedy(
                FileIssue { file: FileRef::Segment(id), issue: i },
            ) == Some(fix_up)
        }),
    ensures
        first_repaired(st, d, recovery_laws::mend(e, seq![fix_up]), j),
        recovery_laws::mend(e, seq![fix_up]).manifest == e.manifest,
{
    lemma_issue_of_segment(st, d, ids, j);
    let segs = st.segments;
    let id = segs[j - 1].id;
    let f = recovery_laws::mend(e, seq![fix_up]);
    assert(!st.seals.contains_key(id));
    if d.segments.contains_key(segs[j - 1].id) {
        let data = d.segments[id];
        let part = part_of(st, d, id);
        let end = frame::frontier(part, MAGIC_LEN as int);
        recovery_laws::lemma_part_has_magic(st, id, data);
        recovery_laws::lemma_live_issue(st, id, data);
        frame_laws::lemma_frontier(part, MAGIC_LEN as int);
        assert(open_laws::directory_of(d, ids).file(id) == (scan::FileView {
            size: Ok(data.len() as u64),
            contents: Ok(data),
        }));
        recovery_laws::lemma_mend_one(
            e,
            fix_up,
            action::ActionView::TruncateSegment { id, len: end as u64 },
        );
        assert(data.take(end).take(end) =~= data.take(end));
        assert(e.segments.contains_key(id));
        assert(f.segments[id] == repaired(st, d, id));
        assert(f.segments == e.segments.insert(id, repaired(st, d, id)));
    } else {
        recovery_laws::lemma_mend_one(e, fix_up, action::ActionView::CreateSegment(id));
        assert(f.segments == e.segments.insert(id, repaired(st, d, id)));
    }
    assert forall|x: SegmentId| #[trigger] f.segments.contains_key(x)
        <==> d.segments.contains_key(x) || exists|i: int|
        0 <= i < j && (#[trigger] segs[i]).id == x by {
        if x == id {
            assert(segs[j - 1].id == x);
        } else {
            assert(f.segments.contains_key(x) == e.segments.contains_key(x));
            if exists|i: int| 0 <= i < j && (#[trigger] segs[i]).id == x {
                let i = choose|i: int| 0 <= i < j && (#[trigger] segs[i]).id == x;
                assert(i < j - 1);
            }
        }
    }
    assert forall|x: SegmentId|
        #![trigger f.segments[x]]
        f.segments.contains_key(x) implies f.segments[x] == d.segments[x]
        && d.segments.contains_key(x) || f.segments[x] == repaired(st, d, x)
        && !st.seals.contains_key(x) by {
        if x != id {
            assert(e.segments.contains_key(x));
            assert(f.segments[x] == e.segments[x]);
        }
    }
    assert forall|i: int| 0 <= i < j && !st.seals.contains_key(
        (#[trigger] segs[i]).id,
    ) implies f.segments[segs[i].id] == repaired(st, d, segs[i].id) by {
        if segs[i].id != id {
            assert(i < j - 1);
            assert(f.segments[segs[i].id] == e.segments[segs[i].id]);
        }
    }
}

/// The fix-ups of the issues of the first `j` segments repair these segments.
#[verifier::spinoff_prover]
proof fn lemma_segments_repaired(
    st: state::StateView,
    d: action::Disk,
    e: action::Disk,
    ids: Seq<SegmentId>,
    j: int,
)
    requires
        0 <= j <= st.segments.len(),
        files_readable(st, d),
        segments_fixable(st, d, ids, j),
        e.segments == d.segments,
    ensures
        ({
            let f = recovery_laws::mend(
                e,
                recovery_laws::remedies_of(segment_issues(st, d, ids, st.segments.take(j))),
            );
            first_repaired(st, d, f, j) && f.manifest == e.manifest
        }),
    decreases j,
{
    let segs = st.segments;
    let issues = segment_issues(st, d, ids, segs.take(j));
    let fix_ups = recovery_laws::remedies_of(issues);
    let f = recovery_laws::mend(e, fix_ups);
    if j == 0 {
        assert(segs.take(0) =~= Seq::<SegmentEntry>::empty());
        assert(fix_ups =~= Seq::<FixUp>::empty());
    } else {
        lemma_issue_of_segment(st, d, ids, j);
        lemma_segment_issues_step(st, d, ids, j);
        lemma_segments_repaired(st, d, e, ids, j - 1);
        let before = segment_issues(st, d, ids, segs.take(j - 1));
        let g = recovery_laws::mend(e, recovery_laws::remedies_of(before));
        let id = segs[j - 1].id;
        let issue = scan::live_scan(st, id, open_laws::directory_of(d, ids).file(id)).1;
        match issue {
            Some(i) => {
                let fix_up = recovery::remedy(
                    FileIssue { file: FileRef::Segment(id), issue: i },
                )->Some_0;
                assert(fix_ups =~= recovery_laws::remedies_of(before) + seq![fix_up]);
                recovery_laws::lemma_mend_concat(
                    e,
                    recovery_laws::remedies_of(before),
                    seq![fix_up],
                );
                lemma_segment_repaired(st, d, g, ids, j, fix_up);
            },
            None => {
                assert(issues == before);
                lemma_sound_segment_is_repaired(st, d, g, ids, j);
            },
        }
    }
}

/// A segment without an issue needs no repair.
proof fn lemma_sound_segment_is_repaired(
    st: state::StateView,
    d: action::Disk,
    e: action::Disk,
    ids: Seq<SegmentId>,
    j: int,
)
    requires
        0 < j <= st.segments.len(),
        first_repaired(st, d, e, j - 1),
        files_readable(st, d),
        scan::live_scan(
            st,
            st.segments[j - 1].id,
            open_laws::directory_of(d, ids).file(st.segments[j - 1].id),
        ).1 is None,
    ensures
        first_repaired(st, d, e, j),
{
    let segs = st.segments;
    let id = segs[j - 1].id;
    let data = d.segments[id];
    assert(d.segments.contains_key(id));
    assert(e.segments.contains_key(id));
    if !st.seals.contains_key(id) {
        assert(open_laws::directory_of(d, ids).file(id) == (scan::FileView {
            size: Ok(data.len() as u64),
            contents: Ok(data),
        }));
        assert(files::has_magic(d.segments[segs[j - 1].id], SEGMENT_MAGIC));
        recovery_laws::lemma_live_issue(st, id, data);
        assert(frame_laws::clean(data, MAGIC_LEN as int));
        open_laws::lemma_clean_frontier(data, MAGIC_LEN as int);
        assert(data.take(data.len() as int) =~= data);
        assert(e.segments[id] == repaired(st, d, id));
    }
    assert forall|x: SegmentId| #[trigger] e.segments.contains_key(x)
        <==> d.segments.contains_key(x) || exists|i: int|
        0 <= i < j && (#[trigger] segs[i]).id == x by {
        if exists|i: int| 0 <= i < j && (#[trigger] segs[i]).id == x {
            let i = choose|i: int| 0 <= i < j && (#[trigger] segs[i]).id == x;
            if i < j - 1 {
                assert(segs[i].id == x);
            }
        }
        if exists|i: int| 0 <= i < j - 1 && (#[trigger] segs[i]).id == x {
            let i = choose|i: int| 0 <= i < j - 1 && (#[trigger] segs[i]).id == x;
            assert(segs[i].id == x);
        }
    }
    assert forall|i: int| 0 <= i < j && !st.seals.contains_key(
        (#[trigger] segs[i]).id,
    ) implies e.segments[segs[i].id] == repaired(st, d, segs[i].id) by {}
}

/// A repaired segment is in order.
proof fn lemma_repaired_is_sound(st: state::StateView, d: action::Disk, i: int)
    requires
        files_readable(st, d),
        0 <= i < st.segments.len(),
    ensures
        log_laws::sound(repaired(st, d, st.segments[i].id)),
        d.segments.contains_key(st.segments[i].id) ==> frame::frames(
            repaired(st, d, st.segments[i].id),
            MAGIC_LEN as int,
        ) == frame::frames(part_of(st, d, st.segments[i].id), MAGIC_LEN as int),
        scan::size_limit(st, st.segments[i].id) matches Some(n) ==> repaired(
            st,
            d,
            st.segments[i].id,
        ).len() <= n,
{
    let id = st.segments[i].id;
    let start = MAGIC_LEN as int;
    if d.segments.contains_key(st.segments[i].id) {
        let data = d.segments[id];
        let part = part_of(st, d, id);
        let fs = frame::frames(part, start);
        recovery_laws::lemma_part_has_magic(st, id, data);
        frame_laws::lemma_frontier(part, start);
        frame_laws::law_cut_keeps_prefix(part, start, fs.len() as int);
        assert(fs.take(fs.len() as int) =~= fs);
        assert(repaired(st, d, id) =~= part.take(frame::frontier(part, start)));
        assert(repaired(st, d, id).take(start) =~= data.take(start));
    } else {
        op_laws::lemma_new_segment_is_sound();
    }
}

/// A scan finds nothing wrong with the first `j` segments once they are
/// repaired.
#[verifier::spinoff_prover]
proof fn lemma_repaired_segments_scan(
    st: state::StateView,
    t: state::StateView,
    d: action::Disk,
    e: action::Disk,
    ids: Seq<SegmentId>,
    new_ids: Seq<SegmentId>,
    j: int,
)
    requires
        0 <= j <= st.segments.len(),
        files_readable(st, d),
        segments_fixable(st, d, ids, j),
        first_repaired(st, d, e, st.segments.len() as int),
        t.segments == st.segments,
        t.seals == st.seals,
        t.active == st.active,
        t.cut_at == st.cut_at,
    ensures
        segment_issues(t, e, new_ids, st.segments.take(j)) == Seq::<FileIssue>::empty(),
    decreases j,
{
    let segs = st.segments;
    if j == 0 {
        assert(segs.take(0) =~= Seq::<SegmentEntry>::empty());
    } else {
        lemma_issue_of_segment(st, d, ids, j);
        lemma_repaired_segments_scan(st, t, d, e, ids, new_ids, j - 1);
        lemma_segment_issues_step(t, e, new_ids, j);
        let id = segs[j - 1].id;
        assert(e.segments.contains_key(id)) by {
            assert(segs[j - 1].id == id);
        }
        let data = e.segments[id];
        let file = scan::FileView { size: Ok(data.len() as u64), contents: Ok(data) };
        assert(open_laws::directory_of(e, new_ids).file(id) == file);
        if st.seals.contains_key(id) {
            assert(data == d.segments[id]);
            assert(open_laws::directory_of(d, ids).file(id) == file);
        } else {
            assert(e.segments[segs[j - 1].id] == repaired(st, d, segs[j - 1].id));
            lemma_repaired_is_sound(st, d, j - 1);
        }
        assert(scan::live_scan(t, id, file).1 is None);
    }
}

// ── The reports ───────────────────────────────────────────────────────────────

/// There is a report on every segment.
proof fn lemma_reports(dir: scan::DirectoryView, st: state::StateView, segs: Seq<SegmentEntry>)
    ensures
        scan::segment_scans(dir, st, segs).0.len() == segs.len(),
        forall|i: int|
            0 <= i < segs.len() ==> (#[trigger] scan::segment_scans(dir, st, segs).0[i]).id
                == segs[i].id,
    decreases segs.len(),
{
    if segs.len() > 0 {
        lemma_reports(dir, st, segs.drop_last());
    }
}

proof fn lemma_report_is_found(reports: Seq<scan::SegmentReportView>, i: int)
    requires
        0 <= i < reports.len(),
    ensures
        open::find_report(reports, reports[i].id) is Some,
    decreases reports.len(),
{
    if reports[0].id != reports[i].id {
        assert(reports.skip(1)[i - 1] == reports[i]);
        lemma_report_is_found(reports.skip(1), i - 1);
    }
}

proof fn lemma_segment_is_found(segments: Seq<SegmentEntry>, id: SegmentId)
    requires
        state::find_segment(segments, id) is Some,
    ensures
        state::find_segment(segments, id)->Some_0.id == id,
        exists|i: int| 0 <= i < segments.len() && (#[trigger] segments[i]).id == id,
    decreases segments.len(),
{
    if segments[0].id != id {
        lemma_segment_is_found(segments.skip(1), id);
        let i = choose|i: int| 0 <= i < segments.skip(1).len() && (
        #[trigger] segments.skip(1)[i]).id == id;
        assert(segments[i + 1].id == id);
    }
}

// ── The law ───────────────────────────────────────────────────────────────────

/// The stages of a recovery: the manifest, the records of what is not known and
/// of what is missing, and the segments.
#[verifier::spinoff_prover]
proof fn lemma_stages(d: action::Disk, ids: Seq<SegmentId>, approved: bool) -> (t:
    state::StateView)
    requires
        open_laws::lists(ids, d),
        recovery::plan(scan::scan_of(open_laws::directory_of(d, ids)).issues, approved) is Ok,
        ({
            let st = scan::scan_of(open_laws::directory_of(d, ids)).state;
            &&& d.manifest.len() + 128 * (ids.len() + st.dead.len()) <= i64::MAX
            &&& files_readable(st, d)
        }),
    ensures
        ({
            let report = scan::scan_of(open_laws::directory_of(d, ids));
            let st = report.state;
            let e = recovery_laws::mend(d, recovery::plan(report.issues, approved)->Ok_0);
            &&& st.segments.len() > 0
            &&& segments_fixable(st, d, ids, st.segments.len() as int)
            &&& t == (state::StateView { dead: t.dead, ..st })
            &&& manifest_laws::manifest_ok(t, e.manifest)
            &&& e.manifest.len() <= i64::MAX
            &&& first_repaired(st, d, e, st.segments.len() as int)
            &&& forall|x: SegmentId| #[trigger]
                t.dead.contains(x) <==> d.segments.contains_key(x) && (st.dead.contains(x)
                    || !st.is_live(x))
        }),
{
    let report = scan::scan_of(open_laws::directory_of(d, ids));
    let st = report.state;
    let segs = st.segments;
    let n = segs.len() as int;
    lemma_scan_went_through(d, ids, approved);
    lemma_plan_of_remedies(report.issues, approved);
    let (a, b, c, f) = (
        recovery_laws::manifest_issues(d),
        scan::orphan_issues(st, ids),
        scan::missing_dead_issues(st.dead, ids),
        segment_issues(st, d, ids, segs),
    );
    let (ra, rb, rc, rf) = (
        recovery_laws::remedies_of(a),
        recovery_laws::remedies_of(b),
        recovery_laws::remedies_of(c),
        recovery_laws::remedies_of(f),
    );
    assert(segs.take(n) =~= segs);
    assert forall|i: int| 0 <= i < f.len() implies recovery::remedy(#[trigger] f[i]) is Some by {
        assert(report.issues[a.len() + b.len() + c.len() + i] == f[i]);
    }
    recovery_laws::lemma_orphan_remedies(st, ids);
    recovery_laws::lemma_missing_remedies(st.dead, ids);
    lemma_segment_remedies_phase(st, d, ids, n);
    let middle = rb + rc;
    assert(recovery_laws::remedies_of(report.issues) =~= ra + middle + rf);
    assert forall|i: int| 0 <= i < middle.len() implies (#[trigger] middle[i]).phase
        == FixUpPhase::ManifestAppends by {
        if i < rb.len() {
            assert(middle[i] == rb[i]);
        } else {
            assert(middle[i] == rc[i - rb.len()]);
        }
    }
    recovery_laws::lemma_three_phases(ra, middle, rf);
    recovery_laws::lemma_mend_concat(d, ra + middle, rf);
    recovery_laws::lemma_mend_concat(d, ra, middle);
    let d1 = recovery_laws::mend(d, ra);
    recovery_laws::lemma_mend_concat(d1, rb, rc);
    let d2 = recovery_laws::mend(d1, rb);
    let d3 = recovery_laws::mend(d2, rc);
    recovery_laws::lemma_manifest_mended(st, d);
    assert(ids.take(ids.len() as int) =~= ids);
    let u = recovery_laws::lemma_orphans_recorded(st, d1, ids, ids.len() as int);
    assert(st.dead.take(st.dead.len() as int) =~= st.dead);
    assert forall|i: int| 0 <= i < st.dead.len() implies u.dead.contains(#[trigger] st.dead[i]) by {
        assert(st.dead.contains(st.dead[i]));
    }
    let t = recovery_laws::lemma_missing_forgotten(u, d2, st.dead, ids, st.dead.len() as int);
    lemma_segments_repaired(st, d, d3, ids, n);
    assert forall|x: SegmentId| #[trigger] t.dead.contains(x) <==> d.segments.contains_key(x)
        && (st.dead.contains(x) || !st.is_live(x)) by {
        assert(ids.contains(x) <==> d.segments.contains_key(x));
    }
    t
}

/// Law: once the fix-ups of a recovery have run, approved or not, a new scan
/// finds nothing wrong, so that the store opens. Where approval was asked for,
/// this is what giving it leads to. Live segments, seals, head and metadata are
/// what they were, and so are the valid frames of every segment that was there, as
/// far as they count.
///
/// A file that stands where a missing segment is created is left out: it makes
/// the recovery fail.
#[verifier::spinoff_prover]
pub proof fn law_recovered_store_opens(
    d: action::Disk,
    ids: Seq<SegmentId>,
    new_ids: Seq<SegmentId>,
    approved: bool,
)
    requires
        open_laws::lists(ids, d),
        recovery::plan(scan::scan_of(open_laws::directory_of(d, ids)).issues, approved) is Ok,
        ({
            let report = scan::scan_of(open_laws::directory_of(d, ids));
            &&& d.manifest.len() + 128 * (ids.len() + report.state.dead.len()) <= i64::MAX
            &&& files_readable(report.state, d)
            &&& open_laws::lists(
                new_ids,
                recovery_laws::mend(d, recovery::plan(report.issues, approved)->Ok_0),
            )
        }),
    ensures
        ({
            let report = scan::scan_of(open_laws::directory_of(d, ids));
            let st = report.state;
            let e = recovery_laws::mend(d, recovery::plan(report.issues, approved)->Ok_0);
            let again = scan::scan_of(open_laws::directory_of(e, new_ids));
            &&& again.issues == Seq::<FileIssue>::empty()
            &&& again.state == (state::StateView { dead: again.state.dead, ..st })
            &&& open::active_entry(st) is Some && open::max_id(again.state) < u32::MAX
                ==> open::openable(again)
            &&& forall|i: int|
                0 <= i < st.segments.len() && d.segments.contains_key(
                    (#[trigger] st.segments[i]).id,
                ) ==> log_laws::segment_frames(e, st.segments[i].id) == frame::frames(
                    part_of(st, d, st.segments[i].id),
                    MAGIC_LEN as int,
                )
        }),
{
    let report = scan::scan_of(open_laws::directory_of(d, ids));
    let st = report.state;
    let segs = st.segments;
    let n = segs.len() as int;
    let e = recovery_laws::mend(d, recovery::plan(report.issues, approved)->Ok_0);
    let t = lemma_stages(d, ids, approved);
    let dir = open_laws::directory_of(e, new_ids);
    assert forall|x: SegmentId| #[trigger] t.is_live(x) == st.is_live(x) by {
        assert(t.segments == st.segments);
    }
    assert forall|i: int| 0 <= i < new_ids.len() implies t.is_live(#[trigger] new_ids[i])
        || t.dead.contains(new_ids[i]) by {
        let x = new_ids[i];
        assert(new_ids.contains(x));
        assert(e.segments.contains_key(x));
        if !d.segments.contains_key(x) {
            let j = choose|j: int| 0 <= j < n && (#[trigger] segs[j]).id == x;
            assert(t.segments[j].id == x);
        } else if !t.is_live(x) {
            assert(t.dead.contains(x));
        }
    }
    open_laws::lemma_no_orphans(t, new_ids);
    assert forall|i: int| 0 <= i < t.dead.len() implies new_ids.contains(#[trigger] t.dead[i]) by {
        assert(t.dead.contains(t.dead[i]));
        assert(d.segments.contains_key(t.dead[i]));
        assert(e.segments.contains_key(t.dead[i]));
    }
    open_laws::lemma_no_missing_dead(t.dead, new_ids);
    assert(segs.take(n) =~= segs);
    lemma_repaired_segments_scan(st, t, d, e, ids, new_ids, n);
    let none = Seq::<FileIssue>::empty();
    assert(none + none + none + none =~= none);
    let again = scan::scan_of(dir);
    assert(again.issues =~= none);
    assert(again.state == t);
    if open::active_entry(st) is Some {
        let id = st.active->Some_0;
        lemma_segment_is_found(segs, id);
        let i = choose|i: int| 0 <= i < segs.len() && (#[trigger] segs[i]).id == id;
        lemma_reports(dir, t, segs);
        assert(again.segments[i].id == id);
        lemma_report_is_found(again.segments, i);
    }
    assert forall|i: int| 0 <= i < n && d.segments.contains_key(
        (#[trigger] segs[i]).id,
    ) implies log_laws::segment_frames(e, segs[i].id) == frame::frames(
        part_of(st, d, segs[i].id),
        MAGIC_LEN as int,
    ) by {
        assert(e.segments.contains_key(segs[i].id));
        if !st.seals.contains_key(segs[i].id) {
            lemma_repaired_is_sound(st, d, i);
        } else {
            assert(e.segments[segs[i].id] == d.segments[segs[i].id]);
        }
    }
}

} // verus!
