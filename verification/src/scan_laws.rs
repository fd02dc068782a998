//! What a scan of a store directory reports, and what it means that it reports
//! nothing.

use vstd::prelude::*;

use crate::files;
use crate::format_laws;
use crate::frame;
use crate::frame_laws;
use crate::issue::{FileIssue, FileRef, Issue};
use crate::manifest::{self, ReplayError};
use crate::open_laws;
use crate::scan;
use crate::scanner_laws;
use crate::state::{self, SegmentEntry};
use crate::{EntryId, IoFault, SegmentId};

verus! {

// ── One segment ───────────────────────────────────────────────────────────────

/// Where the active segment has to end after a rollback, if anywhere.
pub open spec fn has_to_end_by(st: state::StateView, id: SegmentId, n: int) -> bool {
    &&& st.active == Some(id)
    &&& !st.seals.contains_key(id)
    &&& st.cut_at matches Some(c) && n == if c < 8 {
        8
    } else {
        c as int
    }
}

/// A segment file that is as the state has it: it is there, begins with the magic
/// prefix of a segment, holds intact frames and nothing else, has the size it was
/// sealed with, if it was, and ends where a rollback has cut it off, if one has.
pub open spec fn in_order(st: state::StateView, id: SegmentId, file: scan::FileView) -> bool {
    &&& file.contents matches Ok(data)
    &&& format_laws::begins_as_segment(data)
    &&& frame_laws::clean(data, 8)
    &&& st.seals.contains_key(id) ==> file.size == Ok::<u64, IoFault>(st.seals[id].final_size)
    &&& forall|n: int| #[trigger] has_to_end_by(st, id, n) ==> data.len() <= n
}

/// Files are not longer than files can be.
pub open spec fn size_ok(file: scan::FileView) -> bool {
    file.contents matches Ok(data) ==> data.len() <= i64::MAX
}

/// Law: a scan finds nothing wrong with a segment exactly where its file is in
/// order, and then reports how many frames it holds, where they end, the last id,
/// and a checkpoint for every 64th frame.
pub proof fn law_segment_without_issue_is_in_order(
    st: state::StateView,
    id: SegmentId,
    file: scan::FileView,
)
    requires
        size_ok(file),
    ensures
        ({
            let (report, issue) = scan::live_scan(st, id, file);
            &&& issue is None <==> in_order(st, id, file)
            &&& report.id == id
            &&& issue is None ==> {
                let data = file.contents->Ok_0;
                let fs = frame::frames(data, 8);
                &&& report.num_entries == fs.len()
                &&& report.write_offset == data.len()
                &&& report.last_entry_id == if fs.len() == 0 {
                    None
                } else {
                    Some(EntryId(fs.last().id))
                }
                &&& report.index.len() * 64 >= fs.len()
                &&& report.index.len() > 0 ==> (report.index.len() - 1) * 64 < fs.len()
                &&& forall|c: int|
                    0 <= c < report.index.len() ==> scanner_laws::is_frame_no(
                        fs,
                        c * 64,
                        #[trigger] report.index[c],
                    )
            }
        }),
{
    let (report, issue) = scan::live_scan(st, id, file);
    let limit = scan::size_limit(st, id);
    if let Ok(data) = file.contents {
        format_laws::lemma_magic(data);
        let part = scan::within(data, limit);
        format_laws::lemma_magic(part);
        if let Some(n) = limit {
            assert(has_to_end_by(st, id, n as int));
        }
        if data.len() >= 8 {
            frame_laws::lemma_frame_count(data, 8);
            if frame_laws::clean(data, 8) {
                open_laws::lemma_clean_frontier(data, 8);
            }
        }
        if issue is None {
            scanner_laws::law_checkpoints_at_stride(frame::frames(data, 8), 64);
        }
        if in_order(st, id, file) {
            assert(part == data);
        }
    }
}

/// Law: what a scan reports of a segment that is not in order. A sealed segment is
/// missing where its size or its contents cannot be read or do not begin as they
/// should, has another size, or is corrupt behind its last intact frame; a segment
/// that is not sealed is missing, or has a torn tail behind its last intact frame.
pub proof fn law_issue_tells_what_is_wrong(
    st: state::StateView,
    id: SegmentId,
    file: scan::FileView,
)
    requires
        size_ok(file),
    ensures
        ({
            let issue = scan::live_scan(st, id, file).1;
            let readable = file.contents matches Ok(data) && format_laws::begins_as_segment(data);
            if st.seals.contains_key(id) {
                let expected = st.seals[id].final_size;
                &&& file.size is Err ==> issue == Some(Issue::SealedSegmentMissing)
                &&& file.size is Ok && file.size->Ok_0 != expected ==> issue == Some(
                    Issue::SealedSegmentSizeMismatch { expected, actual: file.size->Ok_0 },
                )
                &&& file.size == Ok::<u64, IoFault>(expected) && !readable ==> issue == Some(
                    Issue::SealedSegmentMissing,
                )
                &&& file.size == Ok::<u64, IoFault>(expected) && readable
                    && issue is Some ==> issue == Some(
                    Issue::SealedSegmentChecksumCorrupt {
                        corrupt_at: frame::frontier(file.contents->Ok_0, 8) as u64,
                    },
                )
            } else {
                &&& !readable ==> issue == Some(Issue::ActiveSegmentMissing)
                &&& readable && issue is Some ==> {
                    &&& issue matches Some(Issue::ActiveSegmentTornTail { truncate_to })
                    &&& truncate_to <= frame::frontier(file.contents->Ok_0, 8)
                    &&& forall|n: int| #[trigger] has_to_end_by(st, id, n) ==> truncate_to <= n
                    &&& (forall|n: int| !#[trigger] has_to_end_by(st, id, n)) ==> truncate_to
                        == frame::frontier(file.contents->Ok_0, 8)
                }
            }
        }),
{
    let limit = scan::size_limit(st, id);
    if let Ok(data) = file.contents {
        format_laws::lemma_magic(data);
        let part = scan::within(data, limit);
        format_laws::lemma_magic(part);
        if let Some(n) = limit {
            assert(has_to_end_by(st, id, n as int));
        }
        if data.len() >= 8 {
            frame_laws::lemma_frontier(data, 8);
            frame_laws::lemma_frontier(part, 8);
            lemma_part_frontier(data, part.len() as int, 8);
            assert(data.take(part.len() as int) =~= part);
            if frame_laws::clean(part, 8) {
                open_laws::lemma_clean_frontier(part, 8);
            }
        }
    }
}

/// A segment file that a scan can look into: it begins as one, and a sealed one
/// has its size.
pub open spec fn can_look_into(st: state::StateView, id: SegmentId, file: scan::FileView) -> bool {
    &&& file.contents matches Ok(data) && format_laws::begins_as_segment(data)
    &&& st.seals.contains_key(id) ==> file.size == Ok::<u64, IoFault>(st.seals[id].final_size)
}

/// Law: a scan reports the intact frames of every segment that it can look into,
/// also where something is wrong behind them, as far as they count: how many there
/// are, the last id, and the checkpoints. Of another segment it reports nothing.
/// Where a segment goes on is reported only where nothing is wrong behind its
/// frames.
pub proof fn law_intact_frames_are_reported(
    st: state::StateView,
    id: SegmentId,
    file: scan::FileView,
)
    requires
        size_ok(file),
    ensures
        ({
            let report = scan::live_scan(st, id, file).0;
            &&& report.id == id
            &&& can_look_into(st, id, file) ==> exists|part: Seq<u8>|
                {
                    let fs = frame::frames(part, 8);
                    &&& #[trigger] part.is_prefix_of(file.contents->Ok_0)
                    &&& (forall|n: int| !#[trigger] has_to_end_by(st, id, n)) ==> part
                        == file.contents->Ok_0
                    &&& forall|n: int| #[trigger] has_to_end_by(st, id, n) ==> part.len() == if n
                        < file.contents->Ok_0.len() {
                        n
                    } else {
                        file.contents->Ok_0.len() as int
                    }
                    &&& report.num_entries == fs.len()
                    &&& report.last_entry_id == if fs.len() == 0 {
                        None
                    } else {
                        Some(EntryId(fs.last().id))
                    }
                    &&& report.index == frame::checkpoints_of(fs, 64)
                    &&& report.write_offset == if frame_laws::clean(part, 8) {
                        part.len()
                    } else {
                        0
                    }
                }
            &&& !can_look_into(st, id, file) ==> report.num_entries == 0 && report.write_offset == 0
                && report.last_entry_id is None && report.index.len() == 0
        }),
{
    let limit = scan::size_limit(st, id);
    if let Ok(data) = file.contents {
        let part = scan::within(data, limit);
        format_laws::lemma_magic(data);
        format_laws::lemma_magic(part);
        if let Some(n) = limit {
            assert(has_to_end_by(st, id, n as int));
        }
        assert(part =~= data.subrange(0, part.len() as int));
        assert(part.is_prefix_of(data));
        if format_laws::begins_as_segment(data) {
            frame_laws::lemma_frame_count(part, 8);
            if frame_laws::clean(part, 8) {
                open_laws::lemma_clean_frontier(part, 8);
            }
        }
    }
}

/// Law: a scan can take any files that are not longer than files can be.
pub proof fn law_scan_takes_any_files(d: scan::DirectoryView)
    ensures
        scan::sizes_ok(d) <==> {
            &&& d.manifest matches Ok(m) ==> m.len() < 0x8000_0000_0000_0000
            &&& forall|id: SegmentId|
                d.segments.contains_key(id) ==> (#[trigger] d.segments[id]).contents is Err
                    || d.segments[id].contents->Ok_0.len() < 0x8000_0000_0000_0000
        },
{
}

/// The intact frames of the first part of a file end no later than those of the
/// file.
proof fn lemma_part_frontier(data: Seq<u8>, n: int, pos: int)
    requires
        0 <= pos <= n <= data.len(),
    ensures
        frame::frontier(data.take(n), pos) <= frame::frontier(data, pos),
    decreases n - pos,
{
    let part = data.take(n);
    frame_laws::lemma_frontier(data, pos);
    match frame::raw_frame_at(part, pos) {
        frame::RawFrame::Whole(f) if frame::intact(part, f) => {
            let rest = data.skip(n);
            assert(data =~= part + rest);
            frame_laws::lemma_frame_is_local(part, rest, pos);
            lemma_part_frontier(data, n, f.end());
        },
        _ => {},
    }
}

// ── Lists of issues ───────────────────────────────────────────────────────────

/// An issue about a segment file.
pub open spec fn about(id: SegmentId, issue: Issue) -> FileIssue {
    FileIssue { file: FileRef::Segment(id), issue }
}

pub proof fn lemma_filtered_push<A>(s: Seq<A>, x: A, p: spec_fn(A) -> bool)
    ensures
        s.push(x).filter(p) == if p(x) {
            s.filter(p).push(x)
        } else {
            s.filter(p)
        },
{
    reveal(Seq::filter);
    assert(s.push(x).drop_last() =~= s);
}

/// The listed ids that the state does not know, in order.
pub open spec fn unknown_ids(st: state::StateView, ids: Seq<SegmentId>) -> Seq<SegmentId> {
    ids.filter(|id: SegmentId| !(st.is_live(id) || st.dead.contains(id)))
}

proof fn lemma_orphans(st: state::StateView, ids: Seq<SegmentId>)
    ensures
        scan::orphan_issues(st, ids) == unknown_ids(st, ids).map_values(
            |id: SegmentId| about(id, Issue::OrphanSegmentFound),
        ),
    decreases ids.len(),
{
    let f = |id: SegmentId| about(id, Issue::OrphanSegmentFound);
    let p = |id: SegmentId| !(st.is_live(id) || st.dead.contains(id));
    if ids.len() == 0 {
        reveal(Seq::filter);
        assert(unknown_ids(st, ids).map_values(f) =~= scan::orphan_issues(st, ids));
    } else {
        let front = ids.drop_last();
        lemma_orphans(st, front);
        assert(ids =~= front.push(ids.last()));
        lemma_filtered_push(front, ids.last(), p);
        assert(unknown_ids(st, ids).map_values(f) =~= scan::orphan_issues(st, ids));
    }
}

/// The dead segments that are not listed, in order.
pub open spec fn unlisted(dead: Seq<SegmentId>, ids: Seq<SegmentId>) -> Seq<SegmentId> {
    dead.filter(|id: SegmentId| !ids.contains(id))
}

proof fn lemma_missing(dead: Seq<SegmentId>, ids: Seq<SegmentId>)
    ensures
        scan::missing_dead_issues(dead, ids) == unlisted(dead, ids).map_values(
            |id: SegmentId| about(id, Issue::DeadSegmentNotFound),
        ),
    decreases dead.len(),
{
    let f = |id: SegmentId| about(id, Issue::DeadSegmentNotFound);
    let p = |id: SegmentId| !ids.contains(id);
    if dead.len() == 0 {
        reveal(Seq::filter);
        assert(unlisted(dead, ids).map_values(f) =~= scan::missing_dead_issues(dead, ids));
    } else {
        let front = dead.drop_last();
        lemma_missing(front, ids);
        assert(dead =~= front.push(dead.last()));
        lemma_filtered_push(front, dead.last(), p);
        assert(unlisted(dead, ids).map_values(f) =~= scan::missing_dead_issues(dead, ids));
    }
}

/// The live segments that are not in order, in order of the log.
pub open spec fn out_of_order(
    d: scan::DirectoryView,
    st: state::StateView,
    segments: Seq<SegmentEntry>,
) -> Seq<SegmentEntry> {
    segments.filter(|x: SegmentEntry| !in_order(st, x.id, d.file(x.id)))
}

/// No segment file is longer than a file can be.
pub open spec fn sizes_fine(d: scan::DirectoryView) -> bool {
    forall|id: SegmentId| size_ok(#[trigger] d.file(id))
}

proof fn lemma_segments(d: scan::DirectoryView, st: state::StateView, segments: Seq<SegmentEntry>)
    requires
        sizes_fine(d),
    ensures
        ({
            let (reports, issues) = scan::segment_scans(d, st, segments);
            &&& reports.len() == segments.len()
            &&& forall|i: int|
                0 <= i < segments.len() ==> #[trigger] reports[i] == scan::live_scan(
                    st,
                    segments[i].id,
                    d.file(segments[i].id),
                ).0
            &&& issues == out_of_order(d, st, segments).map_values(
                |x: SegmentEntry|
                    about(x.id, scan::live_scan(st, x.id, d.file(x.id)).1->Some_0),
            )
        }),
    decreases segments.len(),
{
    let f = |x: SegmentEntry| about(x.id, scan::live_scan(st, x.id, d.file(x.id)).1->Some_0);
    let p = |x: SegmentEntry| !in_order(st, x.id, d.file(x.id));
    let issues = scan::segment_scans(d, st, segments).1;
    if segments.len() == 0 {
        reveal(Seq::filter);
        assert(out_of_order(d, st, segments).map_values(f) =~= issues);
    } else {
        let front = segments.drop_last();
        let x = segments.last();
        lemma_segments(d, st, front);
        assert(segments =~= front.push(x));
        lemma_filtered_push(front, x, p);
        assert(size_ok(d.file(x.id)));
        law_segment_without_issue_is_in_order(st, x.id, d.file(x.id));
        assert(out_of_order(d, st, segments).map_values(f) =~= issues);
    }
}

// ── The directory ─────────────────────────────────────────────────────────────

/// A manifest that a scan goes through: its records, up to the last intact one,
/// lead to a state with segments, and nothing but a torn record follows them.
pub open spec fn leads_to(m: Seq<u8>, st: state::StateView) -> bool {
    &&& format_laws::begins_as_manifest(m)
    &&& !(frame::raw_frame_at(m, frame::frontier(m, 8)) is Whole)
    &&& manifest::replay_from(state::StateView::empty(), m, 8) matches Ok((s, _)) && s == st
    &&& st.segments.len() > 0
}

/// Law: a scan whose manifest leads to a state reports that state, a report per
/// live segment, and the issues in this order: a torn record at the end of the
/// manifest, the segment files that are neither live nor dead, the dead segments
/// that have no file, and the live segments that are not in order.
#[verifier::spinoff_prover]
pub proof fn law_scan_reports_all_issues_in_order(
    d: scan::DirectoryView,
    m: Seq<u8>,
    st: state::StateView,
    ids: Seq<SegmentId>,
)
    requires
        d.exists,
        d.manifest == Ok::<Seq<u8>, IoFault>(m),
        m.len() <= i64::MAX,
        leads_to(m, st),
        d.ids == Ok::<Seq<SegmentId>, IoFault>(ids),
        sizes_fine(d),
    ensures
        ({
            let report = scan::scan_of(d);
            let end = frame::frontier(m, 8);
            let torn = if end < m.len() {
                seq![
                    FileIssue {
                        file: FileRef::Manifest,
                        issue: Issue::ManifestTornTail { truncate_to: end as u64 },
                    },
                ]
            } else {
                Seq::empty()
            };
            &&& report.state == st
            &&& report.manifest_next_offset == end
            &&& report.segments.len() == st.segments.len()
            &&& forall|i: int|
                0 <= i < st.segments.len() ==> #[trigger] report.segments[i] == scan::live_scan(
                    st,
                    st.segments[i].id,
                    d.file(st.segments[i].id),
                ).0
            &&& report.issues == torn + unknown_ids(st, ids).map_values(
                |id: SegmentId| about(id, Issue::OrphanSegmentFound),
            ) + unlisted(st.dead, ids).map_values(
                |id: SegmentId| about(id, Issue::DeadSegmentNotFound),
            ) + out_of_order(d, st, st.segments).map_values(
                |x: SegmentEntry|
                    about(x.id, scan::live_scan(st, x.id, d.file(x.id)).1->Some_0),
            )
        }),
{
    format_laws::lemma_magic(m);
    scanner_laws::law_scan_finds_all_intact_frames(m, 8);
    crate::repair_laws::lemma_replay_ends_at_frontier(state::StateView::empty(), m, 8);
    lemma_orphans(st, ids);
    lemma_missing(st.dead, ids);
    lemma_segments(d, st, st.segments);
}

/// Law: a scan finds nothing wrong exactly where everything is in order. The
/// directory and the manifest are there, the manifest begins with its magic
/// prefix and holds intact records and nothing else, which lead to a state with
/// segments, every segment file is that of a live or dead segment, every dead
/// segment has a file, and every live segment's file is in order.
#[verifier::spinoff_prover]
pub proof fn law_scan_without_issues_means_files_in_order(d: scan::DirectoryView)
    requires
        sizes_fine(d),
        d.manifest matches Ok(m) ==> m.len() <= i64::MAX,
    ensures
        ({
            let report = scan::scan_of(d);
            let st = report.state;
            report.issues.len() == 0 <==> {
                &&& d.exists
                &&& d.manifest matches Ok(m)
                &&& leads_to(m, st)
                &&& frame_laws::clean(m, 8)
                &&& d.ids matches Ok(ids)
                &&& forall|i: int|
                    0 <= i < ids.len() ==> st.is_live(#[trigger] ids[i]) || st.dead.contains(ids[i])
                &&& forall|i: int| 0 <= i < st.dead.len() ==> ids.contains(#[trigger] st.dead[i])
                &&& forall|i: int|
                    0 <= i < st.segments.len() ==> in_order(
                        st,
                        (#[trigger] st.segments[i]).id,
                        d.file(st.segments[i].id),
                    )
            }
        }),
{
    let report = scan::scan_of(d);
    let st = report.state;
    if d.exists && d.manifest is Ok {
        let m = d.manifest->Ok_0;
        format_laws::lemma_magic(m);
        if format_laws::begins_as_manifest(m) {
            scanner_laws::law_scan_finds_all_intact_frames(m, 8);
            let end = frame::frontier(m, 8);
            if !(frame::raw_frame_at(m, end) is Whole) && d.ids is Ok {
                if let Ok((s, _)) = manifest::replay_from(state::StateView::empty(), m, 8) {
                    if s.segments.len() > 0 {
                        let ids = d.ids->Ok_0;
                        law_scan_reports_all_issues_in_order(d, m, s, ids);
                        lemma_none_filtered(
                            ids,
                            |id: SegmentId| !(s.is_live(id) || s.dead.contains(id)),
                        );
                        lemma_none_filtered(s.dead, |id: SegmentId| !ids.contains(id));
                        lemma_none_filtered(
                            s.segments,
                            |x: SegmentEntry| !in_order(s, x.id, d.file(x.id)),
                        );
                    }
                }
            }
        }
    }
}

/// Nothing is left of a filter exactly where nothing passes.
proof fn lemma_none_filtered<A>(s: Seq<A>, p: spec_fn(A) -> bool)
    ensures
        s.filter(p).len() == 0 <==> forall|i: int| 0 <= i < s.len() ==> !p(#[trigger] s[i]),
    decreases s.len(),
{
    reveal(Seq::filter);
    if s.len() > 0 {
        let front = s.drop_last();
        lemma_none_filtered(front, p);
        assert(s[s.len() - 1] == s.last());
        if s.filter(p).len() == 0 {
            assert forall|i: int| 0 <= i < s.len() implies !p(#[trigger] s[i]) by {
                if i < front.len() {
                    assert(front[i] == s[i]);
                }
            }
        }
        if forall|i: int| 0 <= i < s.len() ==> !p(#[trigger] s[i]) {
            assert forall|i: int| 0 <= i < front.len() implies !p(#[trigger] front[i]) by {
                assert(front[i] == s[i]);
            }
        }
    }
}

/// Law: a scan that cannot go on reports why, and no state. The directory is
/// missing; the manifest is missing, cannot be read or does not begin as it
/// should; a frame of it is corrupt, or a record of it does not fit, and where; it
/// has no segment; or the directory cannot be listed.
pub proof fn law_scan_stops_where_it_cannot_go_on(d: scan::DirectoryView)
    requires
        d.manifest matches Ok(m) ==> m.len() <= i64::MAX,
    ensures
        ({
            let report = scan::scan_of(d);
            let only = |file: FileRef, issue: Issue| report.issues == seq![FileIssue { file, issue }];
            let stopped = report.state == state::StateView::empty() && report.segments.len() == 0
                && report.manifest_next_offset == 0;
            &&& !d.exists ==> only(FileRef::Directory, Issue::DirectoryNotFound) && stopped
            &&& d.exists ==> match d.manifest {
                Err(IoFault::NotFound) => only(FileRef::Manifest, Issue::ManifestNotFound)
                    && stopped,
                Err(_) => only(FileRef::Manifest, Issue::ManifestNotReadable) && stopped,
                Ok(m) => {
                    let end = frame::frontier(m, 8);
                    let replayed = manifest::replay_from(state::StateView::empty(), m, 8);
                    if !format_laws::begins_as_manifest(m) {
                        only(FileRef::Manifest, Issue::ManifestNotReadable) && stopped
                    } else if frame::raw_frame_at(m, end) is Whole {
                        only(
                            FileRef::Manifest,
                            Issue::ManifestChecksumCorrupt { offset: end as u64 },
                        ) && stopped
                    } else {
                        let last = report.issues.last();
                        match replayed {
                            Err(e) => {
                                &&& report.issues.len() > 0
                                &&& last.file == FileRef::Manifest
                                &&& last.issue == Issue::ManifestChecksumCorrupt {
                                    offset: match e {
                                        ReplayError::InvalidOp { offset, .. } => offset,
                                        ReplayError::ApplyFailed { offset, .. } => offset,
                                    },
                                }
                                &&& stopped
                            },
                            Ok((st, _)) => {
                                &&& st.segments.len() == 0 ==> report.issues.len() > 0 && last
                                    == (FileIssue {
                                    file: FileRef::Manifest,
                                    issue: Issue::ManifestEmpty,
                                }) && stopped
                                &&& st.segments.len() > 0 && d.ids is Err ==> report.issues.len()
                                    > 0 && last == (FileIssue {
                                    file: FileRef::Directory,
                                    issue: if d.ids == Err::<Seq<SegmentId>, _>(
                                        IoFault::NotFound,
                                    ) {
                                        Issue::DirectoryNotFound
                                    } else {
                                        Issue::DirectoryNotReadable
                                    },
                                }) && stopped
                            },
                        }
                    }
                },
            }
        }),
{
    let report = scan::scan_of(d);
    if let Ok(m) = d.manifest {
        format_laws::lemma_magic(m);
        if format_laws::begins_as_manifest(m) {
            scanner_laws::law_scan_finds_all_intact_frames(m, 8);
        }
    }
    if !d.exists {
        assert(report.issues =~= seq![
            FileIssue { file: FileRef::Directory, issue: Issue::DirectoryNotFound },
        ]);
    }
}

} // verus!
