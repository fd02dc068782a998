//! The integrity scan of a store's files.

use vstd::prelude::*;

use crate::files::{self, SEGMENT_MAGIC};
use crate::frame::{FrameScanner, ScanStatus};
use crate::index::SegmentIndex;
use crate::issue::{FileIssue, FileRef, Issue, IssueReport};
use crate::manifest::{self, ReplayError};
use crate::state::{SegmentEntry, StoreState};
use crate::{EntryId, IoFault, SegmentId};

verus! {

/// Every how many entries of a segment a checkpoint is recorded.
pub const INDEX_STRIDE: u64 = 64;

// ── The files ─────────────────────────────────────────────────────────────────

/// A segment file as found: its size, and its contents.
pub struct SegmentFile {
    pub id: SegmentId,
    pub size: Result<u64, IoFault>,
    pub contents: Result<Vec<u8>, IoFault>,
}

/// A store directory as found: whether it exists, its manifest, the ids of the
/// segment files in it, in order, and those files. A segment without a file
/// here is not found.
pub struct Directory {
    pub exists: bool,
    pub manifest: Result<Vec<u8>, IoFault>,
    pub ids: Result<Vec<SegmentId>, IoFault>,
    pub segments: Vec<SegmentFile>,
}

#[verifier::ext_equal]
pub ghost struct FileView {
    pub size: Result<u64, IoFault>,
    pub contents: Result<Seq<u8>, IoFault>,
}

/// What a [`Directory`] holds.
pub ghost struct DirectoryView {
    pub exists: bool,
    pub manifest: Result<Seq<u8>, IoFault>,
    pub ids: Result<Seq<SegmentId>, IoFault>,
    pub segments: Map<SegmentId, FileView>,
}

impl DirectoryView {
    /// A segment's file, which may be missing.
    pub open spec fn file(self, id: SegmentId) -> FileView {
        if self.segments.contains_key(id) {
            self.segments[id]
        } else {
            FileView { size: Err(IoFault::NotFound), contents: Err(IoFault::NotFound) }
        }
    }
}

/// Each segment's file: the last one listed for it.
pub open spec fn files_view(segments: Seq<SegmentFile>) -> Map<SegmentId, FileView>
    decreases segments.len(),
{
    if segments.len() == 0 {
        Map::empty()
    } else {
        files_view(segments.drop_last()).insert(
            segments.last().id,
            FileView {
                size: segments.last().size,
                contents: files::contents_view(segments.last().contents),
            },
        )
    }
}

impl View for Directory {
    type V = DirectoryView;

    open spec fn view(&self) -> DirectoryView {
        DirectoryView {
            exists: self.exists,
            manifest: files::contents_view(self.manifest),
            ids: match self.ids {
                Ok(ids) => Ok(ids@),
                Err(e) => Err(e),
            },
            segments: files_view(self.segments@),
        }
    }
}

/// No file is longer than a file can be.
pub open spec fn sizes_ok(d: DirectoryView) -> bool {
    &&& d.manifest matches Ok(data) ==> data.len() <= i64::MAX
    &&& forall|id: SegmentId|
        #![trigger d.segments[id]]
        d.segments.contains_key(id) ==> (d.segments[id].contents matches Ok(data) ==> data.len()
            <= i64::MAX)
}

// ── Report types ──────────────────────────────────────────────────────────────

/// What a scan of a segment found.
pub struct SegmentReport {
    pub id: SegmentId,
    pub num_entries: u64,
    pub write_offset: u64,
    pub last_entry_id: Option<EntryId>,
    pub index: SegmentIndex,
}

#[verifier::ext_equal]
pub ghost struct SegmentReportView {
    pub id: SegmentId,
    pub num_entries: u64,
    pub write_offset: u64,
    pub last_entry_id: Option<EntryId>,
    pub index: Seq<(EntryId, u64)>,
}

impl View for SegmentReport {
    type V = SegmentReportView;

    open spec fn view(&self) -> SegmentReportView {
        SegmentReportView {
            id: self.id,
            num_entries: self.num_entries,
            write_offset: self.write_offset,
            last_entry_id: self.last_entry_id,
            index: self.index@,
        }
    }
}

/// What a scan of a store found.
pub struct ScanReport {
    pub state: StoreState,
    pub manifest_next_offset: u64,
    pub segments: Vec<SegmentReport>,
    pub issues: IssueReport,
}

#[verifier::ext_equal]
pub ghost struct ReportView {
    pub state: crate::state::StateView,
    pub manifest_next_offset: u64,
    pub segments: Seq<SegmentReportView>,
    pub issues: Seq<FileIssue>,
}

pub open spec fn reports_view(segments: Seq<SegmentReport>) -> Seq<SegmentReportView> {
    Seq::new(segments.len(), |i: int| segments[i]@)
}

impl View for ScanReport {
    type V = ReportView;

    open spec fn view(&self) -> ReportView {
        ReportView {
            state: self.state@,
            manifest_next_offset: self.manifest_next_offset,
            segments: reports_view(self.segments@),
            issues: self.issues@,
        }
    }
}

// ── Segments ──────────────────────────────────────────────────────────────────

/// The report of a segment that could not be scanned.
pub open spec fn unscanned(id: SegmentId) -> SegmentReportView {
    SegmentReportView {
        id,
        num_entries: 0,
        write_offset: 0,
        last_entry_id: None,
        index: Seq::empty(),
    }
}

/// A sealed segment has the size it was sealed with.
pub open spec fn size_issue(expected_len: Option<u64>, size: Result<u64, IoFault>) -> Option<
    Issue,
> {
    match (expected_len, size) {
        (None, _) => None,
        (Some(_), Err(_)) => Some(Issue::SealedSegmentMissing),
        (Some(expected), Ok(actual)) => if actual != expected {
            Some(Issue::SealedSegmentSizeMismatch { expected, actual })
        } else {
            None
        },
    }
}

/// What the valid frames of a segment amount to.
pub open spec fn scanned(id: SegmentId, data: Seq<u8>) -> SegmentReportView {
    let fs = crate::frame::frames(data, files::MAGIC_LEN as int);
    SegmentReportView {
        id,
        num_entries: fs.len() as u64,
        write_offset: if crate::frame::tail_status(data, files::MAGIC_LEN as int)
            == ScanStatus::Clean {
            crate::frame::frontier(data, files::MAGIC_LEN as int) as u64
        } else {
            0
        },
        last_entry_id: if fs.len() == 0 {
            None
        } else {
            Some(EntryId(fs.last().id))
        },
        index: crate::frame::checkpoints_of(fs, INDEX_STRIDE as nat),
    }
}

/// What follows the valid frames of a segment, if anything does.
pub open spec fn tail_issue(sealed: bool, data: Seq<u8>) -> Option<Issue> {
    let end = crate::frame::frontier(data, files::MAGIC_LEN as int) as u64;
    if crate::frame::tail_status(data, files::MAGIC_LEN as int) == ScanStatus::Clean {
        None
    } else if sealed {
        Some(Issue::SealedSegmentChecksumCorrupt { corrupt_at: end })
    } else {
        Some(Issue::ActiveSegmentTornTail { truncate_to: end })
    }
}

/// The report on a segment, and what is wrong with it. Of what a seal records,
/// the size is verified; the number of frames is not.
pub open spec fn segment_scan(id: SegmentId, expected_len: Option<u64>, file: FileView) -> (
    SegmentReportView,
    Option<Issue>,
) {
    match size_issue(expected_len, file.size) {
        Some(issue) => (unscanned(id), Some(issue)),
        None => match files::opened(file.contents, SEGMENT_MAGIC) {
            Err(_) => (
                unscanned(id),
                Some(
                    if expected_len is Some {
                        Issue::SealedSegmentMissing
                    } else {
                        Issue::ActiveSegmentMissing
                    },
                ),
            ),
            Ok(data) => (scanned(id, data), tail_issue(expected_len is Some, data)),
        },
    }
}

/// How many bytes of a segment count: after a rollback those up to where the
/// record of it says that the segment ends, until the store has gone on.
pub open spec fn size_limit(state: crate::state::StateView, id: SegmentId) -> Option<u64> {
    if state.active == Some(id) && !state.seals.contains_key(id) {
        match state.cut_at {
            Some(n) if n < files::MAGIC_LEN => Some(files::MAGIC_LEN as u64),
            other => other,
        }
    } else {
        None
    }
}

/// The bytes of a file that count.
pub open spec fn within(data: Seq<u8>, limit: Option<u64>) -> Seq<u8> {
    match limit {
        Some(n) if n < data.len() => data.take(n as int),
        _ => data,
    }
}

/// A file, as far as it counts.
pub open spec fn limited(file: FileView, limit: Option<u64>) -> FileView {
    FileView {
        contents: match file.contents {
            Ok(data) => Ok(within(data, limit)),
            Err(e) => Err(e),
        },
        ..file
    }
}

/// A file that goes on behind what counts is to be cut off.
pub open spec fn excess_issue(file: FileView, limit: Option<u64>) -> Option<Issue> {
    match (file.contents, limit) {
        (Ok(data), Some(n)) if n < data.len() => Some(
            Issue::ActiveSegmentTornTail { truncate_to: n },
        ),
        _ => None,
    }
}

/// The report on a live segment, and what is wrong with it.
pub open spec fn live_scan(
    state: crate::state::StateView,
    id: SegmentId,
    file: FileView,
) -> (SegmentReportView, Option<Issue>) {
    let limit = size_limit(state, id);
    let (report, issue) = segment_scan(id, sealed_size(state, id), limited(file, limit));
    (
        report,
        match issue {
            Some(issue) => Some(issue),
            None => excess_issue(file, limit),
        },
    )
}

/// The issues once `issue`, if there is one, is reported for segment `id`.
pub open spec fn with_segment_issue(
    issues: Seq<FileIssue>,
    id: SegmentId,
    issue: Option<Issue>,
) -> Seq<FileIssue> {
    match issue {
        None => issues,
        Some(issue) => issues.push(FileIssue { file: FileRef::Segment(id), issue }),
    }
}

fn unscanned_report(id: SegmentId, issue: Issue, issues: &mut IssueReport) -> (r: SegmentReport)
    ensures
        r@ == unscanned(id),
        final(issues)@ == with_segment_issue(old(issues)@, id, Some(issue)),
{
    issues.push(FileRef::Segment(id), issue);
    let r = SegmentReport {
        id,
        num_entries: 0,
        write_offset: 0,
        last_entry_id: None,
        index: SegmentIndex::new(Vec::new()),
    };
    assert(r@ =~= unscanned(id));
    r
}

/// Scan a segment file using [`FrameScanner::scan_all`], verifying checksums and
/// recording index checkpoints every [`INDEX_STRIDE`] entries.
///
/// `expected_len = Some(n)` → sealed segment: verify file size first.
/// `expected_len = None`    → active segment: scan to write frontier.
pub fn scan_segment(
    id: SegmentId,
    expected_len: Option<u64>,
    size: Result<u64, IoFault>,
    contents: Result<Vec<u8>, IoFault>,
    issues: &mut IssueReport,
) -> (r: SegmentReport)
    requires
        contents matches Ok(data) ==> data@.len() <= i64::MAX,
    ensures
        ({
            let file = FileView { size, contents: files::contents_view(contents) };
            let (report, issue) = segment_scan(id, expected_len, file);
            &&& r@ == report
            &&& final(issues)@ == with_segment_issue(old(issues)@, id, issue)
        }),
{
    let is_sealed = expected_len.is_some();
    match expected_len {
        Some(expected) => match size {
            Err(_) => return unscanned_report(id, Issue::SealedSegmentMissing, issues),
            Ok(actual) => {
                if actual != expected {
                    return unscanned_report(
                        id,
                        Issue::SealedSegmentSizeMismatch { expected, actual },
                        issues,
                    );
                }
            },
        },
        None => {},
    }
    let (data, offset) = match files::open_segment(contents) {
        Ok(r) => r,
        Err(_) => {
            let issue = if is_sealed {
                Issue::SealedSegmentMissing
            } else {
                Issue::ActiveSegmentMissing
            };
            return unscanned_report(id, issue, issues);
        },
    };
    let ghost bytes = data@;
    let mut scanner = FrameScanner::new(data, offset);
    let summary = scanner.scan_all(INDEX_STRIDE);
    let index = SegmentIndex::new(summary.checkpoints);
    let write_offset: u64 = match summary.status {
        ScanStatus::Clean => summary.next_offset,
        _ => {
            let issue = if is_sealed {
                Issue::SealedSegmentChecksumCorrupt { corrupt_at: summary.next_offset }
            } else {
                Issue::ActiveSegmentTornTail { truncate_to: summary.next_offset }
            };
            issues.push(FileRef::Segment(id), issue);
            0
        },
    };
    let r = SegmentReport {
        id,
        num_entries: summary.count,
        write_offset,
        last_entry_id: summary.last_id,
        index,
    };
    assert(r@ =~= scanned(id, bytes));
    r
}

// ── Scan ──────────────────────────────────────────────────────────────────────

/// The segment is live or dead.
pub open spec fn is_known(state: crate::state::StateView, id: SegmentId) -> bool {
    state.is_live(id) || state.dead.contains(id)
}

/// The listed segments that the state does not know.
pub open spec fn orphan_issues(state: crate::state::StateView, ids: Seq<SegmentId>) -> Seq<
    FileIssue,
>
    decreases ids.len(),
{
    if ids.len() == 0 {
        Seq::empty()
    } else {
        let before = orphan_issues(state, ids.drop_last());
        if is_known(state, ids.last()) {
            before
        } else {
            before.push(
                FileIssue { file: FileRef::Segment(ids.last()), issue: Issue::OrphanSegmentFound },
            )
        }
    }
}

/// The dead segments that are not listed.
pub open spec fn missing_dead_issues(dead: Seq<SegmentId>, ids: Seq<SegmentId>) -> Seq<FileIssue>
    decreases dead.len(),
{
    if dead.len() == 0 {
        Seq::empty()
    } else {
        let before = missing_dead_issues(dead.drop_last(), ids);
        if ids.contains(dead.last()) {
            before
        } else {
            before.push(
                FileIssue {
                    file: FileRef::Segment(dead.last()),
                    issue: Issue::DeadSegmentNotFound,
                },
            )
        }
    }
}

/// The size a live segment was sealed with.
pub open spec fn sealed_size(state: crate::state::StateView, id: SegmentId) -> Option<u64> {
    if state.seals.contains_key(id) {
        Some(state.seals[id].final_size)
    } else {
        None
    }
}

/// The reports on `segments`, and what is wrong with them.
pub open spec fn segment_scans(
    d: DirectoryView,
    state: crate::state::StateView,
    segments: Seq<SegmentEntry>,
) -> (Seq<SegmentReportView>, Seq<FileIssue>)
    decreases segments.len(),
{
    if segments.len() == 0 {
        (Seq::empty(), Seq::empty())
    } else {
        let (reports, issues) = segment_scans(d, state, segments.drop_last());
        let id = segments.last().id;
        let (report, issue) = live_scan(state, id, d.file(id));
        (reports.push(report), with_segment_issue(issues, id, issue))
    }
}

/// A scan that got no further than `issues`.
pub open spec fn stopped(issues: Seq<FileIssue>) -> ReportView {
    ReportView {
        state: crate::state::StateView::empty(),
        manifest_next_offset: 0,
        segments: Seq::empty(),
        issues,
    }
}

pub open spec fn directory_issue(issue: Issue) -> FileIssue {
    FileIssue { file: FileRef::Directory, issue }
}

pub open spec fn manifest_issue(issue: Issue) -> FileIssue {
    FileIssue { file: FileRef::Manifest, issue }
}

/// What a scan finds once the manifest describes `state`, with `issues` so far.
pub open spec fn scan_segments_of(
    d: DirectoryView,
    state: crate::state::StateView,
    next_offset: u64,
    issues: Seq<FileIssue>,
) -> ReportView {
    match d.ids {
        Err(IoFault::NotFound) => stopped(issues.push(directory_issue(Issue::DirectoryNotFound))),
        Err(_) => stopped(issues.push(directory_issue(Issue::DirectoryNotReadable))),
        Ok(ids) => {
            let (reports, segment_issues) = segment_scans(d, state, state.segments);
            ReportView {
                state,
                manifest_next_offset: next_offset,
                segments: reports,
                issues: issues + orphan_issues(state, ids) + missing_dead_issues(state.dead, ids)
                    + segment_issues,
            }
        },
    }
}

/// What a scan finds in the contents of a manifest, and then in the segments.
pub open spec fn scan_manifest_of(d: DirectoryView, data: Seq<u8>) -> ReportView {
    let start = files::MAGIC_LEN as int;
    let status = crate::frame::tail_status(data, start);
    let end = crate::frame::frontier(data, start) as u64;
    if status == ScanStatus::ChecksumCorrupt {
        stopped(seq![manifest_issue(Issue::ManifestChecksumCorrupt { offset: end })])
    } else {
        let issues = if status == ScanStatus::TornTail {
            seq![manifest_issue(Issue::ManifestTornTail { truncate_to: end })]
        } else {
            Seq::empty()
        };
        match manifest::replay_from(crate::state::StateView::empty(), data, start) {
            Err(e) => stopped(
                issues.push(
                    manifest_issue(Issue::ManifestChecksumCorrupt { offset: error_offset(e) }),
                ),
            ),
            Ok((state, next)) => if state.segments.len() == 0 {
                stopped(issues.push(manifest_issue(Issue::ManifestEmpty)))
            } else {
                scan_segments_of(d, state, next as u64, issues)
            },
        }
    }
}

pub open spec fn error_offset(e: ReplayError) -> u64 {
    match e {
        ReplayError::InvalidOp { offset, .. } => offset,
        ReplayError::ApplyFailed { offset, .. } => offset,
    }
}

/// What a scan of a store directory finds.
pub open spec fn scan_of(d: DirectoryView) -> ReportView {
    if !d.exists {
        stopped(seq![directory_issue(Issue::DirectoryNotFound)])
    } else {
        match files::opened(d.manifest, files::MANIFEST_MAGIC) {
            Err(IoFault::NotFound) => stopped(seq![manifest_issue(Issue::ManifestNotFound)]),
            Err(_) => stopped(seq![manifest_issue(Issue::ManifestNotReadable)]),
            Ok(data) => scan_manifest_of(d, data),
        }
    }
}

fn empty_report(issues: IssueReport) -> (r: ScanReport)
    ensures
        r@ == stopped(issues@),
{
    let r = ScanReport {
        state: StoreState::empty(),
        manifest_next_offset: 0,
        segments: Vec::new(),
        issues,
    };
    assert(r@ =~= stopped(issues@));
    r
}

/// Read a segment's file.
fn read_file(segments: &Vec<SegmentFile>, id: SegmentId) -> (r: (
    Result<u64, IoFault>,
    Result<Vec<u8>, IoFault>,
))
    ensures
        ({
            let files = files_view(segments@);
            let file = FileView { size: r.0, contents: files::contents_view(r.1) };
            if files.contains_key(id) {
                file == files[id]
            } else {
                file == (FileView {
                    size: Err(IoFault::NotFound),
                    contents: Err(IoFault::NotFound),
                })
            }
        }),
{
    let ghost files = files_view(segments@);
    let mut n: usize = segments.len();
    assert(segments@.take(n as int) =~= segments@);
    while n > 0
        invariant
            n <= segments@.len(),
            files == files_view(segments@),
            files.contains_key(id) <==> files_view(segments@.take(n as int)).contains_key(id),
            files.contains_key(id) ==> files[id] == files_view(segments@.take(n as int))[id],
        decreases n,
    {
        assert(segments@.take(n as int).drop_last() =~= segments@.take(n - 1));
        let file = &segments[n - 1];
        if file.id == id {
            let contents = match &file.contents {
                Ok(data) => Ok(vstd::slice::slice_to_vec(data.as_slice())),
                Err(e) => Err(*e),
            };
            return (file.size, contents);
        }
        n = n - 1;
    }
    (Err(IoFault::NotFound), Err(IoFault::NotFound))
}

fn contains(ids: &Vec<SegmentId>, id: SegmentId) -> (b: bool)
    ensures
        b == ids@.contains(id),
{
    let mut i: usize = 0;
    while i < ids.len()
        invariant
            i <= ids@.len(),
            forall|j: int| 0 <= j < i ==> #[trigger] ids@[j] != id,
        decreases ids@.len() - i,
    {
        if ids[i] == id {
            return true;
        }
        i = i + 1;
    }
    false
}

fn is_known_segment(state: &StoreState, id: SegmentId) -> (b: bool)
    ensures
        b == is_known(state@, id),
{
    let segments = state.segments();
    let mut i: usize = 0;
    while i < segments.len()
        invariant
            i <= segments@.len(),
            segments@ == state@.segments,
            forall|j: int| 0 <= j < i ==> (#[trigger] segments@[j]).id != id,
        decreases segments@.len() - i,
    {
        if segments[i].id == id {
            assert(state@.segments[i as int].id == id);
            return true;
        }
        i = i + 1;
    }
    contains(state.dead(), id)
}

fn find_orphans(state: &StoreState, disk_ids: &Vec<SegmentId>, issues: &mut IssueReport)
    ensures
        final(issues)@ == old(issues)@ + orphan_issues(state@, disk_ids@),
{
    let ghost before = issues@;
    let mut i: usize = 0;
    assert(disk_ids@.take(0) =~= Seq::<SegmentId>::empty());
    assert(before + orphan_issues(state@, disk_ids@.take(0)) =~= before);
    while i < disk_ids.len()
        invariant
            i <= disk_ids@.len(),
            issues@ == before + orphan_issues(state@, disk_ids@.take(i as int)),
        decreases disk_ids@.len() - i,
    {
        assert(disk_ids@.take(i + 1).drop_last() =~= disk_ids@.take(i as int));
        if !is_known_segment(state, disk_ids[i]) {
            issues.push(FileRef::Segment(disk_ids[i]), Issue::OrphanSegmentFound);
        }
        i = i + 1;
        assert(issues@ =~= before + orphan_issues(state@, disk_ids@.take(i as int)));
    }
    assert(disk_ids@.take(i as int) =~= disk_ids@);
}

fn find_missing_dead(state: &StoreState, disk_ids: &Vec<SegmentId>, issues: &mut IssueReport)
    ensures
        final(issues)@ == old(issues)@ + missing_dead_issues(state@.dead, disk_ids@),
{
    let ghost before = issues@;
    let dead = state.dead();
    let mut i: usize = 0;
    assert(dead@.take(0) =~= Seq::<SegmentId>::empty());
    assert(before + missing_dead_issues(dead@.take(0), disk_ids@) =~= before);
    while i < dead.len()
        invariant
            i <= dead@.len(),
            dead@ == state@.dead,
            issues@ == before + missing_dead_issues(dead@.take(i as int), disk_ids@),
        decreases dead@.len() - i,
    {
        assert(dead@.take(i + 1).drop_last() =~= dead@.take(i as int));
        if !contains(disk_ids, dead[i]) {
            issues.push(FileRef::Segment(dead[i]), Issue::DeadSegmentNotFound);
        }
        i = i + 1;
        assert(issues@ =~= before + missing_dead_issues(dead@.take(i as int), disk_ids@));
    }
    assert(dead@.take(i as int) =~= dead@);
}

/// Scan a live segment. After a rollback that was not completed, its file goes on
/// behind where the segment ends.
fn scan_live_segment(
    state: &StoreState,
    id: SegmentId,
    size: Result<u64, IoFault>,
    contents: Result<Vec<u8>, IoFault>,
    issues: &mut IssueReport,
) -> (r: SegmentReport)
    requires
        contents matches Ok(data) ==> data@.len() <= i64::MAX,
    ensures
        ({
            let file = FileView { size, contents: files::contents_view(contents) };
            let (report, issue) = live_scan(state@, id, file);
            &&& r@ == report
            &&& final(issues)@ == with_segment_issue(old(issues)@, id, issue)
        }),
{
    let ghost file = FileView { size, contents: files::contents_view(contents) };
    let ghost limit = size_limit(state@, id);
    let expected_len = match state.seal(id) {
        Some(seal) => Some(seal.final_size),
        None => None,
    };
    let mut excess: Option<u64> = None;
    let is_active = match state.active_segment_id() {
        Some(active) => active == id && expected_len.is_none(),
        None => false,
    };
    let contents = match contents {
        Ok(data) => {
            let mut kept = data;
            if is_active {
                if let Some(cut_at) = state.cut_at() {
                    let end: u64 = if cut_at < files::MAGIC_LEN as u64 {
                        files::MAGIC_LEN as u64
                    } else {
                        cut_at
                    };
                    if end < kept.len() as u64 {
                        kept.truncate(end as usize);
                        excess = Some(end);
                    }
                }
            }
            assert(kept@ =~= within(data@, limit));
            Ok(kept)
        },
        Err(e) => Err(e),
    };
    assert(limited(file, limit) == (FileView { size, contents: files::contents_view(contents) }));
    let before: usize = issues.issues().len();
    let report = scan_segment(id, expected_len, size, contents, issues);
    if let Some(end) = excess {
        if issues.issues().len() == before {
            issues.push(
                FileRef::Segment(id),
                Issue::ActiveSegmentTornTail { truncate_to: end },
            );
        }
    }
    report
}

/// Scan every live segment, in order.
fn scan_live_segments(state: &StoreState, dir: &Directory, issues: &mut IssueReport) -> (r: Vec<
    SegmentReport,
>)
    requires
        sizes_ok(dir@),
    ensures
        reports_view(r@) == segment_scans(dir@, state@, state@.segments).0,
        final(issues)@ == old(issues)@ + segment_scans(dir@, state@, state@.segments).1,
{
    let ghost before = issues@;
    let segments = state.segments();
    let mut reports: Vec<SegmentReport> = Vec::new();
    let mut i: usize = 0;
    assert(segments@.take(0) =~= Seq::<SegmentEntry>::empty());
    assert(reports_view(reports@) =~= Seq::<SegmentReportView>::empty());
    assert(before + Seq::<FileIssue>::empty() =~= before);
    while i < segments.len()
        invariant
            i <= segments@.len(),
            segments@ == state@.segments,
            sizes_ok(dir@),
            reports_view(reports@) == segment_scans(dir@, state@, segments@.take(i as int)).0,
            issues@ == before + segment_scans(dir@, state@, segments@.take(i as int)).1,
        decreases segments@.len() - i,
    {
        let ghost reported = reports@;
        assert(segments@.take(i + 1).drop_last() =~= segments@.take(i as int));
        let id = segments[i].id;
        let (size, contents) = read_file(&dir.segments, id);
        assert(dir@.segments == files_view(dir.segments@));
        assert(dir@.file(id) == (FileView { size, contents: files::contents_view(contents) }));
        let report = scan_live_segment(state, id, size, contents, issues);
        reports.push(report);
        i = i + 1;
        assert(reports_view(reports@) =~= reports_view(reported).push(report@));
        assert(issues@ =~= before + segment_scans(dir@, state@, segments@.take(i as int)).1);
    }
    assert(segments@.take(i as int) =~= segments@);
    reports
}

/// Scan a store directory.
pub fn scan(dir: &Directory) -> (r: ScanReport)
    requires
        sizes_ok(dir@),
    ensures
        r@ == scan_of(dir@),
{
    let mut issues = IssueReport::new();

    // Phase 0: verify that the store directory exists.
    if !dir.exists {
        issues.push(FileRef::Directory, Issue::DirectoryNotFound);
        assert(issues@ =~= seq![directory_issue(Issue::DirectoryNotFound)]);
        return empty_report(issues);
    }
    // Phase 1: open and integrity-scan the manifest.

    let contents = match &dir.manifest {
        Ok(data) => Ok(vstd::slice::slice_to_vec(data.as_slice())),
        Err(e) => Err(*e),
    };
    let (data, offset) = match files::open_manifest(contents) {
        Ok(r) => r,
        Err(e) => {
            let issue = match e {
                IoFault::NotFound => Issue::ManifestNotFound,
                _ => Issue::ManifestNotReadable,
            };
            issues.push(FileRef::Manifest, issue);
            assert(issues@ =~= seq![manifest_issue(issue)]);
            return empty_report(issues);
        },
    };
    let ghost bytes = data@;
    let again = vstd::slice::slice_to_vec(data.as_slice());
    let mut scanner = FrameScanner::new(data, offset);
    let summary = scanner.scan_all(1);
    match summary.status {
        ScanStatus::TornTail => {
            issues.push(
                FileRef::Manifest,
                Issue::ManifestTornTail { truncate_to: summary.next_offset },
            );
            assert(issues@ =~= seq![
                manifest_issue(Issue::ManifestTornTail { truncate_to: summary.next_offset }),
            ]);
        },
        ScanStatus::ChecksumCorrupt => {
            issues.push(
                FileRef::Manifest,
                Issue::ManifestChecksumCorrupt { offset: summary.next_offset },
            );
            assert(issues@ =~= seq![
                manifest_issue(Issue::ManifestChecksumCorrupt { offset: summary.next_offset }),
            ]);
            return empty_report(issues);
        },
        ScanStatus::Clean => {},
    }
    let ghost so_far = issues@;

    // Phase 2: replay the records.

    let replay = match manifest::replay(again, offset) {
        Ok(r) => r,
        Err(e) => {
            let offset: u64 = match e {
                ReplayError::InvalidOp { offset, .. } => offset,
                ReplayError::ApplyFailed { offset, .. } => offset,
            };
            issues.push(FileRef::Manifest, Issue::ManifestChecksumCorrupt { offset });
            return empty_report(issues);
        },
    };
    if replay.state.is_empty() {
        issues.push(FileRef::Manifest, Issue::ManifestEmpty);
        return empty_report(issues);
    }
    // Phase 3: scan the segment files.

    let disk_ids = match &dir.ids {
        Ok(ids) => ids,
        Err(e) => {
            let issue = match *e {
                IoFault::NotFound => Issue::DirectoryNotFound,
                _ => Issue::DirectoryNotReadable,
            };
            issues.push(FileRef::Directory, issue);
            return empty_report(issues);
        },
    };
    find_orphans(&replay.state, disk_ids, &mut issues);
    find_missing_dead(&replay.state, disk_ids, &mut issues);
    let segments = scan_live_segments(&replay.state, dir, &mut issues);
    let r = ScanReport {
        state: replay.state,
        manifest_next_offset: replay.next_offset,
        segments,
        issues,
    };
    assert(r@ =~= scan_segments_of(dir@, replay.state@, replay.next_offset, so_far));
    r
}

} // verus!
