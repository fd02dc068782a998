//! The store: an append-only log in segment files, described by a manifest.
//!
//! The store decides, the caller does the input and output. An operation starts
//! with a method of [`Store`] or [`StoreWriter`], which hands out the first
//! [`Action`] with a [`Task`]. The caller performs the action and hands the task
//! back to [`Store::resume`] with what came of it, until the operation is
//! [`Finished`](Progress::Finished) or has [`Failed`](Progress::Failed).

use vstd::prelude::*;

use crate::action::{self, Action, Event};
use crate::codec;
use crate::files::{self, MAGIC_LEN, SEGMENT_MAGIC};
use crate::frame::{self, FrameCursor, FrameScanner, ScanError};
use crate::index::{self, EntryIndex};
use crate::issue::IssueReport;
use crate::manifest;
use crate::recovery::RecoveryError;
use crate::state::{self, ManifestOp, Op, SealInfo, SegmentEntry, StoreState};
use crate::state_laws;
use crate::{EntryId, IoFault, SegmentId, StoreCfg};

verus! {

// ── Store ─────────────────────────────────────────────────────────────────────

/// An append-only log store backed by a manifest and one or more segment files.
pub struct Store {
    cfg: StoreCfg,
    state: StoreState,
    index: EntryIndex,
    manifest_cursor: FrameCursor,
    active_id: SegmentId,
    active_cursor: FrameCursor,
    /// First entry id of the active segment (from the manifest).
    active_first_entry: EntryId,
    /// Number of frames written to the active segment.
    active_entry_count: u64,
    /// Id of the last frame written across all segments, or `None` if empty.
    last_entry_id: Option<EntryId>,
    next_seg_id: SegmentId,
    /// True when the active segment exceeded the rollover threshold on the last
    /// write. The actual rollover happens at the start of the next non-empty
    /// write so that the first entry of the new segment is known.
    rollover_pending: bool,
}

/// What a [`Store`] holds.
#[verifier::ext_equal]
pub ghost struct StoreView {
    pub trigger: u64,
    pub state: state::StateView,
    pub index: Seq<(SegmentId, Seq<(EntryId, u64)>)>,
    pub manifest: frame::CursorView,
    pub active_id: SegmentId,
    pub active: frame::CursorView,
    pub active_first_entry: EntryId,
    pub active_entry_count: u64,
    pub last_entry_id: Option<EntryId>,
    pub next_seg_id: SegmentId,
    pub rollover_pending: bool,
}

impl View for Store {
    type V = StoreView;

    closed spec fn view(&self) -> StoreView {
        StoreView {
            trigger: self.cfg.segment_rollover_trigger_bytes,
            state: self.state@,
            index: self.index@,
            manifest: self.manifest_cursor@,
            active_id: self.active_id,
            active: self.active_cursor@,
            active_first_entry: self.active_first_entry,
            active_entry_count: self.active_entry_count,
            last_entry_id: self.last_entry_id,
            next_seg_id: self.next_seg_id,
            rollover_pending: self.rollover_pending,
        }
    }
}

/// No two segments share an id.
pub open spec fn distinct(segments: Seq<SegmentEntry>) -> bool {
    forall|i: int, j: int|
        0 <= i < j < segments.len() ==> (#[trigger] segments[i]).id != (#[trigger] segments[j]).id
}

/// What every operation keeps: the active segment is live and not sealed, ids
/// are not shared, no segment is dead twice, and a new segment takes an id that
/// no live or dead one has.
pub open spec fn consistent(s: StoreView) -> bool {
    &&& s.state.active == Some(s.active_id)
    &&& s.state.is_live(s.active_id)
    &&& !s.state.seals.contains_key(s.active_id)
    &&& distinct(s.state.segments)
    &&& s.state.dead.no_duplicates()
    &&& forall|i: int|
        0 <= i < s.state.segments.len() ==> (#[trigger] s.state.segments[i]).id.0
            < s.next_seg_id.0
    &&& forall|i: int|
        0 <= i < s.state.dead.len() ==> (#[trigger] s.state.dead[i]).0 < s.next_seg_id.0
    &&& forall|id: SegmentId| #[trigger]
        s.state.seals.contains_key(id) ==> id.0 < s.next_seg_id.0
}

/// Files, buffers and counters are below the limits of their types: a file has
/// at most `i64::MAX` bytes.
pub open spec fn within_limits(s: StoreView) -> bool {
    &&& s.manifest.position + s.manifest.pending.len() <= i64::MAX
    &&& s.active.position + s.active.pending.len() <= i64::MAX
    &&& s.active_entry_count <= i64::MAX
    &&& s.next_seg_id.0 < u32::MAX
    &&& s.state.segments.len() + 8 <= u32::MAX
}

// ── Errors ────────────────────────────────────────────────────────────────────

/// Why an operation failed.
#[derive(Debug, Clone, Copy, PartialEq, Eq, Structural)]
pub enum StoreError {
    /// The new log head is before the current one.
    BeforeHead,
    /// The frames of a segment do not read as expected.
    Scan(ScanError),
    /// The file system failed.
    Io(IoFault),
}

impl StoreError {
    /// The error in words.
    pub fn message(&self) -> (s: String)
        ensures
            s@ == (match *self {
                StoreError::BeforeHead =>
                "truncate_start: first_entry is before the current log head"@,
                StoreError::Scan(e) => frame::scan_error_text(e),
                StoreError::Io(fault) => crate::recovery::fault_text(fault),
            }),
    {
        match self {
            StoreError::BeforeHead =>
            "truncate_start: first_entry is before the current log head".to_owned(),
            StoreError::Scan(e) => e.message(),
            StoreError::Io(fault) => fault.message(),
        }
    }
}

/// Why a store could not be opened.
#[derive(Debug)]
pub enum OpenError {
    ApprovedRecoveredRequired(IssueReport),
    RecoveryNotPossible(IssueReport),
    RecoveryFailed(RecoveryError),
}

impl OpenError {
    /// The error in words.
    pub fn message(&self) -> (s: String)
        ensures
            s@ == (match *self {
                OpenError::ApprovedRecoveredRequired(report) => "recovery requires approval: "@
                    + crate::issue::report_text(report@),
                OpenError::RecoveryNotPossible(report) => "recovery not possible: "@
                    + crate::issue::report_text(report@),
                OpenError::RecoveryFailed(e) => "recovery failed: "@
                    + crate::recovery::recovery_text(e),
            }),
    {
        match self {
            OpenError::ApprovedRecoveredRequired(report) => {
                let text = report.to_string();
                crate::issue::joined("recovery requires approval: ", text.as_str())
            },
            OpenError::RecoveryNotPossible(report) => {
                let text = report.to_string();
                crate::issue::joined("recovery not possible: ", text.as_str())
            },
            OpenError::RecoveryFailed(e) => {
                let text = e.message();
                crate::issue::joined("recovery failed: ", text.as_str())
            },
        }
    }
}

// ── Tasks ─────────────────────────────────────────────────────────────────────

/// The entries of a write.
#[derive(Debug, Clone, Copy, PartialEq, Eq, Structural)]
pub struct Batch {
    pub first: EntryId,
    pub last: EntryId,
    pub count: u64,
}

/// A rollback: the segment that becomes the active one, and what it holds before
/// and after it is cut off.
#[derive(Debug, Clone, Copy, PartialEq, Eq, Structural)]
pub struct Cut {
    pub target: SegmentId,
    /// Where the segment's last valid frame ends.
    pub full_size: u64,
    /// How many valid frames the segment holds.
    pub full_count: u64,
    /// Id of the segment's last valid frame.
    pub full_last: EntryId,
    /// The entry that is to be the last one.
    pub last_valid: EntryId,
    /// Where the frame of that entry ends.
    pub byte_offset: u64,
    /// How many valid frames are left.
    pub entry_count: u64,
}

/// What follows once a record is in the manifest.
#[derive(Debug)]
pub enum After {
    Metadata,
    TruncateStart { first_entry: EntryId },
    TruncateEnd { cut: Cut },
    Deleted { dead: Vec<SegmentId>, next: usize },
    Rolled { new_id: SegmentId, batch: Batch },
    WentOn { batch: Batch },
}

#[verifier::ext_equal]
pub ghost enum AfterView {
    Metadata,
    TruncateStart { first_entry: EntryId },
    TruncateEnd { cut: Cut },
    Deleted { dead: Seq<SegmentId>, next: int },
    Rolled { new_id: SegmentId, batch: Batch },
    WentOn { batch: Batch },
}

impl View for After {
    type V = AfterView;

    open spec fn view(&self) -> AfterView {
        match *self {
            After::Metadata => AfterView::Metadata,
            After::TruncateStart { first_entry } => AfterView::TruncateStart { first_entry },
            After::TruncateEnd { cut } => AfterView::TruncateEnd { cut },
            After::Deleted { dead, next } => AfterView::Deleted { dead: dead@, next: next as int },
            After::Rolled { new_id, batch } => AfterView::Rolled { new_id, batch },
            After::WentOn { batch } => AfterView::WentOn { batch },
        }
    }
}

/// An operation that waits for an action.
#[derive(Debug)]
pub enum Task {
    /// The target of a truncation is being read.
    ReadTarget {
        last_valid: EntryId,
        target: SegmentId,
        start_offset: u64,
        drop: Vec<SegmentId>,
    },
    /// The target of a truncation, now the active segment, is being cut off.
    CutTarget { cut: Cut },
    /// The next segment file is being created.
    CreateNext { batch: Batch },
    /// A record is being written to the manifest.
    WriteOp { op: ManifestOp, after: After },
    /// The manifest is being synced.
    SyncOp { op: ManifestOp, after: After },
    /// The file of a dead segment is being deleted.
    DeleteFile { dead: Vec<SegmentId>, next: usize },
    /// Entries are being written to the active segment.
    WriteBatch { batch: Batch },
}

#[verifier::ext_equal]
pub ghost enum TaskView {
    ReadTarget { last_valid: EntryId, target: SegmentId, start_offset: u64, drop: Seq<SegmentId> },
    CutTarget { cut: Cut },
    CreateNext { batch: Batch },
    WriteOp { op: state::ManifestOpView, after: AfterView },
    SyncOp { op: state::ManifestOpView, after: AfterView },
    DeleteFile { dead: Seq<SegmentId>, next: int },
    WriteBatch { batch: Batch },
}

impl View for Task {
    type V = TaskView;

    open spec fn view(&self) -> TaskView {
        match *self {
            Task::ReadTarget { last_valid, target, start_offset, drop } => TaskView::ReadTarget {
                last_valid,
                target,
                start_offset,
                drop: drop@,
            },
            Task::CutTarget { cut } => TaskView::CutTarget { cut },
            Task::CreateNext { batch } => TaskView::CreateNext { batch },
            Task::WriteOp { op, after } => TaskView::WriteOp { op: op@, after: after@ },
            Task::SyncOp { op, after } => TaskView::SyncOp { op: op@, after: after@ },
            Task::DeleteFile { dead, next } => TaskView::DeleteFile {
                dead: dead@,
                next: next as int,
            },
            Task::WriteBatch { batch } => TaskView::WriteBatch { batch },
        }
    }
}

/// A pending sync of the segment that was written to, or of none.
///
/// Frames have been written to the page cache but are not yet durable.
#[must_use]
#[derive(Debug, Clone, Copy, PartialEq, Eq, Structural)]
pub struct Commit(pub Option<SegmentId>);

impl Commit {
    /// The sync that makes the data durable. An empty write needs none.
    pub fn sync(self) -> (r: Option<Action>)
        ensures
            match self.0 {
                None => r is None,
                Some(id) => r matches Some(a) && a@ == action::ActionView::SyncSegment(id),
            },
    {
        match self.0 {
            None => None,
            Some(id) => Some(Action::SyncSegment(id)),
        }
    }
}

/// What a finished operation gives.
#[derive(Debug, Clone, Copy, PartialEq, Eq, Structural)]
pub enum Outcome {
    Done,
    /// Entries were written and can be made durable.
    Written(Commit),
    /// This many segment files were deleted.
    Deleted(usize),
}

/// How far an operation has come.
#[derive(Debug)]
pub enum Progress {
    /// Perform the action, then [`resume`](Store::resume) the task.
    Next(Task, Action),
    Finished(Outcome),
    Failed(StoreError),
}

#[verifier::ext_equal]
pub ghost enum ProgressView {
    Next(TaskView, action::ActionView),
    Finished(Outcome),
    Failed(StoreError),
}

impl View for Progress {
    type V = ProgressView;

    open spec fn view(&self) -> ProgressView {
        match *self {
            Progress::Next(task, action) => ProgressView::Next(task@, action@),
            Progress::Finished(outcome) => ProgressView::Finished(outcome),
            Progress::Failed(e) => ProgressView::Failed(e),
        }
    }
}

// ── What the operations do ────────────────────────────────────────────────────

/// A cursor once its bytes have reached the file.
pub open spec fn flushed(c: frame::CursorView) -> frame::CursorView {
    frame::CursorView { pending: Seq::empty(), position: (c.position + c.pending.len()) as u64 }
}

/// The frame of a record.
pub open spec fn op_frame(op: state::ManifestOpView) -> Seq<u8> {
    frame::encode_frame(0, codec::encode_op(op))
}

/// Start to write a record to the manifest.
pub open spec fn log_op(s: StoreView, op: state::ManifestOpView, after: AfterView) -> (
    StoreView,
    ProgressView,
) {
    let cursor = frame::CursorView { pending: s.manifest.pending + op_frame(op), ..s.manifest };
    (
        StoreView { manifest: cursor, ..s },
        ProgressView::Next(
            TaskView::WriteOp { op, after },
            action::ActionView::WriteManifest { offset: cursor.position, bytes: cursor.pending },
        ),
    )
}

/// The sealed segments all of whose entries come before `first`.
pub open spec fn evicted(
    segments: Seq<SegmentEntry>,
    seals: Map<SegmentId, SealInfo>,
    first: EntryId,
) -> Seq<SegmentId>
    decreases segments.len(),
{
    if segments.len() == 0 {
        Seq::empty()
    } else {
        let before = evicted(segments.drop_last(), seals, first);
        let id = segments.last().id;
        if seals.contains_key(id) && seals[id].last_entry.0 < first.0 {
            before.push(id)
        } else {
            before
        }
    }
}

/// The record of an advance of the log head.
pub open spec fn truncate_start_op(
    s: state::StateView,
    first: EntryId,
    meta: Seq<(u8, Seq<u8>)>,
) -> state::ManifestOpView {
    state::ManifestOpView {
        op: state::OpView::TruncateStart {
            first_entry: first,
            drop: evicted(s.segments, s.seals, first),
        },
        meta,
    }
}

pub open spec fn begin_truncate_start(
    s: StoreView,
    first: EntryId,
    meta: Seq<(u8, Seq<u8>)>,
) -> (StoreView, ProgressView) {
    if first.0 < s.state.first_entry.0 {
        (s, ProgressView::Failed(StoreError::BeforeHead))
    } else {
        log_op(
            s,
            truncate_start_op(s.state, first, meta),
            AfterView::TruncateStart { first_entry: first },
        )
    }
}

/// How many segments, from the first one on, start at or before `last`.
pub open spec fn starting_by(segments: Seq<SegmentEntry>, last: EntryId) -> nat
    decreases segments.len(),
{
    if segments.len() == 0 || segments[0].first_entry.0 > last.0 {
        0
    } else {
        1 + starting_by(segments.skip(1), last)
    }
}

/// The place of the segment that holds `last`: the last one that starts at or
/// before it, or the first one.
pub open spec fn target_place(segments: Seq<SegmentEntry>, last: EntryId) -> int {
    let n = starting_by(segments, last);
    if n == 0 {
        0
    } else {
        n - 1
    }
}

/// The ids of the segments after place `k`.
pub open spec fn ids_after(segments: Seq<SegmentEntry>, k: int) -> Seq<SegmentId> {
    Seq::new((segments.len() - k - 1) as nat, |i: int| segments[k + 1 + i].id)
}

pub open spec fn begin_truncate_end(s: StoreView, last: EntryId) -> (StoreView, ProgressView) {
    let is_noop = match s.last_entry_id {
        None => true,
        Some(id) => last.0 >= id.0,
    };
    if is_noop {
        (s, ProgressView::Finished(Outcome::Done))
    } else {
        let k = target_place(s.state.segments, last);
        let target = s.state.segments[k].id;
        let start_offset = match index::position_of(s.index, last.0) {
            Some(p) if p.segment == target => p.byte_offset,
            _ => MAGIC_LEN as u64,
        };
        (
            s,
            ProgressView::Next(
                TaskView::ReadTarget {
                    last_valid: last,
                    target,
                    start_offset,
                    drop: ids_after(s.state.segments, k),
                },
                action::ActionView::ReadSegment(target),
            ),
        )
    }
}

/// Go on to delete the file of `dead[next]`.
pub open spec fn delete_next(s: StoreView, dead: Seq<SegmentId>, next: int) -> (
    StoreView,
    ProgressView,
) {
    if next >= dead.len() {
        (s, ProgressView::Finished(Outcome::Deleted(next as usize)))
    } else {
        (
            s,
            ProgressView::Next(
                TaskView::DeleteFile { dead, next },
                action::ActionView::DeleteSegment(dead[next]),
            ),
        )
    }
}

/// Write the buffered entries to the active segment.
pub open spec fn write_batch(s: StoreView, batch: Batch) -> (StoreView, ProgressView) {
    (
        s,
        ProgressView::Next(
            TaskView::WriteBatch { batch },
            action::ActionView::WriteSegment {
                id: s.active_id,
                offset: s.active.position,
                bytes: s.active.pending,
            },
        ),
    )
}

/// The record that a store goes on after a rollback: entries may follow where
/// the active segment was cut off.
pub open spec fn go_on_op() -> state::ManifestOpView {
    state_laws::bare(state::OpView::Metadata)
}

/// Start a write of a batch that is not empty.
pub open spec fn begin_write(s: StoreView, batch: Batch) -> (StoreView, ProgressView) {
    if s.rollover_pending {
        (
            s,
            ProgressView::Next(
                TaskView::CreateNext { batch },
                action::ActionView::CreateSegment(s.next_seg_id),
            ),
        )
    } else if s.state.cut_at is Some {
        log_op(s, go_on_op(), AfterView::WentOn { batch })
    } else {
        write_batch(s, batch)
    }
}

/// The record of a rollover: the active segment is sealed, and the next one
/// starts with `first`.
pub open spec fn roll_op(s: StoreView, first: EntryId) -> state::ManifestOpView {
    state_laws::bare(
        state::OpView::RollSegment {
            sealed_id: s.active_id,
            seal: SealInfo {
                first_entry: s.active_first_entry,
                last_entry: match s.last_entry_id {
                    Some(id) => id,
                    None => s.active_first_entry,
                },
                entry_count: s.active_entry_count as u32,
                final_size: s.active.position,
            },
            new_id: s.next_seg_id,
            new_first_entry: first,
        },
    )
}

pub open spec fn truncate_end_op(
    target: SegmentId,
    byte_offset: u64,
    drop: Seq<SegmentId>,
) -> state::ManifestOpView {
    state_laws::bare(state::OpView::TruncateEnd { new_active_id: target, byte_offset, drop })
}

/// What follows once a record is in the manifest and applied.
pub open spec fn proceed(s: StoreView, after: AfterView) -> (StoreView, ProgressView) {
    match after {
        AfterView::Metadata => (s, ProgressView::Finished(Outcome::Done)),
        AfterView::TruncateStart { first_entry } => (
            StoreView { index: index::index_from(s.index, first_entry.0), ..s },
            ProgressView::Finished(Outcome::Done),
        ),
        AfterView::TruncateEnd { cut } => (
            StoreView {
                index: index::index_up_to(s.index, cut.full_last.0),
                active_id: cut.target,
                active: frame::CursorView { pending: Seq::empty(), position: cut.full_size },
                active_first_entry: match state::find_segment(s.state.segments, cut.target) {
                    Some(entry) => entry.first_entry,
                    None => EntryId(0),
                },
                active_entry_count: cut.full_count,
                last_entry_id: Some(cut.full_last),
                rollover_pending: false,
                ..s
            },
            ProgressView::Next(
                TaskView::CutTarget { cut },
                action::ActionView::TruncateSegment { id: cut.target, len: cut.byte_offset },
            ),
        ),
        AfterView::Deleted { dead, next } => delete_next(s, dead, next + 1),
        AfterView::WentOn { batch } => write_batch(s, batch),
        AfterView::Rolled { new_id, batch } => write_batch(
            StoreView {
                next_seg_id: SegmentId((new_id.0 + 1) as u32),
                active_id: new_id,
                active: frame::CursorView { position: MAGIC_LEN as u64, ..s.active },
                active_first_entry: batch.first,
                active_entry_count: 0,
                rollover_pending: false,
                ..s
            },
            batch,
        ),
    }
}

/// A rollback to `last`, whose frame ends at `end` in the target's `data`.
pub open spec fn cut_of(data: Seq<u8>, target: SegmentId, last: EntryId, end: int) -> Cut {
    let fs = frame::frames(data, MAGIC_LEN as int);
    Cut {
        target,
        full_size: frame::frontier(data, MAGIC_LEN as int) as u64,
        full_count: fs.len() as u64,
        full_last: if fs.len() == 0 {
            last
        } else {
            EntryId(fs.last().id)
        },
        last_valid: last,
        byte_offset: end as u64,
        entry_count: frame::frames(data.take(end), MAGIC_LEN as int).len() as u64,
    }
}

/// Look for the entry that is to be the last one, and start to record the
/// rollback to it. The file is cut off once the record is there: without the
/// record, a sealed segment has to keep the size it was sealed with.
pub open spec fn find_cut(s: StoreView, task: TaskView, contents: Seq<u8>) -> (
    StoreView,
    ProgressView,
)
    recommends
        task is ReadTarget,
{
    let (last_valid, target, start_offset, drop) = (
        task->ReadTarget_last_valid,
        task->ReadTarget_target,
        task->ReadTarget_start_offset,
        task->ReadTarget_drop,
    );
    match files::opened(Ok(contents), SEGMENT_MAGIC) {
        Err(e) => (s, ProgressView::Failed(StoreError::Io(e))),
        Ok(data) => {
            let scanner = scanner_at(data, start_offset);
            match crate::frame::end_of_id(data, scanner.cursor, last_valid.0) {
                Err(p) => (
                    s,
                    ProgressView::Failed(
                        StoreError::Scan(
                            ScanError::Truncated { offset: scanner.moved(p).position },
                        ),
                    ),
                ),
                Ok(p) => log_op(
                    s,
                    truncate_end_op(target, p as u64, drop),
                    AfterView::TruncateEnd { cut: cut_of(data, target, last_valid, p) },
                ),
            }
        },
    }
}

/// A new scanner over `data`.
pub open spec fn scanner_at(data: Seq<u8>, offset: u64) -> frame::ScannerView {
    frame::ScannerView {
        data,
        cursor: if offset <= data.len() {
            offset as int
        } else {
            data.len() as int
        },
        position: offset,
    }
}

/// One step of an operation: what the store makes of an event. An answer that
/// does not fit the action is a failure.
pub open spec fn step(
    s: StoreView,
    task: TaskView,
    event: action::EventView,
) -> (StoreView, ProgressView) {
    match (event, task) {
        (action::EventView::Failed(e), _) => (s, ProgressView::Failed(StoreError::Io(e))),
        (action::EventView::Contents(data), TaskView::ReadTarget { .. }) => find_cut(s, task, data),
        (action::EventView::Contents(_), _) => (
            s,
            ProgressView::Failed(StoreError::Io(IoFault::Other)),
        ),
        (action::EventView::Done, TaskView::ReadTarget { .. }) => (
            s,
            ProgressView::Failed(StoreError::Io(IoFault::Other)),
        ),
        (action::EventView::Done, TaskView::CutTarget { cut }) => (
            StoreView {
                index: index::index_up_to(s.index, cut.last_valid.0),
                active: frame::CursorView { pending: Seq::empty(), position: cut.byte_offset },
                active_entry_count: cut.entry_count,
                last_entry_id: Some(cut.last_valid),
                ..s
            },
            ProgressView::Finished(Outcome::Done),
        ),
        (action::EventView::Done, TaskView::CreateNext { batch }) => log_op(
            s,
            roll_op(s, batch.first),
            AfterView::Rolled { new_id: s.next_seg_id, batch },
        ),
        (action::EventView::Done, TaskView::WriteOp { op, after }) => (
            StoreView { manifest: flushed(s.manifest), ..s },
            ProgressView::Next(TaskView::SyncOp { op, after }, action::ActionView::SyncManifest),
        ),
        (action::EventView::Done, TaskView::SyncOp { op, after }) => proceed(
            StoreView { state: state::apply_op(s.state, op)->Ok_0, ..s },
            after,
        ),
        (action::EventView::Done, TaskView::DeleteFile { dead, next }) => log_op(
            s,
            state_laws::bare(state::OpView::SegmentDeleted { id: dead[next] }),
            AfterView::Deleted { dead, next },
        ),
        (action::EventView::Done, TaskView::WriteBatch { batch }) => {
            let active = flushed(s.active);
            (
                StoreView {
                    active,
                    last_entry_id: Some(batch.last),
                    active_entry_count: (s.active_entry_count + batch.count) as u64,
                    rollover_pending: s.rollover_pending || active.position > s.trigger,
                    ..s
                },
                ProgressView::Finished(Outcome::Written(Commit(Some(s.active_id)))),
            )
        },
    }
}

// ── Which tasks fit a store ───────────────────────────────────────────────────

/// The record of a deletion of `dead[next]`, while it and those after it are
/// dead.
pub open spec fn deletable(s: state::StateView, dead: Seq<SegmentId>, next: int) -> bool {
    &&& 0 <= next <= dead.len()
    &&& dead.no_duplicates()
    &&& forall|i: int| next <= i < dead.len() ==> s.dead.contains(#[trigger] dead[i])
}

/// The record that `after` follows fits the store.
pub open spec fn record_fits(s: StoreView, op: state::ManifestOpView, after: AfterView) -> bool {
    &&& state::apply_op(s.state, op) is Ok
    &&& match after {
        AfterView::Metadata => op.op is Metadata,
        AfterView::TruncateStart { first_entry } => op.op == truncate_start_op(
            s.state,
            first_entry,
            op.meta,
        ).op,
        AfterView::TruncateEnd { cut } => exists|drop: Seq<SegmentId>|
            op == #[trigger] truncate_end_op(cut.target, cut.byte_offset, drop) && !drop.contains(
                cut.target,
            ),
        AfterView::Deleted { dead, next } => {
            &&& deletable(s.state, dead, next)
            &&& next < dead.len()
            &&& dead.len() <= usize::MAX
            &&& op == state_laws::bare(state::OpView::SegmentDeleted { id: dead[next] })
        },
        AfterView::Rolled { new_id, batch } => {
            &&& op == roll_op(s, batch.first)
            &&& new_id == s.next_seg_id
            &&& batch.count <= i64::MAX
        },
        AfterView::WentOn { batch } => {
            &&& op == go_on_op()
            &&& batch.count <= i64::MAX
        },
    }
}

/// The task is one that the store can resume.
pub open spec fn task_fits(s: StoreView, task: TaskView) -> bool {
    match task {
        TaskView::ReadTarget { target, drop, .. } => {
            &&& s.state.is_live(target)
            &&& state::first_missing(s.state, drop) is None
            &&& !drop.contains(target)
            &&& drop.len() + 4 <= u32::MAX
        },
        TaskView::CutTarget { .. } => true,
        TaskView::CreateNext { batch } => batch.count <= i64::MAX,
        TaskView::WriteOp { op, after } => record_fits(s, op, after),
        TaskView::SyncOp { op, after } => record_fits(s, op, after),
        TaskView::DeleteFile { dead, next } => deletable(s.state, dead, next) && next < dead.len()
            && dead.len() <= usize::MAX,
        TaskView::WriteBatch { batch } => batch.count <= i64::MAX,
    }
}

/// An operation that is not done can be resumed.
pub open spec fn progress_fits(s: StoreView, p: ProgressView) -> bool {
    p matches ProgressView::Next(task, _) ==> task_fits(s, task)
}

// ── Every operation keeps the store consistent ────────────────────────────────

proof fn lemma_without_segment_distinct(segments: Seq<SegmentEntry>, id: SegmentId)
    requires
        distinct(segments),
    ensures
        distinct(state::without_segment(segments, id)),
    decreases segments.len(),
{
    if segments.len() > 0 {
        let front = segments.drop_last();
        let before = state::without_segment(front, id);
        lemma_without_segment_distinct(front, id);
        state_laws::lemma_without_segment(front, id);
        assert forall|i: int| 0 <= i < before.len() implies (#[trigger] before[i]).id
            != segments.last().id by {
            assert(before.contains(before[i]));
            assert(front.contains(before[i]));
            let j = choose|j: int| 0 <= j < front.len() && front[j] == before[i];
            assert(segments[j] == front[j]);
            assert(segments[segments.len() - 1] == segments.last());
        }
    }
}

pub proof fn lemma_kill_all_distinct(s: state::StateView, ids: Seq<SegmentId>)
    requires
        distinct(s.segments),
    ensures
        distinct(state::kill_all(s, ids).segments),
    decreases ids.len(),
{
    if ids.len() > 0 {
        lemma_kill_all_distinct(s, ids.drop_last());
        lemma_without_segment_distinct(state::kill_all(s, ids.drop_last()).segments, ids.last());
    }
}

/// Only sealed live segments are evicted.
pub proof fn lemma_evicted(
    segments: Seq<SegmentEntry>,
    seals: Map<SegmentId, SealInfo>,
    first: EntryId,
)
    ensures
        forall|id: SegmentId| #[trigger]
            evicted(segments, seals, first).contains(id) <==> seals.contains_key(id)
                && seals[id].last_entry.0 < first.0 && exists|i: int|
                0 <= i < segments.len() && (#[trigger] segments[i]).id == id,
        evicted(segments, seals, first).len() <= segments.len(),
    decreases segments.len(),
{
    if segments.len() > 0 {
        let front = segments.drop_last();
        lemma_evicted(front, seals, first);
        let before = evicted(front, seals, first);
        let after = evicted(segments, seals, first);
        let last = segments.last().id;
        assert forall|id: SegmentId| #[trigger] after.contains(id) <==> seals.contains_key(id)
            && seals[id].last_entry.0 < first.0 && exists|i: int|
            0 <= i < segments.len() && (#[trigger] segments[i]).id == id by {
            if after.contains(id) {
                let k = choose|k: int| 0 <= k < after.len() && after[k] == id;
                if k < before.len() {
                    assert(before[k] == id);
                    assert(before.contains(id));
                    let i = choose|i: int| 0 <= i < front.len() && (#[trigger] front[i]).id == id;
                    assert(segments[i].id == id);
                } else {
                    assert(segments[segments.len() - 1].id == id);
                }
            }
            if seals.contains_key(id) && seals[id].last_entry.0 < first.0 && exists|i: int|
                0 <= i < segments.len() && (#[trigger] segments[i]).id == id {
                let i = choose|i: int| 0 <= i < segments.len() && (#[trigger] segments[i]).id == id;
                if i < front.len() {
                    assert(front[i].id == id);
                    assert(before.contains(id));
                    let k = choose|k: int| 0 <= k < before.len() && before[k] == id;
                    assert(after[k] == id);
                } else {
                    assert(after[before.len() as int] == id);
                }
            }
        }
    }
}

/// Segments that are dropped were live, and a segment that is not dropped stays
/// live.
proof fn lemma_kill_all_keeps(s: StoreView, ids: Seq<SegmentId>, keep: SegmentId)
    requires
        consistent(s),
        s.state.is_live(keep),
        !ids.contains(keep),
        forall|id: SegmentId| ids.contains(id) ==> #[trigger] s.state.is_live(id),
    ensures
        ({
            let t = state::kill_all(s.state, ids);
            &&& t.is_live(keep)
            &&& distinct(t.segments)
            &&& t.dead.no_duplicates()
            &&& forall|i: int|
                0 <= i < t.segments.len() ==> (#[trigger] t.segments[i]).id.0 < s.next_seg_id.0
            &&& forall|i: int|
                0 <= i < t.dead.len() ==> (#[trigger] t.dead[i]).0 < s.next_seg_id.0
            &&& forall|id: SegmentId| #[trigger]
                t.seals.contains_key(id) ==> id.0 < s.next_seg_id.0 && s.state.seals.contains_key(id)
            &&& t.segments.len() <= s.state.segments.len()
        }),
{
    let t = state::kill_all(s.state, ids);
    state_laws::lemma_kill_all(s.state, ids);
    lemma_kill_all_distinct(s.state, ids);
    lemma_kill_all_shrinks(s.state, ids);
    let k = choose|k: int|
        0 <= k < s.state.segments.len() && (#[trigger] s.state.segments[k]).id == keep;
    assert(s.state.segments.contains(s.state.segments[k]));
    assert(t.segments.contains(s.state.segments[k]));
    assert(t.is_live(keep));
    assert forall|i: int| 0 <= i < t.segments.len() implies (#[trigger] t.segments[i]).id.0
        < s.next_seg_id.0 by {
        assert(t.segments.contains(t.segments[i]));
        assert(s.state.segments.contains(t.segments[i]));
    }
    assert forall|i: int| 0 <= i < t.dead.len() implies (#[trigger] t.dead[i]).0
        < s.next_seg_id.0 by {
        assert(t.dead.contains(t.dead[i]));
        if ids.contains(t.dead[i]) {
            assert(s.state.is_live(t.dead[i]));
        }
    }
}

proof fn lemma_without_segment_shrinks(segments: Seq<SegmentEntry>, id: SegmentId)
    ensures
        state::without_segment(segments, id).len() <= segments.len(),
    decreases segments.len(),
{
    if segments.len() > 0 {
        lemma_without_segment_shrinks(segments.drop_last(), id);
    }
}

proof fn lemma_kill_all_shrinks(s: state::StateView, ids: Seq<SegmentId>)
    ensures
        state::kill_all(s, ids).segments.len() <= s.segments.len(),
    decreases ids.len(),
{
    if ids.len() > 0 {
        lemma_kill_all_shrinks(s, ids.drop_last());
        lemma_without_segment_shrinks(state::kill_all(s, ids.drop_last()).segments, ids.last());
    }
}

/// All of `ids` are live where none is missing.
pub proof fn lemma_none_missing(s: state::StateView, ids: Seq<SegmentId>)
    ensures
        state::first_missing(s, ids) is None <==> forall|id: SegmentId|
            ids.contains(id) ==> #[trigger] s.is_live(id),
    decreases ids.len(),
{
    if ids.len() > 0 {
        let rest = ids.skip(1);
        lemma_none_missing(s, rest);
        assert forall|id: SegmentId| ids.contains(id) <==> id == ids[0] || rest.contains(id) by {
            if ids.contains(id) {
                let i = choose|i: int| 0 <= i < ids.len() && ids[i] == id;
                if i > 0 {
                    assert(rest[i - 1] == id);
                }
            }
            if rest.contains(id) {
                let i = choose|i: int| 0 <= i < rest.len() && rest[i] == id;
                assert(ids[i + 1] == id);
            }
            assert(ids.contains(ids[0]));
        }
    }
}

/// A record that fits leaves the store consistent once it is applied, and
/// whatever follows can be resumed.
proof fn lemma_record_keeps_consistent(s: StoreView, op: state::ManifestOpView, after: AfterView)
    requires
        consistent(s),
        within_limits(s),
        record_fits(s, op, after),
    ensures
        ({
            let (t, p) = proceed(
                StoreView { state: state::apply_op(s.state, op)->Ok_0, ..s },
                after,
            );
            consistent(t) && progress_fits(t, p)
        }),
{
    let applied = StoreView { state: state::apply_op(s.state, op)->Ok_0, ..s };
    let (t, p) = proceed(applied, after);
    match after {
        AfterView::Metadata => {
            assert(t.state.segments == s.state.segments);
            assert(t.state.is_live(t.active_id));
        },
        AfterView::WentOn { .. } => {
            assert(t.state.segments == s.state.segments);
            assert(t.state.is_live(t.active_id));
        },
        AfterView::TruncateStart { first_entry } => {
            let drop = evicted(s.state.segments, s.state.seals, first_entry);
            lemma_evicted(s.state.segments, s.state.seals, first_entry);
            assert forall|id: SegmentId| drop.contains(id) implies #[trigger] s.state.is_live(id) by {
            }
            lemma_kill_all_keeps(s, drop, s.active_id);
            assert(t.state.segments == state::kill_all(s.state, drop).segments);
            let k = choose|k: int|
                0 <= k < t.state.segments.len() && (#[trigger] t.state.segments[k]).id
                    == s.active_id;
            assert(t.state.segments[k].id == s.active_id);
            state_laws::lemma_kill_all(s.state, drop);
        },
        AfterView::TruncateEnd { cut } => {
            let target = cut.target;
            let drop = choose|drop: Seq<SegmentId>|
                op == #[trigger] truncate_end_op(target, cut.byte_offset, drop) && !drop.contains(
                    target,
                );
            lemma_none_missing(s.state, drop);
            lemma_kill_all_keeps(s, drop, target);
            assert(t.state.segments == state::kill_all(s.state, drop).segments);
            let k = choose|k: int|
                0 <= k < t.state.segments.len() && (#[trigger] t.state.segments[k]).id == target;
            assert(t.state.segments[k].id == target);
        },
        AfterView::Deleted { dead, next } => {
            state_laws::lemma_without_id(s.state.dead, dead[next]);
            let k = choose|k: int|
                0 <= k < s.state.segments.len() && (#[trigger] s.state.segments[k]).id
                    == s.active_id;
            assert(t.state.segments[k].id == s.active_id);
            assert forall|i: int| 0 <= i < t.state.dead.len() implies (#[trigger] t.state.dead[i]).0
                < t.next_seg_id.0 by {
                assert(t.state.dead.contains(t.state.dead[i]));
                assert(s.state.dead.contains(t.state.dead[i]));
            }
            assert forall|i: int| next + 1 <= i < dead.len() implies t.state.dead.contains(
                #[trigger] dead[i],
            ) by {
                assert(s.state.dead.contains(dead[i]));
                assert(dead[i] != dead[next]);
            }
        },
        AfterView::Rolled { new_id, batch } => {
            let n = s.state.segments.len();
            assert(t.state.segments[n as int].id == new_id);
            assert forall|i: int| 0 <= i < t.state.segments.len() implies (
            #[trigger] t.state.segments[i]).id.0 < t.next_seg_id.0 by {
                if i < n {
                    assert(t.state.segments[i] == s.state.segments[i]);
                }
            }
        },
    }
}

// ── Accessors ─────────────────────────────────────────────────────────────────

impl Store {
    /// A store as it is right after it was opened.
    pub(crate) fn from_parts(
        cfg: StoreCfg,
        state: StoreState,
        index: EntryIndex,
        manifest_offset: u64,
        active: SegmentEntry,
        active_offset: u64,
        active_entry_count: u64,
        last_entry_id: Option<EntryId>,
        next_seg_id: SegmentId,
    ) -> (s: Self)
        ensures
            s@ == (StoreView {
                trigger: cfg.segment_rollover_trigger_bytes,
                state: state@,
                index: index@,
                manifest: frame::CursorView { pending: Seq::empty(), position: manifest_offset },
                active_id: active.id,
                active: frame::CursorView { pending: Seq::empty(), position: active_offset },
                active_first_entry: active.first_entry,
                active_entry_count,
                last_entry_id,
                next_seg_id,
                rollover_pending: false,
            }),
    {
        Store {
            cfg,
            state,
            index,
            manifest_cursor: FrameCursor::new(manifest_offset),
            active_id: active.id,
            active_cursor: FrameCursor::new(active_offset),
            active_first_entry: active.first_entry,
            active_entry_count,
            last_entry_id,
            next_seg_id,
            rollover_pending: false,
        }
    }

    /// Where to start reading to reach `target`, as far as the index knows.
    pub(crate) fn index_find(&self, target: EntryId) -> (r: Option<crate::index::IndexPosition>)
        ensures
            r == index::position_of(self@.index, target.0),
    {
        self.index.find(target)
    }

    /// Id of the oldest accessible entry.
    pub fn first_entry_id(&self) -> (id: u64)
        ensures
            id == self@.state.first_entry.0,
    {
        self.state.first_entry().0
    }

    /// Id of the last written entry, or `None` if the store is empty.
    pub fn last_entry_id(&self) -> (r: Option<u64>)
        ensures
            r == match self@.last_entry_id {
                Some(id) => Some(id.0),
                None => None,
            },
    {
        match self.last_entry_id {
            Some(id) => Some(id.0),
            None => None,
        }
    }

    /// Current metadata key-value pairs.
    pub fn metadata(&self) -> (r: &[(u8, Vec<u8>)])
        ensures
            state::meta_view(r@) == self@.state.meta,
    {
        self.state.metadata()
    }

    /// What the manifest describes.
    pub fn state(&self) -> (r: &StoreState)
        ensures
            r@ == self@.state,
    {
        &self.state
    }

    /// The segment that is written to.
    pub fn active_id(&self) -> (id: SegmentId)
        ensures
            id == self@.active_id,
    {
        self.active_id
    }

    /// Where in the active segment the next write goes.
    pub fn write_position(&self) -> (p: u64)
        ensures
            p == self@.active.position,
    {
        self.active_cursor.position()
    }

    /// The next write that is not empty starts a new segment.
    pub fn rollover_pending(&self) -> (b: bool)
        ensures
            b == self@.rollover_pending,
    {
        self.rollover_pending
    }

    /// Every operation needs this, and keeps it.
    pub fn is_consistent(&self) -> (b: bool)
        ensures
            b == consistent(self@),
    {
        let segments = self.state.segments();
        let dead = self.state.dead();
        match self.state.active_segment_id() {
            Some(id) => {
                if id != self.active_id {
                    return false;
                }
            },
            None => return false,
        }
        let mut live = false;
        let mut i: usize = 0;
        while i < segments.len()
            invariant
                i <= segments@.len(),
                segments@ == self@.state.segments,
                live <==> exists|j: int|
                    0 <= j < i && (#[trigger] segments@[j]).id == self@.active_id,
                forall|j: int| 0 <= j < i ==> (#[trigger] segments@[j]).id.0 < self@.next_seg_id.0,
                forall|j: int, k: int|
                    0 <= j < k < i ==> (#[trigger] segments@[j]).id != (
                    #[trigger] segments@[k]).id,
            decreases segments@.len() - i,
        {
            if segments[i].id.0 >= self.next_seg_id.0 {
                assert(self@.state.segments[i as int].id.0 >= self@.next_seg_id.0);
                return false;
            }
            let mut j: usize = 0;
            while j < i
                invariant
                    j <= i < segments@.len(),
                    segments@ == self@.state.segments,
                    forall|k: int| 0 <= k < j ==> (
                        #[trigger] segments@[k]
                    ).id != segments@[i as int].id,
                decreases i - j,
            {
                if segments[j].id == segments[i].id {
                    assert(self@.state.segments[j as int].id == self@.state.segments[i as int].id);
                    return false;
                }
                j = j + 1;
            }
            if segments[i].id == self.active_id {
                live = true;
            }
            i = i + 1;
        }
        if !live || self.state.seal(self.active_id).is_some() {
            return false;
        }
        let mut i: usize = 0;
        while i < dead.len()
            invariant
                i <= dead@.len(),
                dead@ == self@.state.dead,
                forall|j: int| 0 <= j < i ==> (#[trigger] dead@[j]).0 < self@.next_seg_id.0,
                forall|j: int, k: int| 0 <= j < k < i ==> #[trigger] dead@[j] != #[trigger] dead@[k],
            decreases dead@.len() - i,
        {
            if dead[i].0 >= self.next_seg_id.0 {
                assert(self@.state.dead[i as int].0 >= self@.next_seg_id.0);
                return false;
            }
            let mut j: usize = 0;
            while j < i
                invariant
                    j <= i < dead@.len(),
                    dead@ == self@.state.dead,
                    forall|k: int| 0 <= k < j ==> #[trigger] dead@[k] != dead@[i as int],
                decreases i - j,
            {
                if dead[j] == dead[i] {
                    assert(self@.state.dead[j as int] == self@.state.dead[i as int]);
                    return false;
                }
                j = j + 1;
            }
            i = i + 1;
        }
        self.state.seals_below(self.next_seg_id.0)
    }

    /// No file, buffer or counter is near the limit of its type.
    pub fn is_within_limits(&self) -> (b: bool)
        ensures
            b == within_limits(self@),
    {
        let limit: u64 = 0x7fff_ffff_ffff_ffff;
        let manifest_pending: u64 = self.manifest_cursor.pending().len() as u64;
        let active_pending: u64 = self.active_cursor.pending().len() as u64;
        let manifest_position: u64 = self.manifest_cursor.position();
        let active_position: u64 = self.active_cursor.position();
        manifest_pending <= limit && manifest_position <= limit - manifest_pending
            && active_pending <= limit && active_position <= limit - active_pending
            && self.active_entry_count <= limit && self.next_seg_id.0 < u32::MAX
            && self.state.segments().len() as u64 <= 0xffff_fff7
    }
}

// ── Operations ────────────────────────────────────────────────────────────────

/// A frame that is found ends within the file, behind its header.
proof fn lemma_end_of_id_bound(data: Seq<u8>, pos: int, target: u64)
    requires
        0 <= pos,
    ensures
        frame::end_of_id(data, pos, target) matches Ok(p) ==> pos + frame::HEADER_LEN <= p
            <= data.len(),
    decreases data.len() - pos,
{
    match frame::raw_frame_at(data, pos) {
        frame::RawFrame::Whole(f) => {
            if f.id != target {
                lemma_end_of_id_bound(data, f.end(), target);
            }
        },
        _ => {},
    }
}

/// A record without metadata, of at most 8 fields beside a drop list, can be
/// encoded.
proof fn lemma_bare_encodable(op: state::OpView)
    requires
        op matches state::OpView::TruncateStart { drop, .. } ==> drop.len() + 4 <= u32::MAX,
        op matches state::OpView::TruncateEnd { drop, .. } ==> drop.len() + 4 <= u32::MAX,
    ensures
        codec::encodable(state_laws::bare(op)),
{
}

impl Store {
    /// Buffer a record for the manifest and ask for it to be written.
    fn log(&mut self, op: ManifestOp, after: After) -> (r: Progress)
        requires
            codec::encodable(op@),
        ensures
            (final(self)@, r@) == log_op(old(self)@, op@, after@),
    {
        manifest::write_op(&mut self.manifest_cursor, &op);
        let bytes = vstd::slice::slice_to_vec(self.manifest_cursor.pending());
        let offset: u64 = self.manifest_cursor.position();
        Progress::Next(Task::WriteOp { op, after }, Action::WriteManifest { offset, bytes })
    }

    /// Write metadata pairs to the manifest.
    pub fn write_metadata(&mut self, pairs: Vec<(u8, Vec<u8>)>) -> (r: Progress)
        requires
            consistent(old(self)@),
            codec::encodable(
                state::ManifestOpView { op: state::OpView::Metadata, meta: state::meta_view(pairs@) },
            ),
        ensures
            (final(self)@, r@) == log_op(
                old(self)@,
                state::ManifestOpView { op: state::OpView::Metadata, meta: state::meta_view(pairs@) },
                AfterView::Metadata,
            ),
            consistent(final(self)@),
            progress_fits(final(self)@, r@),
    {
        let op = ManifestOp::with_meta(Op::Metadata, pairs);
        self.log(op, After::Metadata)
    }

    /// Advance the log head to `first_entry`, atomically writing `meta` pairs.
    ///
    /// Entries before it are no longer accessible, and sealed segments that
    /// fall entirely before it become eligible for deletion via
    /// [`delete_dead_segments`](Self::delete_dead_segments).
    pub fn truncate_start(&mut self, first_entry: u64, meta: Vec<(u8, Vec<u8>)>) -> (r: Progress)
        requires
            consistent(old(self)@),
            codec::encodable(
                truncate_start_op(old(self)@.state, EntryId(first_entry), state::meta_view(meta@)),
            ),
        ensures
            (final(self)@, r@) == begin_truncate_start(
                old(self)@,
                EntryId(first_entry),
                state::meta_view(meta@),
            ),
            consistent(final(self)@),
            progress_fits(final(self)@, r@),
    {
        let first_entry = EntryId(first_entry);
        if first_entry.0 < self.state.first_entry().0 {
            return Progress::Failed(StoreError::BeforeHead);
        }
        let segments = self.state.segments();
        let mut to_evict: Vec<SegmentId> = Vec::new();
        let mut i: usize = 0;
        assert(segments@.take(0) =~= Seq::<SegmentEntry>::empty());
        while i < segments.len()
            invariant
                i <= segments@.len(),
                segments@ == self.state@.segments,
                to_evict@ == evicted(segments@.take(i as int), self.state@.seals, first_entry),
            decreases segments@.len() - i,
        {
            assert(segments@.take(i + 1).drop_last() =~= segments@.take(i as int));
            match self.state.seal(segments[i].id) {
                Some(seal) => {
                    if seal.last_entry.0 < first_entry.0 {
                        to_evict.push(segments[i].id);
                    }
                },
                None => {},
            }
            i = i + 1;
        }
        assert(segments@.take(i as int) =~= segments@);
        let op = ManifestOp::with_meta(Op::TruncateStart { first_entry, drop: to_evict }, meta);
        self.log(op, After::TruncateStart { first_entry })
    }

    /// Roll back the log tail so that `last_valid` is the last entry. The
    /// rollback is recorded before the segment is cut off: if it breaks off in
    /// between, the store is opened with the rollback completed.
    pub fn truncate_end(&mut self, last_valid: u64) -> (r: Progress)
        requires
            consistent(old(self)@),
            within_limits(old(self)@),
        ensures
            (final(self)@, r@) == begin_truncate_end(old(self)@, EntryId(last_valid)),
            consistent(final(self)@),
            progress_fits(final(self)@, r@),
    {
        let last_valid = EntryId(last_valid);
        // No-op if last_valid is at or beyond the current last entry.
        match self.last_entry_id {
            None => return Progress::Finished(Outcome::Done),
            Some(last) => {
                if last_valid.0 >= last.0 {
                    return Progress::Finished(Outcome::Done);
                }
            },
        }
        // Find the segment that contains last_valid.
        let segs = self.state.segments();
        let ghost all = segs@;
        let mut p: usize = 0;
        assert(all.skip(0) =~= all);
        while p < segs.len() && segs[p].first_entry.0 <= last_valid.0
            invariant
                p <= segs@.len(),
                all == segs@,
                starting_by(all, last_valid) == p + starting_by(all.skip(p as int), last_valid),
            decreases segs@.len() - p,
        {
            assert(all.skip(p as int).skip(1) =~= all.skip(p + 1));
            p = p + 1;
        }
        let k: usize = if p == 0 {
            0
        } else {
            p - 1
        };
        proof {
            assert(k == target_place(all, last_valid));
            assert(all.len() > 0) by {
                assert(self@.state.is_live(self@.active_id));
            }
        }
        let target = segs[k].id;
        let mut drop: Vec<SegmentId> = Vec::new();
        let mut i: usize = k + 1;
        while i < segs.len()
            invariant
                k < i <= segs@.len(),
                all == segs@,
                drop@ == ids_after(all, k as int).take(i - k - 1),
            decreases segs@.len() - i,
        {
            drop.push(segs[i].id);
            i = i + 1;
            assert(drop@ =~= ids_after(all, k as int).take(i - k - 1));
        }
        assert(drop@ =~= ids_after(all, k as int));
        // Walk from the nearest checkpoint to find the byte offset after last_valid.
        let start_offset: u64 = match self.index.find(last_valid) {
            Some(pos) => {
                if pos.segment == target {
                    pos.byte_offset
                } else {
                    MAGIC_LEN as u64
                }
            },
            None => MAGIC_LEN as u64,
        };
        proof {
            assert(self@.state.segments[k as int].id == target);
            lemma_none_missing(self@.state, drop@);
            assert forall|id: SegmentId| drop@.contains(id) implies #[trigger] self@.state.is_live(
                id,
            ) by {
                let j = choose|j: int| 0 <= j < drop@.len() && drop@[j] == id;
                assert(self@.state.segments[k + 1 + j].id == id);
            }
            assert(!drop@.contains(target)) by {
                if drop@.contains(target) {
                    let j = choose|j: int| 0 <= j < drop@.len() && drop@[j] == target;
                    assert(self@.state.segments[k + 1 + j].id == target);
                }
            }
        }
        Progress::Next(
            Task::ReadTarget { last_valid, target, start_offset, drop },
            Action::ReadSegment(target),
        )
    }

    /// Delete all dead segment files from disk and record each deletion in the
    /// manifest.
    ///
    /// Segments become dead after [`truncate_start`](Self::truncate_start) or
    /// [`truncate_end`](Self::truncate_end) removes all live entries they
    /// contained. Files are never deleted otherwise.
    pub fn delete_dead_segments(&mut self) -> (r: Progress)
        requires
            consistent(old(self)@),
        ensures
            (final(self)@, r@) == delete_next(old(self)@, old(self)@.state.dead, 0),
            consistent(final(self)@),
            progress_fits(final(self)@, r@),
    {
        let dead = self.state.dead();
        let mut ids: Vec<SegmentId> = Vec::new();
        let mut i: usize = 0;
        while i < dead.len()
            invariant
                i <= dead@.len(),
                ids@ == dead@.take(i as int),
            decreases dead@.len() - i,
        {
            ids.push(dead[i]);
            i = i + 1;
            assert(ids@ =~= dead@.take(i as int));
        }
        assert(ids@ =~= dead@);
        Self::delete_from(ids, 0)
    }

    fn delete_from(dead: Vec<SegmentId>, next: usize) -> (r: Progress)
        ensures
            forall|s: StoreView| (s, r@) == #[trigger] delete_next(s, dead@, next as int),
            r matches Progress::Next(task, _) ==> next < dead@.len() && dead@.len() <= usize::MAX
                && task@ == (TaskView::DeleteFile { dead: dead@, next: next as int }),
    {
        if next >= dead.len() {
            Progress::Finished(Outcome::Deleted(next))
        } else {
            let id = dead[next];
            Progress::Next(Task::DeleteFile { dead, next }, Action::DeleteSegment(id))
        }
    }

    fn write_buffered(&self, batch: Batch) -> (r: Progress)
        ensures
            (self@, r@) == write_batch(self@, batch),
    {
        let bytes = vstd::slice::slice_to_vec(self.active_cursor.pending());
        Progress::Next(
            Task::WriteBatch { batch },
            Action::WriteSegment {
                id: self.active_id,
                offset: self.active_cursor.position(),
                bytes,
            },
        )
    }

    /// Seal the active segment: the next one starts with the batch.
    fn do_rollover(&mut self, batch: Batch) -> (r: Progress)
        requires
            consistent(old(self)@),
            batch.count <= i64::MAX,
        ensures
            (final(self)@, r@) == step(
                old(self)@,
                TaskView::CreateNext { batch },
                action::EventView::Done,
            ),
            consistent(final(self)@),
            progress_fits(final(self)@, r@),
    {
        let first_entry = self.active_first_entry;
        let last_entry = match self.last_entry_id {
            Some(id) => id,
            None => first_entry,
        };
        let new_id = self.next_seg_id;
        let op = ManifestOp::bare(
            Op::RollSegment {
                sealed_id: self.active_id,
                first_entry,
                last_entry,
                entry_count: self.active_entry_count as u32,
                final_size: self.active_cursor.position(),
                new_id,
                new_first_entry: batch.first,
            },
        );
        proof {
            assert(op@ =~= roll_op(self@, batch.first));
            lemma_bare_encodable(op@.op);
        }
        self.log(op, After::Rolled { new_id, batch })
    }

    /// Find where the target of a truncation is to be cut off, and start to
    /// record it.
    fn cut_target(
        &mut self,
        last_valid: EntryId,
        target: SegmentId,
        start_offset: u64,
        drop: Vec<SegmentId>,
        contents: Vec<u8>,
    ) -> (r: Progress)
        requires
            contents@.len() <= i64::MAX,
            drop@.len() + 4 <= u32::MAX,
        ensures
            (final(self)@, r@) == find_cut(
                old(self)@,
                TaskView::ReadTarget { last_valid, target, start_offset, drop: drop@ },
                contents@,
            ),
    {
        let data = match files::open_segment(Ok(contents)) {
            Ok((data, _)) => data,
            Err(e) => return Progress::Failed(StoreError::Io(e)),
        };
        let whole = vstd::slice::slice_to_vec(data.as_slice());
        let mut scanner = FrameScanner::new(whole, start_offset);
        assert(scanner@ =~= scanner_at(data@, start_offset));
        let byte_offset: u64 = match scanner.scan_to_after(last_valid) {
            Err(e) => return Progress::Failed(StoreError::Scan(e)),
            Ok(byte_offset) => byte_offset,
        };
        let ghost ids = drop@;
        let ghost start = scanner_at(data@, start_offset).cursor;
        let ghost end = frame::end_of_id(data@, start, last_valid.0)->Ok_0;
        proof {
            lemma_end_of_id_bound(data@, start, last_valid.0);
        }
        let size: usize = data.len();
        assert(byte_offset == end && end <= size);
        let kept = vstd::slice::slice_to_vec(
            vstd::slice::slice_subrange(data.as_slice(), 0, byte_offset as usize),
        );
        assert(kept@ =~= data@.take(end));
        let mut left = FrameScanner::new(kept, MAGIC_LEN as u64);
        let left = left.scan_all(crate::scan::INDEX_STRIDE);
        let ghost bytes = data@;
        let mut full = FrameScanner::new(data, MAGIC_LEN as u64);
        let full = full.scan_all(crate::scan::INDEX_STRIDE);
        let cut = Cut {
            target,
            full_size: full.next_offset,
            full_count: full.count,
            full_last: match full.last_id {
                Some(id) => id,
                None => last_valid,
            },
            last_valid,
            byte_offset,
            entry_count: left.count,
        };
        assert(cut == cut_of(bytes, target, last_valid, end));
        let op = ManifestOp::bare(Op::TruncateEnd { new_active_id: target, byte_offset, drop });
        proof {
            assert(op@ =~= truncate_end_op(target, byte_offset, ids));
            lemma_bare_encodable(op@.op);
        }
        self.log(op, After::TruncateEnd { cut })
    }

    /// Go on once a record is in the manifest and applied.
    fn after_record(&mut self, after: After) -> (r: Progress)
        requires
            after matches After::Rolled { new_id, .. } ==> new_id.0 < u32::MAX,
            after matches After::Deleted { dead, next } ==> next < dead@.len(),
        ensures
            (final(self)@, r@) == proceed(old(self)@, after@),
    {
        match after {
            After::Metadata => Progress::Finished(Outcome::Done),
            After::TruncateStart { first_entry } => {
                self.index.truncate_start(first_entry);
                Progress::Finished(Outcome::Done)
            },
            After::TruncateEnd { cut } => {
                // The target is active again, and still whole.
                self.active_id = cut.target;
                self.active_cursor = FrameCursor::new(cut.full_size);
                self.last_entry_id = Some(cut.full_last);
                self.rollover_pending = false;
                self.index.truncate_end(cut.full_last);
                self.active_first_entry = match self.state.find(cut.target) {
                    Some(entry) => entry.first_entry,
                    None => EntryId(0),
                };
                self.active_entry_count = cut.full_count;
                Progress::Next(
                    Task::CutTarget { cut },
                    Action::TruncateSegment { id: cut.target, len: cut.byte_offset },
                )
            },
            After::WentOn { batch } => self.write_buffered(batch),
            After::Deleted { dead, next } => {
                let n: usize = dead.len();
                assert(next < n);
                Self::delete_from(dead, next + 1)
            },
            After::Rolled { new_id, batch } => {
                self.next_seg_id = SegmentId(new_id.0 + 1);
                self.active_id = new_id;
                // Start of the new segment; buffered bytes remain.
                self.active_cursor.set_position(MAGIC_LEN as u64);
                self.active_first_entry = batch.first;
                self.active_entry_count = 0;
                self.rollover_pending = false;
                self.write_buffered(batch)
            },
        }
    }

    /// Go on with an operation, once its action was performed.
    pub fn resume(&mut self, task: Task, event: Event) -> (r: Progress)
        requires
            consistent(old(self)@),
            within_limits(old(self)@),
            task_fits(old(self)@, task@),
            event matches Event::Contents(data) ==> data@.len() <= i64::MAX,
        ensures
            (final(self)@, r@) == step(old(self)@, task@, event@),
            consistent(final(self)@),
            progress_fits(final(self)@, r@),
    {
        match event {
            Event::Failed(e) => Progress::Failed(StoreError::Io(e)),
            Event::Contents(data) => match task {
                Task::ReadTarget { last_valid, target, start_offset, drop } => self.cut_target(
                    last_valid,
                    target,
                    start_offset,
                    drop,
                    data,
                ),
                _ => Progress::Failed(StoreError::Io(IoFault::Other)),
            },
            Event::Done => match task {
                Task::ReadTarget { .. } => Progress::Failed(StoreError::Io(IoFault::Other)),
                Task::CutTarget { cut } => {
                    self.active_cursor = FrameCursor::new(cut.byte_offset);
                    self.active_entry_count = cut.entry_count;
                    self.last_entry_id = Some(cut.last_valid);
                    self.index.truncate_end(cut.last_valid);
                    Progress::Finished(Outcome::Done)
                },
                Task::CreateNext { batch } => self.do_rollover(batch),
                Task::WriteOp { op, after } => {
                    self.manifest_cursor.flush();
                    Progress::Next(Task::SyncOp { op, after }, Action::SyncManifest)
                },
                Task::SyncOp { op, after } => {
                    proof {
                        lemma_record_keeps_consistent(self@, op@, after@);
                    }
                    let ghost applied = StoreView { state: state::apply_op(self@.state, op@)->Ok_0, ..self@ };
                    let _ = self.state.apply(op);
                    assert(self@ =~= applied);
                    self.after_record(after)
                },
                Task::DeleteFile { dead, next } => {
                    let id = dead[next];
                    let op = ManifestOp::bare(Op::SegmentDeleted { id });
                    proof {
                        assert(op@ =~= state_laws::bare(state::OpView::SegmentDeleted { id }));
                        lemma_bare_encodable(op@.op);
                        assert(self@.state.dead.contains(dead@[next as int]));
                    }
                    self.log(op, After::Deleted { dead, next })
                },
                Task::WriteBatch { batch } => {
                    self.active_cursor.flush();
                    self.last_entry_id = Some(batch.last);
                    self.active_entry_count = self.active_entry_count + batch.count;
                    if self.active_cursor.position() > self.cfg.segment_rollover_trigger_bytes {
                        self.rollover_pending = true;
                    }
                    Progress::Finished(Outcome::Written(Commit(Some(self.active_id))))
                },
            },
        }
    }

    /// Begin a write batch. Push entries with [`StoreWriter::push`], then call
    /// [`StoreWriter::write`].
    pub fn writer(&mut self) -> (w: StoreWriter<'_>)
        ensures
            *w.store == *old(self),
            *final(self) == *final(w.store),
            w.first_id is None,
            w.last_id is None,
            w.count == 0,
    {
        StoreWriter { store: self, first_id: None, last_id: None, count: 0 }
    }
}

// ── StoreWriter ───────────────────────────────────────────────────────────────

/// A write batch obtained from [`Store::writer`].
///
/// Push entries with [`push`](Self::push), then call [`write`](Self::write) to
/// have them written. A torn batch leaves a recoverable torn tail, never
/// partial frames.
pub struct StoreWriter<'a> {
    pub store: &'a mut Store,
    pub first_id: Option<EntryId>,
    pub last_id: Option<EntryId>,
    pub count: u64,
}

impl<'a> StoreWriter<'a> {
    /// Buffer `payload` as an entry with caller-provided `id`. Ids must be
    /// strictly increasing across the lifetime of the store.
    pub fn push(&mut self, id: u64, payload: &[u8])
        requires
            old(self).count < u64::MAX,
        ensures
            final(self).store@ == (StoreView {
                active: frame::CursorView {
                    pending: old(self).store@.active.pending + frame::encode_frame(id, payload@),
                    ..old(self).store@.active
                },
                ..old(self).store@
            }),
            *final(final(self).store) == *final(old(self).store),
            final(self).first_id == if old(self).first_id is None {
                Some(EntryId(id))
            } else {
                old(self).first_id
            },
            final(self).last_id == Some(EntryId(id)),
            final(self).count == old(self).count + 1,
    {
        self.store.active_cursor.write(EntryId(id), payload);
        if self.first_id.is_none() {
            self.first_id = Some(EntryId(id));
        }
        self.last_id = Some(EntryId(id));
        self.count = self.count + 1;
    }

    /// Write all buffered entries to the active segment, without syncing them.
    /// Triggers a lazy segment rollover when needed. The first write after a
    /// rollback puts on record that the store goes on. The outcome is a
    /// [`Commit`] that makes the data durable.
    pub fn write(self) -> (r: Progress)
        requires
            consistent(old(self.store)@),
            self.count > 0 ==> self.first_id is Some && self.last_id is Some,
            self.count <= i64::MAX,
        ensures
            (final(self.store)@, r@) == if self.count == 0 {
                (old(self.store)@, ProgressView::Finished(Outcome::Written(Commit(None))))
            } else {
                begin_write(
                    old(self.store)@,
                    Batch {
                        first: self.first_id->Some_0,
                        last: self.last_id->Some_0,
                        count: self.count,
                    },
                )
            },
            consistent(final(self.store)@),
            progress_fits(final(self.store)@, r@),
    {
        if self.count == 0 {
            return Progress::Finished(Outcome::Written(Commit(None)));
        }
        let batch = Batch {
            first: self.first_id.unwrap(),
            last: self.last_id.unwrap(),
            count: self.count,
        };
        // If a rollover was deferred from the previous write, execute it now
        // that the first id of the new batch is known.
        if self.store.rollover_pending {
            Progress::Next(
                Task::CreateNext { batch },
                Action::CreateSegment(self.store.next_seg_id),
            )
        } else if self.store.state.cut_at().is_some() {
            // Entries are about to follow where a rollback has cut the segment
            // off: from now on its file counts again.
            let op = ManifestOp::bare(Op::Metadata);
            proof {
                assert(op@ =~= go_on_op());
                lemma_bare_encodable(op@.op);
            }
            self.store.log(op, After::WentOn { batch })
        } else {
            self.store.write_buffered(batch)
        }
    }
}

} // verus!
