//! What the store asks of the file system, and what it hears back.

use vstd::prelude::*;

use crate::files::{MANIFEST_MAGIC, SEGMENT_MAGIC};
use crate::{IoFault, SegmentId};

verus! {

/// One piece of work for the file system.
#[derive(Debug, PartialEq, Eq)]
pub enum Action {
    /// Create the manifest, which must not exist, with its magic prefix. Sync it
    /// and the directory.
    CreateManifest,
    /// Create a segment file, which must not exist, with its magic prefix, and
    /// sync it.
    CreateSegment(SegmentId),
    /// Read a whole segment file.
    ReadSegment(SegmentId),
    /// Write `bytes` to the manifest at `offset`.
    WriteManifest { offset: u64, bytes: Vec<u8> },
    /// Make what was written to the manifest durable.
    SyncManifest,
    /// Cut the manifest off after `len` bytes, and sync it.
    TruncateManifest { len: u64 },
    /// Write `bytes` to a segment file at `offset`.
    WriteSegment { id: SegmentId, offset: u64, bytes: Vec<u8> },
    /// Make what was written to a segment file durable.
    SyncSegment(SegmentId),
    /// Cut a segment file off after `len` bytes, and sync it.
    TruncateSegment { id: SegmentId, len: u64 },
    /// Delete a segment file. One that is not there is as good as deleted.
    DeleteSegment(SegmentId),
}

/// What an [`Action`] asks for.
#[verifier::ext_equal]
pub ghost enum ActionView {
    CreateManifest,
    CreateSegment(SegmentId),
    ReadSegment(SegmentId),
    WriteManifest { offset: u64, bytes: Seq<u8> },
    SyncManifest,
    TruncateManifest { len: u64 },
    WriteSegment { id: SegmentId, offset: u64, bytes: Seq<u8> },
    SyncSegment(SegmentId),
    TruncateSegment { id: SegmentId, len: u64 },
    DeleteSegment(SegmentId),
}

impl View for Action {
    type V = ActionView;

    open spec fn view(&self) -> ActionView {
        match *self {
            Action::CreateManifest => ActionView::CreateManifest,
            Action::CreateSegment(id) => ActionView::CreateSegment(id),
            Action::ReadSegment(id) => ActionView::ReadSegment(id),
            Action::WriteManifest { offset, bytes } => ActionView::WriteManifest {
                offset,
                bytes: bytes@,
            },
            Action::SyncManifest => ActionView::SyncManifest,
            Action::TruncateManifest { len } => ActionView::TruncateManifest { len },
            Action::WriteSegment { id, offset, bytes } => ActionView::WriteSegment {
                id,
                offset,
                bytes: bytes@,
            },
            Action::SyncSegment(id) => ActionView::SyncSegment(id),
            Action::TruncateSegment { id, len } => ActionView::TruncateSegment { id, len },
            Action::DeleteSegment(id) => ActionView::DeleteSegment(id),
        }
    }
}

/// How an [`Action`] went.
#[derive(Debug, PartialEq, Eq)]
pub enum Event {
    /// It is done.
    Done,
    /// It is done, and this is what was read.
    Contents(Vec<u8>),
    /// It failed.
    Failed(IoFault),
}

/// What an [`Event`] says.
#[verifier::ext_equal]
pub ghost enum EventView {
    Done,
    Contents(Seq<u8>),
    Failed(IoFault),
}

impl View for Event {
    type V = EventView;

    open spec fn view(&self) -> EventView {
        match *self {
            Event::Done => EventView::Done,
            Event::Contents(data) => EventView::Contents(data@),
            Event::Failed(e) => EventView::Failed(e),
        }
    }
}

// ── The files ─────────────────────────────────────────────────────────────────

/// The files of a store.
#[verifier::ext_equal]
pub ghost struct Disk {
    pub manifest: Seq<u8>,
    pub segments: Map<SegmentId, Seq<u8>>,
}

/// A file after `bytes` were written at `offset`, which is not behind its end.
pub open spec fn write_at(file: Seq<u8>, offset: int, bytes: Seq<u8>) -> Seq<u8> {
    if offset + bytes.len() >= file.len() {
        file.take(offset) + bytes
    } else {
        file.take(offset) + bytes + file.skip(offset + bytes.len())
    }
}

/// The files after an action that succeeds.
pub open spec fn perform(disk: Disk, action: ActionView) -> Disk {
    match action {
        ActionView::CreateManifest => Disk { manifest: MANIFEST_MAGIC@, ..disk },
        ActionView::CreateSegment(id) => Disk {
            segments: disk.segments.insert(id, SEGMENT_MAGIC@),
            ..disk
        },
        ActionView::ReadSegment(id) => disk,
        ActionView::WriteManifest { offset, bytes } => Disk {
            manifest: write_at(disk.manifest, offset as int, bytes),
            ..disk
        },
        ActionView::SyncManifest => disk,
        ActionView::TruncateManifest { len } => Disk {
            manifest: disk.manifest.take(len as int),
            ..disk
        },
        ActionView::WriteSegment { id, offset, bytes } => Disk {
            segments: disk.segments.insert(
                id,
                write_at(disk.segments[id], offset as int, bytes),
            ),
            ..disk
        },
        ActionView::SyncSegment(id) => disk,
        ActionView::TruncateSegment { id, len } => Disk {
            segments: disk.segments.insert(id, disk.segments[id].take(len as int)),
            ..disk
        },
        ActionView::DeleteSegment(id) => Disk { segments: disk.segments.remove(id), ..disk },
    }
}

/// The files after all of `actions`, in order.
pub open spec fn perform_all(disk: Disk, actions: Seq<ActionView>) -> Disk
    decreases actions.len(),
{
    if actions.len() == 0 {
        disk
    } else {
        perform(perform_all(disk, actions.drop_last()), actions.last())
    }
}

} // verus!
