//! A crash-safe, append-only log store designed for use as a Raft log backend.
//!
//! # Design
//!
//! A store consists of a **manifest** and one or more **segments**:
//!
//! - The **manifest** is a small append-only file that records structural
//!   operations (segment creation, sealing, truncation) and arbitrary key-value
//!   metadata. It is the authoritative source of store state.
//!
//! - **Segments** are append-only data files. Each frame in a segment carries an
//!   8-byte caller-provided id (typically the Raft log index), a 4-byte payload
//!   length, an 8-byte xxHash-64 checksum, and the payload bytes. Segments are
//!   sealed once they exceed a configurable size threshold; a new segment is then
//!   started for subsequent writes.
//!
//! The library does no input or output. It says what to do to the files, as
//! [`action::Action`]s, and goes on from what it hears back. What the files hold
//! after an action is stated in [`action::perform`], and the promises of the
//! store are proved over such files: see the modules whose names end in `_laws`.
//!
//! # Crash safety
//!
//! A write hands frames to the page cache; the [`store::Commit`] that it ends
//! with makes them durable. Manifest operations are always synced before they
//! take effect. A scan on startup replays the manifest and verifies the segments.
//! Minor issues (torn tails, orphan files, missing files of dead segments, a
//! rollback that is not completed) are repaired automatically; more serious issues
//! require explicit approval.
//!
//! # Identifiers
//!
//! Entry ids are 64-bit integers supplied by the caller, stored and retrieved
//! verbatim. Nothing is assumed about contiguity or starting value.

use vstd::prelude::*;

pub mod action;
pub mod bytes;
pub mod codec;
pub mod codec_laws;
pub mod crash_laws;
pub mod delete_laws;
pub mod durable_laws;
pub mod effect_laws;
pub mod entry_laws;
pub mod files;
pub mod format_laws;
pub mod frame;
pub mod frame_laws;
pub mod index;
pub mod issue;
pub mod layout_laws;
pub mod log_laws;
pub mod manifest;
pub mod manifest_laws;
pub mod op_laws;
pub mod open;
pub mod open_laws;
pub mod opened_laws;
pub mod reader;
pub mod reader_laws;
pub mod record_laws;
pub mod recovery;
pub mod recovery_laws;
pub mod remedy_laws;
pub mod repair_laws;
pub mod scan;
pub mod scan_laws;
pub mod scanner_laws;
pub mod state;
pub mod state_laws;
pub mod store;
pub mod text;
pub mod text_laws;
pub mod tlv;
pub mod truncate_end_laws;
pub mod truncate_laws;

verus! {

/// Identifier of a log entry, chosen by the caller.
#[derive(Debug, Clone, Copy, PartialEq, Eq, PartialOrd, Ord, Structural)]
pub struct EntryId(pub u64);

/// Identifier of a segment file.
#[derive(Debug, Clone, Copy, PartialEq, Eq, PartialOrd, Ord, Hash, Structural)]
pub struct SegmentId(pub u32);

/// Configuration for opening or creating a store.
#[derive(Debug, Clone)]
pub struct StoreCfg {
    /// Directory where the manifest and segment files are stored.
    pub base_dir: String,
    /// Approximate byte threshold at which the active segment is sealed and a
    /// new one opened.
    pub segment_rollover_trigger_bytes: u64,
}

/// An iterator that yields items which may borrow from the iterator itself.
///
/// Unlike [`std::iter::Iterator`], the item lifetime is tied to each `next`
/// call, allowing zero-copy streaming without intermediate allocation. The item
/// (and any borrows it holds) must be dropped before calling `next` again.
pub trait LendingIterator {
    type Item<'a> where Self: 'a;

    fn next<'this>(&'this mut self) -> Option<Self::Item<'this>>;
}

/// Why a file operation failed.
#[derive(Debug, Clone, Copy, PartialEq, Eq, Structural)]
pub enum IoFault {
    NotFound,
    AlreadyExists,
    InvalidData,
    UnexpectedEof,
    Other,
}

} // verus!
