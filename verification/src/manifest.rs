//! The manifest: records written one after another, and their replay.

use vstd::prelude::*;

use crate::codec::{self, DecodeError};
use crate::frame::{self, FrameCursor, FrameScanner};
use crate::state::{self, ApplyError, ManifestOp, StoreState};
use crate::EntryId;

verus! {

// ── Write ─────────────────────────────────────────────────────────────────────

/// Buffer `op` as a manifest frame. Manifest frames have id 0.
pub fn write_op(cursor: &mut FrameCursor, op: &ManifestOp)
    requires
        codec::encodable(op@),
    ensures
        final(cursor)@ == (frame::CursorView {
            pending: old(cursor)@.pending + frame::encode_frame(0, codec::encode_op(op@)),
            ..old(cursor)@
        }),
{
    let payload = op.encode();
    cursor.write(EntryId(0), payload.as_slice());
}

// ── Replay ────────────────────────────────────────────────────────────────────

/// A manifest as read back: the state it describes, and where the next record
/// goes.
pub struct ReplayResult {
    pub state: StoreState,
    pub next_offset: u64,
}

/// Why a manifest does not describe a state.
#[derive(Debug, PartialEq)]
#[allow(inconsistent_fields)]
pub enum ReplayError {
    /// The frame at `offset` is not a record.
    InvalidOp { offset: u64, source: DecodeError },
    /// The record at `offset` does not fit the state before it.
    ApplyFailed { offset: u64, source: ApplyError },
}

/// The state once the record that `payload` spells, read at `offset`, is applied
/// to `s`.
#[verifier::opaque]
pub open spec fn replay_record(s: state::StateView, payload: Seq<u8>, offset: u64) -> Result<
    state::StateView,
    ReplayError,
> {
    match codec::decode_op(payload) {
        Err(source) => Err(ReplayError::InvalidOp { offset, source }),
        Ok(op) => match state::apply_op(s, op) {
            Err(source) => Err(ReplayError::ApplyFailed { offset, source }),
            Ok(t) => Ok(t),
        },
    }
}

/// The state once the records of `data` from `pos` on are applied to `s`, and
/// where they end. A truncated frame is the end.
pub open spec fn replay_from(s: state::StateView, data: Seq<u8>, pos: int) -> Result<
    (state::StateView, int),
    ReplayError,
>
    decreases data.len() - pos,
{
    match frame::raw_frame_at(data, pos) {
        frame::RawFrame::Whole(f) => match replay_record(s, f.payload, pos as u64) {
            Err(e) => Err(e),
            Ok(t) => replay_from(t, data, f.end()),
        },
        _ => Ok((s, pos)),
    }
}

/// Apply the record that `payload` spells, read at `offset`.
fn apply_record(state: &mut StoreState, payload: &[u8], offset: u64) -> (r: Result<
    (),
    ReplayError,
>)
    ensures
        match replay_record(old(state)@, payload@, offset) {
            Ok(t) => r is Ok && final(state)@ == t,
            Err(e) => r == Err::<(), _>(e),
        },
{
    reveal(replay_record);
    let entry = match ManifestOp::decode(payload) {
        Ok(entry) => entry,
        Err(source) => return Err(ReplayError::InvalidOp { offset, source }),
    };
    match state.apply(entry) {
        Ok(()) => Ok(()),
        Err(source) => Err(ReplayError::ApplyFailed { offset, source }),
    }
}

/// Replay all ops of a manifest into a fresh [`StoreState`].
///
/// Checksums and torn-tail detection are handled by the scan phase before
/// replay is called. This function performs a pure decode-and-apply pass with
/// no checksum verification.
pub fn replay(data: Vec<u8>, offset: u64) -> (r: Result<ReplayResult, ReplayError>)
    requires
        offset <= data@.len() <= i64::MAX,
    ensures
        match replay_from(state::StateView::empty(), data@, offset as int) {
            Ok((s, end)) => r matches Ok(result) && result.state@ == s && result.next_offset
                == end,
            Err(e) => r matches Err(err) && err == e,
        },
{
    let ghost bytes = data@;
    let ghost whole = replay_from(state::StateView::empty(), bytes, offset as int);
    let mut scanner = FrameScanner::new(data, offset);
    let mut state = StoreState::empty();
    let mut next_offset: u64 = offset;
    loop
        invariant
            scanner@.wf(),
            scanner@.data == bytes,
            scanner@.cursor == next_offset,
            scanner@.position == next_offset,
            bytes == data@,
            whole == replay_from(state::StateView::empty(), data@, offset as int),
            whole == replay_from(state@, bytes, next_offset as int),
        decreases bytes.len() - next_offset,
    {
        match scanner.read() {
            Ok(None) => {
                return Ok(ReplayResult { state, next_offset });
            },
            Ok(Some(mut reader)) => {
                let frame_offset: u64 = reader.frame_start();
                let mut payload: Vec<u8> = Vec::new();
                match reader.read_to_end(&mut payload) {
                    Ok(_) => {},
                    Err(_) => {
                        return Ok(ReplayResult { state, next_offset });
                    },
                }
                assert(frame::raw_frame_at(bytes, next_offset as int) matches frame::RawFrame::Whole(f)
                    && payload@ =~= f.payload);
                match apply_record(&mut state, payload.as_slice(), frame_offset) {
                    Ok(()) => {},
                    Err(e) => {
                        return Err(e);
                    },
                }
            },
            Err(_) => {
                return Ok(ReplayResult { state, next_offset });
            },
        }
        next_offset = scanner.position();
    }
}

} // verus!
