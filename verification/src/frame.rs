//! The frame format shared by segment files and the manifest.
//!
//! ```text
//! [id: 8][payload_len: 4][checksum: 8][payload: payload_len bytes]
//! ```
//!
//! All integers are big-endian. The checksum is xxHash-64 over the id bytes
//! followed by the payload. Manifest frames use id 0.

use vstd::prelude::*;
use vstd::slice::slice_subrange;
use xxhash_rust::xxh64::Xxh64;

use crate::bytes::{push_be, read_be};
use crate::{EntryId, IoFault};

verus! {

broadcast use crate::bytes::lemma_be_bytes_len;

/// Length of a frame header: id, payload length, checksum.
pub const HEADER_LEN: usize = 20;

// ── Checksum ──────────────────────────────────────────────────────────────────

/// The xxHash-64 digest of `data` under `seed`.
pub uninterp spec fn xxh64_digest(seed: u64, data: Seq<u8>) -> u64;

/// Feeds `head` and then `body` to `xxhash_rust::xxh64::Xxh64` (`new`, `update`,
/// `digest`). Trusted: the digest is a function of the seed and of the
/// concatenation of what was fed, however it was split into updates.
#[verifier::external_body]
fn xxh64_of(seed: u64, head: &[u8], body: &[u8]) -> (sum: u64)
    ensures
        sum == xxh64_digest(seed, head@ + body@),
{
    let mut hasher = Xxh64::new(seed);
    hasher.update(head);
    hasher.update(body);
    hasher.digest()
}

/// The checksum of a frame: it covers the id and the payload.
pub open spec fn frame_checksum(id: u64, payload: Seq<u8>) -> u64 {
    xxh64_digest(0, crate::bytes::be_bytes(id as nat, 8) + payload)
}

/// Compute the checksum of a frame.
pub fn checksum(id: EntryId, payload: &[u8]) -> (sum: u64)
    ensures
        sum == frame_checksum(id.0, payload@),
{
    let mut head: Vec<u8> = Vec::new();
    push_be(&mut head, id.0, 8);
    assert(head@ =~= crate::bytes::be_bytes(id.0 as nat, 8));
    xxh64_of(0, head.as_slice(), payload)
}

// ── Format ────────────────────────────────────────────────────────────────────

/// The bytes of one frame. The length field holds the low 32 bits of the
/// payload's length.
pub open spec fn encode_frame(id: u64, payload: Seq<u8>) -> Seq<u8> {
    crate::bytes::be_bytes(id as nat, 8)
        + crate::bytes::be_bytes((payload.len() as u32) as nat, 4)
        + crate::bytes::be_bytes(frame_checksum(id, payload) as nat, 8)
        + payload
}

/// A frame found in a file.
pub ghost struct Frame {
    pub start: int,
    pub id: u64,
    pub payload: Seq<u8>,
}

impl Frame {
    /// Offset of the first byte after the frame.
    pub open spec fn end(self) -> int {
        self.start + HEADER_LEN + self.payload.len()
    }
}

/// The id in the header at `pos`.
pub open spec fn header_id(data: Seq<u8>, pos: int) -> u64 {
    crate::bytes::be_value(data.subrange(pos, pos + 8)) as u64
}

/// The payload length in the header at `pos`.
pub open spec fn header_payload_len(data: Seq<u8>, pos: int) -> nat {
    crate::bytes::be_value(data.subrange(pos + 8, pos + 12))
}

/// The checksum in the header at `pos`.
pub open spec fn header_checksum(data: Seq<u8>, pos: int) -> u64 {
    crate::bytes::be_value(data.subrange(pos + 12, pos + 20)) as u64
}

/// What a reader finds at `pos`, before any checksum is verified.
pub ghost enum RawFrame {
    /// No byte is left.
    End,
    /// Bytes are left, but fewer than a header takes.
    TornHeader,
    /// The header is complete, the payload is not.
    TornPayload { id: u64, payload_len: nat },
    /// A complete frame.
    Whole(Frame),
}

pub open spec fn raw_frame_at(data: Seq<u8>, pos: int) -> RawFrame {
    if pos < 0 || pos >= data.len() {
        RawFrame::End
    } else if pos + HEADER_LEN > data.len() {
        RawFrame::TornHeader
    } else {
        let id = header_id(data, pos);
        let payload_len = header_payload_len(data, pos);
        if pos + HEADER_LEN + payload_len > data.len() {
            RawFrame::TornPayload { id, payload_len }
        } else {
            RawFrame::Whole(Frame {
                start: pos,
                id,
                payload: data.subrange(
                    pos + HEADER_LEN,
                    pos + HEADER_LEN + payload_len,
                ),
            })
        }
    }
}

/// True iff the checksum in the header of `f` is that of its id and payload.
pub open spec fn intact(data: Seq<u8>, f: Frame) -> bool {
    header_checksum(data, f.start) == frame_checksum(f.id, f.payload)
}

/// The valid frames of `data` from `pos` on, up to the first bad one.
pub open spec fn frames(data: Seq<u8>, pos: int) -> Seq<Frame>
    decreases data.len() - pos,
{
    match raw_frame_at(data, pos) {
        RawFrame::Whole(f) if intact(data, f) => seq![f] + frames(data, f.end()),
        _ => Seq::empty(),
    }
}

/// Where the valid frames of `data` from `pos` on end.
pub open spec fn frontier(data: Seq<u8>, pos: int) -> int
    decreases data.len() - pos,
{
    match raw_frame_at(data, pos) {
        RawFrame::Whole(f) if intact(data, f) => frontier(data, f.end()),
        _ => pos,
    }
}

/// What follows the valid frames of `data` from `pos` on.
pub open spec fn tail_status(data: Seq<u8>, pos: int) -> ScanStatus
    decreases data.len() - pos,
{
    match raw_frame_at(data, pos) {
        RawFrame::End => ScanStatus::Clean,
        RawFrame::TornHeader => ScanStatus::TornTail,
        RawFrame::TornPayload { .. } => ScanStatus::TornTail,
        RawFrame::Whole(f) => if intact(data, f) {
            tail_status(data, f.end())
        } else {
            ScanStatus::ChecksumCorrupt
        },
    }
}

/// The frames whose number, counted from 0, is a multiple of `stride`, each as
/// `(id, start offset)`.
pub open spec fn checkpoints_of(fs: Seq<Frame>, stride: nat) -> Seq<(EntryId, u64)>
    decreases fs.len(),
{
    if fs.len() == 0 {
        Seq::empty()
    } else {
        let before = checkpoints_of(fs.drop_last(), stride);
        if (fs.len() - 1) as nat % stride == 0 {
            before.push((EntryId(fs.last().id), fs.last().start as u64))
        } else {
            before
        }
    }
}

/// Where a reader that passes over frames with an id below `target` stops:
/// before the first frame with an id of at least `target`, or at the end.
/// `Err` gives the start of a truncated frame met on the way.
pub open spec fn seek(data: Seq<u8>, pos: int, target: u64) -> Result<int, int>
    decreases data.len() - pos,
{
    match raw_frame_at(data, pos) {
        RawFrame::End => Ok(pos),
        RawFrame::TornHeader => Err(pos),
        RawFrame::TornPayload { id, .. } => if id >= target {
            Ok(pos)
        } else {
            Err(pos)
        },
        RawFrame::Whole(f) => if f.id >= target {
            Ok(pos)
        } else {
            seek(data, f.end(), target)
        },
    }
}

/// The offset after the first frame with id `target`. `Err` gives the offset
/// at which the frames end or are truncated without one.
pub open spec fn end_of_id(data: Seq<u8>, pos: int, target: u64) -> Result<int, int>
    decreases data.len() - pos,
{
    match raw_frame_at(data, pos) {
        RawFrame::Whole(f) => if f.id == target {
            Ok(f.end())
        } else {
            end_of_id(data, f.end(), target)
        },
        _ => Err(pos),
    }
}

/// How many of the next `n` frames there are, and where the last of them ends.
/// `Err` gives the start of a truncated frame met on the way.
pub open spec fn skip_frames(data: Seq<u8>, pos: int, n: nat) -> Result<(nat, int), int>
    decreases n,
{
    if n == 0 {
        Ok((0, pos))
    } else {
        match raw_frame_at(data, pos) {
            RawFrame::End => Ok((0, pos)),
            RawFrame::Whole(f) => match skip_frames(data, f.end(), (n - 1) as nat) {
                Ok((k, end)) => Ok((k + 1, end)),
                Err(p) => Err(p),
            },
            _ => Err(pos),
        }
    }
}

// ── FrameBuffer ───────────────────────────────────────────────────────────────

/// Frames waiting to be written.
pub struct FrameBuffer {
    buf: Vec<u8>,
}

impl View for FrameBuffer {
    type V = Seq<u8>;

    closed spec fn view(&self) -> Seq<u8> {
        self.buf@
    }
}

impl FrameBuffer {
    pub fn new() -> (b: Self)
        ensures
            b@ == Seq::<u8>::empty(),
    {
        Self { buf: Vec::new() }
    }

    /// Append one frame.
    pub fn write(&mut self, id: EntryId, payload: &[u8])
        ensures
            final(self)@ == old(self)@ + encode_frame(id.0, payload@),
    {
        let sum: u64 = checksum(id, payload);
        push_be(&mut self.buf, id.0, 8);
        push_be(&mut self.buf, (payload.len() as u32) as u64, 4);
        push_be(&mut self.buf, sum, 8);
        self.buf.extend_from_slice(payload);
        assert(self@ =~= old(self)@ + encode_frame(id.0, payload@));
    }

    /// The bytes not yet written.
    pub fn pending(&self) -> (bytes: &[u8])
        ensures
            bytes@ == self@,
    {
        self.buf.as_slice()
    }

    pub fn len(&self) -> (n: usize)
        ensures
            n == self@.len(),
    {
        self.buf.len()
    }

    pub fn clear(&mut self)
        ensures
            final(self)@ == Seq::<u8>::empty(),
    {
        self.buf.clear();
    }
}

// ── FrameCursor ───────────────────────────────────────────────────────────────

/// What a [`FrameCursor`] holds: the bytes not yet written, and where in the
/// file they go.
pub ghost struct CursorView {
    pub pending: Seq<u8>,
    pub position: u64,
}

/// A write position in a file, with the frames buffered for it.
pub struct FrameCursor {
    buf: FrameBuffer,
    position: u64,
}

impl View for FrameCursor {
    type V = CursorView;

    closed spec fn view(&self) -> CursorView {
        CursorView { pending: self.buf@, position: self.position }
    }
}

impl FrameCursor {
    pub fn new(position: u64) -> (c: Self)
        ensures
            c@ == (CursorView { pending: Seq::<u8>::empty(), position }),
    {
        Self { buf: FrameBuffer::new(), position }
    }

    pub fn position(&self) -> (p: u64)
        ensures
            p == self@.position,
    {
        self.position
    }

    pub fn set_position(&mut self, pos: u64)
        ensures
            final(self)@ == (CursorView { position: pos, ..old(self)@ }),
    {
        self.position = pos;
    }

    /// Buffer one frame.
    pub fn write(&mut self, id: EntryId, payload: &[u8])
        ensures
            final(self)@ == (CursorView {
                pending: old(self)@.pending + encode_frame(id.0, payload@),
                ..old(self)@
            }),
    {
        self.buf.write(id, payload);
    }

    /// The buffered bytes, to be written at [`position`](Self::position).
    pub fn pending(&self) -> (bytes: &[u8])
        ensures
            bytes@ == self@.pending,
    {
        self.buf.pending()
    }

    /// The buffered bytes have reached the file: advance past them.
    pub fn flush(&mut self)
        requires
            old(self)@.position + old(self)@.pending.len() <= u64::MAX,
        ensures
            final(self)@ == (CursorView {
                pending: Seq::<u8>::empty(),
                position: (old(self)@.position + old(self)@.pending.len()) as u64,
            }),
    {
        self.position = self.position + self.buf.len() as u64;
        self.buf.clear();
    }
}

// ── FrameScanner ──────────────────────────────────────────────────────────────

/// Why the next frame of a file could not be read.
#[derive(Debug, Clone, Copy, PartialEq, Eq, Structural)]
pub enum ScanError {
    ChecksumMismatch { offset: u64 },
    Truncated { offset: u64 },
}

pub open spec fn scan_error_text(e: ScanError) -> Seq<char> {
    match e {
        ScanError::ChecksumMismatch { offset } => "checksum mismatch at offset "@
            + crate::text::decimal(offset as nat),
        ScanError::Truncated { offset } => "truncated frame at offset "@ + crate::text::decimal(
            offset as nat,
        ),
    }
}

impl ScanError {
    /// The error in words.
    pub fn message(&self) -> (s: String)
        ensures
            s@ == scan_error_text(*self),
    {
        match *self {
            ScanError::ChecksumMismatch { offset } => crate::issue::with_number(
                "checksum mismatch at offset ",
                offset,
            ),
            ScanError::Truncated { offset } => crate::issue::with_number(
                "truncated frame at offset ",
                offset,
            ),
        }
    }
}

/// What a [`FrameScanner`] holds: the file, the offset of the next byte to be
/// read, and the offset it reports.
pub ghost struct ScannerView {
    pub data: Seq<u8>,
    pub cursor: int,
    pub position: u64,
}

impl ScannerView {
    /// The scanner after it has moved to `pos`.
    pub open spec fn at(self, pos: int) -> ScannerView {
        ScannerView { cursor: pos, position: pos as u64, ..self }
    }

    /// The scanner after a truncated frame: every byte is consumed, the
    /// reported offset stays.
    pub open spec fn exhausted(self) -> ScannerView {
        ScannerView { cursor: self.data.len() as int, ..self }
    }

    /// The scanner after it has moved to `pos`, or unchanged if it is there.
    pub open spec fn moved(self, pos: int) -> ScannerView {
        if pos == self.cursor {
            self
        } else {
            self.at(pos)
        }
    }

    /// The position of a scanner with bytes left is that of the next byte.
    pub open spec fn wf(self) -> bool {
        &&& 0 <= self.cursor <= self.data.len() <= i64::MAX
        &&& self.cursor < self.data.len() ==> self.position == self.cursor
    }
}

/// Reads the frames of a file one by one.
pub struct FrameScanner {
    data: Vec<u8>,
    cursor: usize,
    position: u64,
}

impl View for FrameScanner {
    type V = ScannerView;

    closed spec fn view(&self) -> ScannerView {
        ScannerView { data: self.data@, cursor: self.cursor as int, position: self.position }
    }
}

/// A frame header.
struct Header {
    id: EntryId,
    payload_len: usize,
    checksum: u64,
}

impl FrameScanner {
    /// Scan `data`, the contents of a file, from byte `offset` on.
    pub fn new(data: Vec<u8>, offset: u64) -> (s: Self)
        requires
            data@.len() <= i64::MAX,
        ensures
            s@.wf(),
            s@.data == data@,
            s@.position == offset,
            s@.cursor == if offset <= data@.len() {
                offset as int
            } else {
                data@.len() as int
            },
    {
        let cursor: usize = if offset <= data.len() as u64 {
            offset as usize
        } else {
            data.len()
        };
        Self { data, cursor, position: offset }
    }

    pub fn position(&self) -> (p: u64)
        ensures
            p == self@.position,
    {
        self.position
    }

    /// No byte is left.
    pub fn at_end(&self) -> (b: bool)
        ensures
            b == (self@.cursor >= self@.data.len()),
    {
        self.cursor >= self.data.len()
    }

    /// Read the next header without moving past it. `None` at the end of the
    /// file.
    fn peek_header(&mut self) -> (r: Result<Option<Header>, ScanError>)
        requires
            old(self)@.wf(),
        ensures
            final(self)@.wf(),
            match raw_frame_at(old(self)@.data, old(self)@.cursor) {
                RawFrame::End => {
                    &&& r matches Ok(None)
                    &&& final(self)@ == old(self)@
                },
                RawFrame::TornHeader => {
                    &&& r matches Err(ScanError::Truncated { offset })
                    &&& offset == old(self)@.position
                    &&& final(self)@ == old(self)@.exhausted()
                },
                _ => {
                    let (data, pos) = (old(self)@.data, old(self)@.cursor);
                    &&& r matches Ok(Some(h))
                    &&& h.id.0 == header_id(data, pos)
                    &&& h.payload_len == header_payload_len(data, pos)
                    &&& h.payload_len <= u32::MAX
                    &&& h.checksum == header_checksum(data, pos)
                    &&& pos + HEADER_LEN <= data.len()
                    &&& final(self)@ == old(self)@
                },
            },
    {
        if self.cursor >= self.data.len() {
            return Ok(None);
        }
        if self.data.len() - self.cursor < HEADER_LEN {
            self.cursor = self.data.len();
            return Err(ScanError::Truncated { offset: self.position });
        }
        let start: usize = self.cursor;
        proof {
            crate::bytes::lemma_pow256_values();
            crate::bytes::lemma_value_bound(self.data@.subrange(start as int, start + 8));
            crate::bytes::lemma_value_bound(self.data@.subrange(start + 8, start + 12));
            crate::bytes::lemma_value_bound(self.data@.subrange(start + 12, start + 20));
        }
        let id: u64 = read_be(self.data.as_slice(), start, start + 8);
        let payload_len: u64 = read_be(self.data.as_slice(), start + 8, start + 12);
        let sum: u64 = read_be(self.data.as_slice(), start + 12, start + 20);
        Ok(Some(Header { id: EntryId(id), payload_len: payload_len as usize, checksum: sum }))
    }

    /// Move past the frame at the cursor, whose header says `payload_len`.
    fn consume_payload(&mut self, payload_len: usize) -> (r: Result<(), ScanError>)
        requires
            old(self)@.wf(),
            payload_len <= u32::MAX,
            old(self)@.cursor + HEADER_LEN <= old(self)@.data.len(),
        ensures
            final(self)@.wf(),
            ({
                let end = old(self)@.cursor + HEADER_LEN + payload_len;
                if end <= old(self)@.data.len() {
                    r == Ok::<(), ScanError>(()) && final(self)@ == old(self)@.at(end)
                } else {
                    &&& r == Err::<(), ScanError>(ScanError::Truncated {
                        offset: old(self)@.position,
                    })
                    &&& final(self)@ == old(self)@.exhausted()
                }
            }),
    {
        let available: usize = self.data.len() - self.cursor - HEADER_LEN;
        if available < payload_len {
            self.cursor = self.data.len();
            return Err(ScanError::Truncated { offset: self.position });
        }
        self.cursor = self.cursor + HEADER_LEN + payload_len;
        self.position = self.cursor as u64;
        Ok(())
    }

    /// Read the next frame header and return a streaming [`FrameReader`] for
    /// the payload. `None` at the end of the file, `Truncated` on a partial
    /// header. The scanner moves past the frame.
    pub fn read(&mut self) -> (r: Result<Option<FrameReader<'_>>, ScanError>)
        requires
            old(self)@.wf(),
        ensures
            final(self)@.wf(),
            match raw_frame_at(old(self)@.data, old(self)@.cursor) {
                RawFrame::End => {
                    &&& r matches Ok(None)
                    &&& final(self)@ == old(self)@
                },
                RawFrame::TornHeader => {
                    &&& r matches Err(ScanError::Truncated { offset })
                    &&& offset == old(self)@.position
                    &&& final(self)@ == old(self)@.exhausted()
                },
                RawFrame::TornPayload { id, payload_len } => {
                    let (data, pos) = (old(self)@.data, old(self)@.cursor);
                    &&& r matches Ok(Some(reader))
                    &&& reader@ == (ReaderView {
                        id,
                        start: pos,
                        rest: data.subrange(pos + HEADER_LEN, data.len() as int),
                        remaining: payload_len,
                    })
                    &&& final(self)@.data == data
                    &&& final(self)@.cursor == data.len()
                    &&& final(self)@.position == pos + HEADER_LEN + payload_len
                },
                RawFrame::Whole(f) => {
                    &&& r matches Ok(Some(reader))
                    &&& reader@ == (ReaderView {
                        id: f.id,
                        start: f.start,
                        rest: f.payload,
                        remaining: f.payload.len(),
                    })
                    &&& final(self)@ == old(self)@.at(f.end())
                },
            },
    {
        let header = match self.peek_header() {
            Err(e) => return Err(e),
            Ok(None) => return Ok(None),
            Ok(Some(h)) => h,
        };
        let start: usize = self.cursor;
        assert(start + HEADER_LEN <= self.data.len());
        let from: usize = start + HEADER_LEN;
        let to: usize = if self.data.len() - from < header.payload_len {
            self.data.len()
        } else {
            from + header.payload_len
        };
        let frame_start: u64 = self.position;
        self.cursor = to;
        self.position = frame_start + HEADER_LEN as u64 + header.payload_len as u64;
        Ok(
            Some(
                FrameReader {
                    id: header.id,
                    frame_start,
                    rest: slice_subrange(self.data.as_slice(), from, to),
                    remaining: header.payload_len,
                },
            ),
        )
    }

    /// Read the next frame, verify its checksum, and discard the payload.
    /// Returns the frame's id and start offset, `None` at the end of the file.
    pub fn check(&mut self) -> (r: Result<Option<(EntryId, u64)>, ScanError>)
        requires
            old(self)@.wf(),
        ensures
            final(self)@.wf(),
            match raw_frame_at(old(self)@.data, old(self)@.cursor) {
                RawFrame::End => {
                    &&& r == Ok::<Option<(EntryId, u64)>, ScanError>(None)
                    &&& final(self)@ == old(self)@
                },
                RawFrame::Whole(f) => {
                    &&& final(self)@ == old(self)@.at(f.end())
                    &&& if intact(old(self)@.data, f) {
                        r == Ok::<_, ScanError>(Some((EntryId(f.id), f.start as u64)))
                    } else {
                        r == Err::<Option<(EntryId, u64)>, _>(
                            ScanError::ChecksumMismatch { offset: f.start as u64 },
                        )
                    }
                },
                _ => {
                    &&& r == Err::<Option<(EntryId, u64)>, _>(
                        ScanError::Truncated { offset: old(self)@.position },
                    )
                    &&& final(self)@ == old(self)@.exhausted()
                },
            },
    {
        let header = match self.peek_header() {
            Err(e) => return Err(e),
            Ok(None) => return Ok(None),
            Ok(Some(h)) => h,
        };
        let start: usize = self.cursor;
        let frame_start: u64 = self.position;
        match self.consume_payload(header.payload_len) {
            Err(e) => return Err(e),
            Ok(()) => {},
        }
        let payload: &[u8] = slice_subrange(self.data.as_slice(), start + HEADER_LEN, self.cursor);
        if checksum(header.id, payload) != header.checksum {
            return Err(ScanError::ChecksumMismatch { offset: frame_start });
        }
        Ok(Some((header.id, frame_start)))
    }

    /// Scan all frames using [`check`](Self::check), recording every
    /// `stride`-th frame as an `(id, offset)` checkpoint.
    pub fn scan_all(&mut self, stride: u64) -> (s: ScanSummary)
        requires
            old(self)@.wf(),
            stride > 0,
        ensures
            final(self)@.wf(),
            ({
                let (data, pos) = (old(self)@.data, old(self)@.cursor);
                let fs = frames(data, pos);
                let end = frontier(data, pos);
                &&& final(self)@ == match s.status {
                    ScanStatus::Clean => old(self)@.moved(end),
                    ScanStatus::TornTail => old(self)@.moved(end).exhausted(),
                    ScanStatus::ChecksumCorrupt => old(self)@.at(
                        raw_frame_at(data, end)->Whole_0.end(),
                    ),
                }
                &&& s.count == fs.len()
                &&& s.checkpoints@ == checkpoints_of(fs, stride as nat)
                &&& s.last_id == if fs.len() == 0 {
                    None
                } else {
                    Some(EntryId(fs.last().id))
                }
                &&& s.next_offset == if fs.len() == 0 {
                    old(self)@.position as int
                } else {
                    end
                }
                &&& s.status == tail_status(data, pos)
            }),
    {
        let mut count: u64 = 0;
        let mut checkpoints: Vec<(EntryId, u64)> = Vec::new();
        let mut last_id: Option<EntryId> = None;
        let mut last_good: u64 = self.position;
        let ghost data = self@.data;
        let ghost pos = self@.cursor;
        let ghost mut done: Seq<Frame> = Seq::empty();
        assert(done + frames(data, pos) =~= frames(data, pos));
        loop
            invariant
                self@.wf(),
                self@.data == data,
                stride > 0,
                0 <= pos <= self@.cursor,
                count == done.len(),
                count <= self@.cursor - pos,
                checkpoints@ == checkpoints_of(done, stride as nat),
                frames(data, pos) == done + frames(data, self@.cursor),
                frontier(data, pos) == frontier(data, self@.cursor),
                tail_status(data, pos) == tail_status(data, self@.cursor),
                last_good == self@.position,
                done.len() == 0 ==> last_id is None && self@ == old(self)@ && pos
                    == self@.cursor,
                done.len() > 0 ==> last_id == Some(EntryId(done.last().id)) && self@.position
                    == self@.cursor,
                data == old(self)@.data,
                pos == old(self)@.cursor,
                self@ == old(self)@.moved(self@.cursor),
            decreases data.len() - self@.cursor,
        {
            match self.check() {
                Ok(None) => {
                    assert(frames(data, pos) =~= done);
                    return ScanSummary {
                        count,
                        checkpoints,
                        last_id,
                        next_offset: self.position(),
                        status: ScanStatus::Clean,
                    };
                },
                Ok(Some((id, frame_offset))) => {
                    proof {
                        let f = raw_frame_at(data, frame_offset as int)->Whole_0;
                        assert(done + (seq![f] + frames(data, f.end())) =~= done.push(f)
                            + frames(data, f.end()));
                        assert(done.push(f).drop_last() =~= done);
                        done = done.push(f);
                    }
                    if count % stride == 0 {
                        checkpoints.push((id, frame_offset));
                    }
                    last_id = Some(id);
                    count = count + 1;
                    last_good = self.position();
                },
                Err(ScanError::Truncated { .. }) => {
                    assert(frames(data, pos) =~= done);
                    return ScanSummary {
                        count,
                        checkpoints,
                        last_id,
                        next_offset: last_good,
                        status: ScanStatus::TornTail,
                    };
                },
                Err(ScanError::ChecksumMismatch { .. }) => {
                    assert(frames(data, pos) =~= done);
                    return ScanSummary {
                        count,
                        checkpoints,
                        last_id,
                        next_offset: last_good,
                        status: ScanStatus::ChecksumCorrupt,
                    };
                },
            }
        }
    }

    /// Move past the next frame. `false` at the end of the file.
    pub fn skip(&mut self) -> (r: Result<bool, ScanError>)
        requires
            old(self)@.wf(),
        ensures
            final(self)@.wf(),
            match raw_frame_at(old(self)@.data, old(self)@.cursor) {
                RawFrame::End => {
                    &&& r == Ok::<bool, ScanError>(false)
                    &&& final(self)@ == old(self)@
                },
                RawFrame::Whole(f) => {
                    &&& r == Ok::<bool, ScanError>(true)
                    &&& final(self)@ == old(self)@.at(f.end())
                },
                _ => {
                    &&& r == Err::<bool, _>(ScanError::Truncated { offset: old(self)@.position })
                    &&& final(self)@ == old(self)@.exhausted()
                },
            },
    {
        let header = match self.peek_header() {
            Err(e) => return Err(e),
            Ok(None) => return Ok(false),
            Ok(Some(h)) => h,
        };
        match self.consume_payload(header.payload_len) {
            Err(e) => Err(e),
            Ok(()) => Ok(true),
        }
    }

    /// Move past up to `n` frames; return how many there were.
    pub fn skip_n(&mut self, n: usize) -> (r: Result<usize, ScanError>)
        requires
            old(self)@.wf(),
        ensures
            final(self)@.wf(),
            match skip_frames(old(self)@.data, old(self)@.cursor, n as nat) {
                Ok((k, end)) => {
                    &&& r matches Ok(i)
                    &&& i == k
                    &&& final(self)@ == old(self)@.moved(end)
                },
                Err(p) => {
                    &&& r == Err::<usize, _>(ScanError::Truncated { offset: p as u64 })
                    &&& final(self)@ == old(self)@.at(p).exhausted()
                },
            },
    {
        let ghost data = self@.data;
        proof {
            lemma_skip_frames_forward(data, self@.cursor, n as nat);
        }
        let mut i: usize = 0;
        while i < n
            invariant
                i <= n,
                self@.wf(),
                data == old(self)@.data,
                old(self)@.wf(),
                old(self)@.cursor <= self@.cursor,
                self@ == old(self)@.moved(self@.cursor),
                match skip_frames(data, self@.cursor, (n - i) as nat) {
                    Ok((k, end)) => end >= self@.cursor && skip_frames(
                        data,
                        old(self)@.cursor,
                        n as nat,
                    ) == Ok::<(nat, int), int>((k + i as nat, end)),
                    Err(p) => p >= self@.cursor && skip_frames(data, old(self)@.cursor, n as nat)
                        == Err::<(nat, int), int>(p),
                },
            decreases n - i,
        {
            proof {
                lemma_skip_frames_forward(data, self@.cursor, (n - i) as nat);
                match raw_frame_at(data, self@.cursor) {
                    RawFrame::Whole(f) => {
                        lemma_skip_frames_forward(data, f.end(), (n - i - 1) as nat);
                    },
                    _ => {},
                }
            }
            match self.skip() {
                Err(e) => return Err(e),
                Ok(false) => return Ok(i),
                Ok(true) => {},
            }
            i = i + 1;
        }
        Ok(n)
    }

    /// Advance past all frames whose id is below `target`. The next
    /// [`read`](Self::read) returns the first frame with an id of at least
    /// `target`, or `None` if there is none.
    pub fn seek_to_id(&mut self, target: EntryId) -> (r: Result<(), ScanError>)
        requires
            old(self)@.wf(),
        ensures
            final(self)@.wf(),
            match seek(old(self)@.data, old(self)@.cursor, target.0) {
                Ok(p) => {
                    &&& r == Ok::<(), ScanError>(())
                    &&& final(self)@ == old(self)@.moved(p)
                },
                Err(p) => {
                    &&& r == Err::<(), _>(ScanError::Truncated { offset: p as u64 })
                    &&& final(self)@ == old(self)@.at(p).exhausted()
                },
            },
    {
        let ghost data = self@.data;
        loop
            invariant
                self@.wf(),
                data == old(self)@.data,
                old(self)@.wf(),
                old(self)@.cursor <= self@.cursor,
                self@ == old(self)@.moved(self@.cursor),
                seek(data, old(self)@.cursor, target.0) == seek(data, self@.cursor, target.0),
            decreases data.len() - self@.cursor,
        {
            let header = match self.peek_header() {
                Err(e) => return Err(e),
                Ok(None) => return Ok(()),
                Ok(Some(h)) => h,
            };
            if header.id.0 >= target.0 {
                return Ok(());
            }
            match self.consume_payload(header.payload_len) {
                Err(e) => return Err(e),
                Ok(()) => {},
            }
        }
    }

    /// Advance past the frame with id `target` and return the offset
    /// immediately after it.
    pub fn scan_to_after(&mut self, target: EntryId) -> (r: Result<u64, ScanError>)
        requires
            old(self)@.wf(),
        ensures
            final(self)@.wf(),
            match end_of_id(old(self)@.data, old(self)@.cursor, target.0) {
                Ok(p) => {
                    &&& r == Ok::<u64, ScanError>(p as u64)
                    &&& final(self)@ == old(self)@.at(p)
                },
                Err(p) => {
                    &&& r == Err::<u64, _>(
                        ScanError::Truncated { offset: old(self)@.moved(p).position },
                    )
                    &&& final(self)@ == old(self)@.moved(p).exhausted()
                },
            },
    {
        let ghost data = self@.data;
        loop
            invariant
                self@.wf(),
                data == old(self)@.data,
                old(self)@.wf(),
                old(self)@.cursor <= self@.cursor,
                self@ == old(self)@.moved(self@.cursor),
                end_of_id(data, old(self)@.cursor, target.0) == end_of_id(
                    data,
                    self@.cursor,
                    target.0,
                ),
            decreases data.len() - self@.cursor,
        {
            let header = match self.peek_header() {
                Err(e) => return Err(e),
                Ok(None) => return Err(ScanError::Truncated { offset: self.position }),
                Ok(Some(h)) => h,
            };
            match self.consume_payload(header.payload_len) {
                Err(e) => return Err(e),
                Ok(()) => {},
            }
            if header.id == target {
                return Ok(self.position);
            }
        }
    }
}

proof fn lemma_skip_frames_forward(data: Seq<u8>, pos: int, n: nat)
    requires
        0 <= pos,
    ensures
        match skip_frames(data, pos, n) {
            Ok((k, end)) => end >= pos && k <= n,
            Err(p) => p >= pos,
        },
    decreases n,
{
    if n > 0 {
        match raw_frame_at(data, pos) {
            RawFrame::Whole(f) => lemma_skip_frames_forward(data, f.end(), (n - 1) as nat),
            _ => {},
        }
    }
}

// ── FrameReader ───────────────────────────────────────────────────────────────

/// What a [`FrameReader`] holds: the frame's id and start offset, the payload
/// bytes that the file still has for it, and the number that its header
/// promises.
pub ghost struct ReaderView {
    pub id: u64,
    pub start: int,
    pub rest: Seq<u8>,
    pub remaining: nat,
}

/// A streaming reader for a single frame's payload. Does not verify the
/// checksum; use [`FrameScanner::check`] for that.
pub struct FrameReader<'a> {
    id: EntryId,
    frame_start: u64,
    rest: &'a [u8],
    remaining: usize,
}

impl<'a> View for FrameReader<'a> {
    type V = ReaderView;

    closed spec fn view(&self) -> ReaderView {
        ReaderView {
            id: self.id.0,
            start: self.frame_start as int,
            rest: self.rest@,
            remaining: self.remaining as nat,
        }
    }
}

impl<'a> FrameReader<'a> {
    pub fn frame_start(&self) -> (p: u64)
        ensures
            p == self@.start,
    {
        self.frame_start
    }

    pub fn id(&self) -> (id: EntryId)
        ensures
            id.0 == self@.id,
    {
        self.id
    }

    /// Copy payload bytes into `buf` and return how many. 0 once the payload is
    /// used up; `UnexpectedEof` if the file ends before it is.
    pub fn read(&mut self, buf: &mut [u8]) -> (r: Result<usize, IoFault>)
        ensures
            final(buf)@.len() == old(buf)@.len(),
            ({
                let wanted = if old(self)@.remaining <= old(buf)@.len() {
                    old(self)@.remaining
                } else {
                    old(buf)@.len()
                };
                let n = if wanted <= old(self)@.rest.len() {
                    wanted
                } else {
                    old(self)@.rest.len()
                };
                if old(self)@.remaining > 0 && n == 0 {
                    &&& r == Err::<usize, _>(IoFault::UnexpectedEof)
                    &&& final(self)@ == old(self)@
                    &&& final(buf)@ == old(buf)@
                } else {
                    &&& r matches Ok(k)
                    &&& k == n
                    &&& final(self)@ == (ReaderView {
                        rest: old(self)@.rest.skip(n as int),
                        remaining: (old(self)@.remaining - n) as nat,
                        ..old(self)@
                    })
                    &&& final(buf)@ == old(self)@.rest.take(n as int) + old(buf)@.skip(n as int)
                }
            }),
    {
        if self.remaining == 0 {
            assert(self.rest@.skip(0) =~= self.rest@);
            assert(buf@ =~= self.rest@.take(0) + buf@.skip(0));
            return Ok(0);
        }
        let wanted: usize = if self.remaining <= buf.len() {
            self.remaining
        } else {
            buf.len()
        };
        let n: usize = if wanted <= self.rest.len() {
            wanted
        } else {
            self.rest.len()
        };
        if n == 0 {
            return Err(IoFault::UnexpectedEof);
        }
        let mut i: usize = 0;
        while i < n
            invariant
                i <= n <= self.rest@.len(),
                n <= buf@.len(),
                buf@.len() == old(buf)@.len(),
                buf@ =~= self.rest@.take(i as int) + old(buf)@.skip(i as int),
            decreases n - i,
        {
            buf[i] = self.rest[i];
            i = i + 1;
        }
        self.rest = slice_subrange(self.rest, n, self.rest.len());
        self.remaining = self.remaining - n;
        assert(self.rest@ =~= old(self)@.rest.skip(n as int));
        Ok(n)
    }

    /// Append the whole payload to `out` and return its length. If the file
    /// ends before the payload does, what there is of it is appended.
    pub fn read_to_end(&mut self, out: &mut Vec<u8>) -> (r: Result<usize, IoFault>)
        requires
            old(self)@.rest.len() <= old(self)@.remaining,
        ensures
            final(out)@ == old(out)@ + old(self)@.rest,
            final(self)@ == (ReaderView {
                rest: Seq::<u8>::empty(),
                remaining: (old(self)@.remaining - old(self)@.rest.len()) as nat,
                ..old(self)@
            }),
            if old(self)@.rest.len() == old(self)@.remaining {
                r matches Ok(n) && n == old(self)@.rest.len()
            } else {
                r == Err::<usize, _>(IoFault::UnexpectedEof)
            },
    {
        let n: usize = self.rest.len();
        out.extend_from_slice(self.rest);
        assert(out@ =~= old(out)@ + old(self)@.rest);
        self.rest = slice_subrange(self.rest, n, n);
        self.remaining = self.remaining - n;
        assert(self.rest@ =~= Seq::<u8>::empty());
        if self.remaining == 0 {
            Ok(n)
        } else {
            Err(IoFault::UnexpectedEof)
        }
    }
}

// ── ScanSummary ───────────────────────────────────────────────────────────────

#[derive(Debug, Clone, Copy, PartialEq, Eq, Structural)]
pub enum ScanStatus {
    Clean,
    TornTail,
    ChecksumCorrupt,
}

/// What a scan over all frames found.
pub struct ScanSummary {
    /// Number of clean frames read.
    pub count: u64,
    /// `(id, start offset)` of every `stride`-th frame, counted from 0.
    pub checkpoints: Vec<(EntryId, u64)>,
    /// Id of the last clean frame, or `None` if there is none.
    pub last_id: Option<EntryId>,
    /// Write frontier: the position after the last clean frame.
    pub next_offset: u64,
    pub status: ScanStatus,
}

} // verus!
