//! Reading the entries of a store.
//!
//! The reader decides which segment it needs next, the caller reads the file:
//! ask [`StoreReader::needs`], [`supply`](StoreReader::supply) what it asks for,
//! and take the [`next`](StoreReader::next) entry once it asks for nothing.

use vstd::prelude::*;

use crate::files::{self, MAGIC_LEN, SEGMENT_MAGIC};
use crate::frame::{self, FrameReader, FrameScanner, ScanError};
use crate::index;
use crate::state::SegmentEntry;
use crate::store::{self, Store, StoreError};
use crate::{EntryId, IoFault, SegmentId};

verus! {

/// A reader of a single entry's payload.
pub struct EntryReader<'a>(FrameReader<'a>);

impl<'a> View for EntryReader<'a> {
    type V = frame::ReaderView;

    closed spec fn view(&self) -> frame::ReaderView {
        self.0@
    }
}

impl<'a> EntryReader<'a> {
    /// Copy payload bytes into `buf` and return how many. 0 once the payload is
    /// used up; `UnexpectedEof` if the file ends before it is.
    pub fn read(&mut self, buf: &mut [u8]) -> (r: Result<usize, IoFault>)
        ensures
            final(buf)@.len() == old(buf)@.len(),
            ({
                let wanted = if old(self)@.remaining <= old(buf)@.len() {
                    old(self)@.remaining
                } else {
                    old(buf)@.len()
                };
                let n = if wanted <= old(self)@.rest.len() {
                    wanted
                } else {
                    old(self)@.rest.len()
                };
                if old(self)@.remaining > 0 && n == 0 {
                    &&& r == Err::<usize, _>(IoFault::UnexpectedEof)
                    &&& final(self)@ == old(self)@
                    &&& final(buf)@ == old(buf)@
                } else {
                    &&& r matches Ok(k)
                    &&& k == n
                    &&& final(self)@ == (frame::ReaderView {
                        rest: old(self)@.rest.skip(n as int),
                        remaining: (old(self)@.remaining - n) as nat,
                        ..old(self)@
                    })
                    &&& final(buf)@ == old(self)@.rest.take(n as int) + old(buf)@.skip(n as int)
                }
            }),
    {
        self.0.read(buf)
    }

    /// Append the whole payload to `out` and return its length. If the file
    /// ends before the payload does, what there is of it is appended.
    pub fn read_to_end(&mut self, out: &mut Vec<u8>) -> (r: Result<usize, IoFault>)
        requires
            old(self)@.rest.len() <= old(self)@.remaining,
        ensures
            final(out)@ == old(out)@ + old(self)@.rest,
            final(self)@ == (frame::ReaderView {
                rest: Seq::<u8>::empty(),
                remaining: (old(self)@.remaining - old(self)@.rest.len()) as nat,
                ..old(self)@
            }),
            if old(self)@.rest.len() == old(self)@.remaining {
                r matches Ok(n) && n == old(self)@.rest.len()
            } else {
                r == Err::<usize, _>(IoFault::UnexpectedEof)
            },
    {
        self.0.read_to_end(out)
    }
}

/// Where a reader is.
enum Phase {
    /// At the end.
    Done,
    /// About to read a segment from an offset on. It may be the first one.
    Opening { segment: SegmentId, offset: u64, first: bool },
    /// In a segment.
    Reading { segment: SegmentId, scanner: FrameScanner },
}

/// What a reader's phase amounts to.
#[verifier::ext_equal]
pub ghost enum PhaseView {
    Done,
    Opening { segment: SegmentId, offset: u64, first: bool },
    Reading { segment: SegmentId, scanner: frame::ScannerView },
}

/// A lending iterator over entries, obtained from [`Store::scan`].
pub struct StoreReader<'store> {
    store: &'store Store,
    from: EntryId,
    phase: Phase,
}

/// What a [`StoreReader`] holds: the live segments, the id to start from, and
/// where it is.
#[verifier::ext_equal]
pub ghost struct StoreReaderView {
    pub segments: Seq<SegmentEntry>,
    pub from: u64,
    pub phase: PhaseView,
}

impl<'store> View for StoreReader<'store> {
    type V = StoreReaderView;

    closed spec fn view(&self) -> StoreReaderView {
        StoreReaderView {
            segments: self.store@.state.segments,
            from: self.from.0,
            phase: match self.phase {
                Phase::Done => PhaseView::Done,
                Phase::Opening { segment, offset, first } => PhaseView::Opening {
                    segment,
                    offset,
                    first,
                },
                Phase::Reading { segment, scanner } => PhaseView::Reading {
                    segment,
                    scanner: scanner@,
                },
            },
        }
    }
}

impl StoreReaderView {
    pub open spec fn wf(self) -> bool {
        self.phase matches PhaseView::Reading { scanner, .. } ==> scanner.wf()
    }

    /// The segment being read has no bytes left.
    pub open spec fn exhausted(self) -> bool {
        self.phase matches PhaseView::Reading { scanner, .. } && scanner.cursor
            >= scanner.data.len()
    }

    /// The next entry can be taken without another segment.
    pub open spec fn ready(self) -> bool {
        !(self.phase is Opening) && !self.exhausted()
    }
}

/// Entries before the log head are not accessible.
pub open spec fn readable_from(s: store::StoreView, from: u64) -> u64 {
    if from < s.state.first_entry.0 {
        s.state.first_entry.0
    } else {
        from
    }
}

/// Where a reader of the entries from `from` on starts.
pub open spec fn read_start(s: store::StoreView, from: u64) -> PhaseView {
    let is_beyond = match s.last_entry_id {
        None => true,
        Some(last) => from > last.0,
    };
    if is_beyond {
        PhaseView::Done
    } else {
        match index::position_of(s.index, from) {
            Some(p) => PhaseView::Opening {
                segment: p.segment,
                offset: p.byte_offset,
                first: true,
            },
            None => PhaseView::Opening {
                segment: s.state.segments[0].id,
                offset: MAGIC_LEN as u64,
                first: true,
            },
        }
    }
}

/// The segment after the first one with `id`.
pub open spec fn segment_after(segments: Seq<SegmentEntry>, id: SegmentId) -> Option<SegmentId>
    decreases segments.len(),
{
    if segments.len() == 0 {
        None
    } else if segments[0].id == id {
        if segments.len() > 1 {
            Some(segments[1].id)
        } else {
            None
        }
    } else {
        segment_after(segments.skip(1), id)
    }
}

/// A reader that has read its segment to the end goes on to the next one.
pub open spec fn advanced(r: StoreReaderView) -> StoreReaderView {
    if r.exhausted() {
        StoreReaderView {
            phase: match segment_after(r.segments, r.phase->Reading_segment) {
                None => PhaseView::Done,
                Some(id) => PhaseView::Opening {
                    segment: id,
                    offset: MAGIC_LEN as u64,
                    first: false,
                },
            },
            ..r
        }
    } else {
        r
    }
}

/// What a reader that waits for a segment makes of its contents. A first segment
/// that cannot be read gives nothing, a later one an error.
pub open spec fn supplied(r: StoreReaderView, contents: Result<Seq<u8>, IoFault>) -> (
    PhaseView,
    Result<(), StoreError>,
)
    recommends
        r.phase is Opening,
{
    let (segment, first) = (r.phase->Opening_segment, r.phase->Opening_first);
    match files::opened(contents, SEGMENT_MAGIC) {
        Err(e) => (
            PhaseView::Done,
            if first {
                Ok(())
            } else {
                Err(StoreError::Io(e))
            },
        ),
        Ok(data) => {
            let scanner = store::scanner_at(data, r.phase->Opening_offset);
            match frame::seek(data, scanner.cursor, r.from) {
                Ok(p) => (PhaseView::Reading { segment, scanner: scanner.moved(p) }, Ok(())),
                Err(p) => if first {
                    (PhaseView::Done, Ok(()))
                } else {
                    (
                        PhaseView::Reading { segment, scanner: scanner.at(p).exhausted() },
                        Err(StoreError::Scan(ScanError::Truncated { offset: p as u64 })),
                    )
                },
            }
        },
    }
}

impl Store {
    /// Return a lending iterator over entries with id >= `from`. Entries before
    /// the log head are not accessible.
    pub fn scan(&self, from: u64) -> (r: StoreReader<'_>)
        requires
            store::consistent(self@),
        ensures
            r@ == (StoreReaderView {
                segments: self@.state.segments,
                from: readable_from(self@, from),
                phase: read_start(self@, readable_from(self@, from)),
            }),
            r@.wf(),
    {
        let head: u64 = self.first_entry_id();
        let from: u64 = if from < head {
            head
        } else {
            from
        };
        // If from is beyond last_entry_id (or the store is empty) yield nothing.
        let is_beyond = match self.last_entry_id() {
            None => true,
            Some(last) => from > last,
        };
        if is_beyond {
            return StoreReader { store: self, from: EntryId(from), phase: Phase::Done };
        }
        let (segment, offset) = self.scan_start(EntryId(from));
        StoreReader {
            store: self,
            from: EntryId(from),
            phase: Phase::Opening { segment, offset, first: true },
        }
    }

    fn scan_start(&self, from: EntryId) -> (r: (SegmentId, u64))
        requires
            store::consistent(self@),
        ensures
            match index::position_of(self@.index, from.0) {
                Some(p) => r == (p.segment, p.byte_offset),
                None => r == (self@.state.segments[0].id, MAGIC_LEN as u64),
            },
    {
        match self.index_find(from) {
            Some(pos) => (pos.segment, pos.byte_offset),
            None => {
                // No checkpoint covers from; start at the beginning of the first segment.
                assert(self@.state.is_live(self@.active_id));
                (self.state().segments()[0].id, MAGIC_LEN as u64)
            },
        }
    }

    /// The segment after `id`.
    fn segment_after(&self, id: SegmentId) -> (r: Option<SegmentId>)
        ensures
            r == segment_after(self@.state.segments, id),
    {
        let segs = self.state().segments();
        let ghost all = segs@;
        let mut i: usize = 0;
        assert(all.skip(0) =~= all);
        while i < segs.len()
            invariant
                i <= segs@.len(),
                all == segs@,
                all == self@.state.segments,
                segment_after(all, id) == segment_after(all.skip(i as int), id),
            decreases segs@.len() - i,
        {
            assert(all.skip(i as int).skip(1) =~= all.skip(i + 1));
            assert(all.skip(i as int)[0] == all[i as int]);
            if segs[i].id == id {
                return if i + 1 < segs.len() {
                    assert(all.skip(i as int)[1] == all[i + 1]);
                    Some(segs[i + 1].id)
                } else {
                    None
                };
            }
            i = i + 1;
        }
        None
    }
}

impl<'store> StoreReader<'store> {
    /// The segment that has to be [`supply`](Self::supply)ed before the
    /// [`next`](Self::next) entry, if any.
    pub fn needs(&mut self) -> (r: Option<SegmentId>)
        requires
            old(self)@.wf(),
        ensures
            final(self)@.wf(),
            final(self)@ == advanced(old(self)@),
            r == match final(self)@.phase {
                PhaseView::Opening { segment, .. } => Some(segment),
                _ => None,
            },
            r is None ==> final(self)@.ready(),
    {
        let finished = match &self.phase {
            Phase::Reading { segment, scanner } => if scanner.at_end() {
                Some(*segment)
            } else {
                None
            },
            _ => None,
        };
        match finished {
            Some(current) => {
                // Segment exhausted — advance to the next one.
                self.phase = match self.store.segment_after(current) {
                    None => Phase::Done,
                    Some(segment) => Phase::Opening {
                        segment,
                        offset: MAGIC_LEN as u64,
                        first: false,
                    },
                };
            },
            None => {},
        }
        match &self.phase {
            Phase::Opening { segment, .. } => Some(*segment),
            _ => None,
        }
    }

    /// Hand over the contents of the segment that the reader
    /// [`needs`](Self::needs).
    pub fn supply(&mut self, contents: Result<Vec<u8>, IoFault>) -> (r: Result<(), StoreError>)
        requires
            old(self)@.phase is Opening,
            contents matches Ok(data) ==> data@.len() <= i64::MAX,
        ensures
            final(self)@.wf(),
            ({
                let (phase, result) = supplied(old(self)@, files::contents_view(contents));
                &&& final(self)@ == (StoreReaderView { phase, ..old(self)@ })
                &&& r == result
            }),
    {
        let (segment, offset, first) = match &self.phase {
            Phase::Opening { segment, offset, first } => (*segment, *offset, *first),
            _ => {
                return Ok(());
            },
        };
        let data = match files::open_segment(contents) {
            Ok((data, _)) => data,
            Err(e) => {
                self.phase = Phase::Done;
                return if first {
                    Ok(())
                } else {
                    Err(StoreError::Io(e))
                };
            },
        };
        let mut scanner = FrameScanner::new(data, offset);
        assert(scanner@ =~= store::scanner_at(data@, offset));
        match scanner.seek_to_id(self.from) {
            Ok(()) => {
                self.phase = Phase::Reading { segment, scanner };
                Ok(())
            },
            Err(e) => {
                if first {
                    self.phase = Phase::Done;
                    Ok(())
                } else {
                    self.phase = Phase::Reading { segment, scanner };
                    Err(StoreError::Scan(e))
                }
            },
        }
    }

    /// The next entry, or `None` at the end. The payload is read from the entry
    /// reader.
    pub fn next(&mut self) -> (r: Option<Result<(u64, EntryReader<'_>), StoreError>>)
        requires
            old(self)@.wf(),
            old(self)@.ready(),
        ensures
            final(self)@.wf(),
            match old(self)@.phase {
                PhaseView::Reading { segment, scanner } => {
                    &&& final(self)@.segments == old(self)@.segments
                    &&& final(self)@.from == old(self)@.from
                    &&& final(self)@.phase is Reading
                    &&& final(self)@.phase->Reading_segment == segment
                    &&& match frame::raw_frame_at(scanner.data, scanner.cursor) {
                        frame::RawFrame::Whole(f) => {
                            &&& final(self)@.phase->Reading_scanner == scanner.at(f.end())
                            &&& r matches Some(Ok((id, entry)))
                            &&& id == f.id
                            &&& entry@ == (frame::ReaderView {
                                id: f.id,
                                start: f.start,
                                rest: f.payload,
                                remaining: f.payload.len(),
                            })
                        },
                        frame::RawFrame::TornPayload { id: torn, payload_len } => {
                            &&& final(self)@.phase->Reading_scanner == (frame::ScannerView {
                                data: scanner.data,
                                cursor: scanner.data.len() as int,
                                position: (scanner.cursor + crate::frame::HEADER_LEN
                                    + payload_len) as u64,
                            })
                            &&& r matches Some(Ok((id, entry)))
                            &&& id == torn
                            &&& entry@ == (frame::ReaderView {
                                id: torn,
                                start: scanner.cursor,
                                rest: scanner.data.subrange(
                                    scanner.cursor + crate::frame::HEADER_LEN,
                                    scanner.data.len() as int,
                                ),
                                remaining: payload_len,
                            })
                        },
                        _ => {
                            &&& final(self)@.phase->Reading_scanner == scanner.exhausted()
                            &&& r matches Some(Err(e))
                            &&& e == StoreError::Scan(
                                ScanError::Truncated { offset: scanner.position },
                            )
                        },
                    }
                },
                _ => r is None && final(self)@ == old(self)@,
            },
    {
        match &mut self.phase {
            Phase::Reading { scanner, .. } => match scanner.read() {
                Err(e) => Some(Err(StoreError::Scan(e))),
                Ok(Some(frame)) => {
                    let id: u64 = frame.id().0;
                    Some(Ok((id, EntryReader(frame))))
                },
                Ok(None) => None,
            },
            _ => None,
        }
    }
}

} // verus!
