//! What the log is, and which of its entries a reader gives.

use vstd::prelude::*;

use crate::action;
use crate::format_laws;
use crate::frame::{self, ScanError};
use crate::log_laws;
use crate::reader;
use crate::reader_laws;
use crate::scanner_laws;
use crate::state::SegmentEntry;
use crate::store::{self, StoreError};
use crate::IoFault;

verus! {

// ── The log ───────────────────────────────────────────────────────────────────

/// Law: the log is the id and payload of every frame of every segment, frame after
/// frame and segment after segment.
pub proof fn law_log_is_all_frames_in_order(
    segments: Seq<SegmentEntry>,
    x: SegmentEntry,
    d: action::Disk,
)
    ensures
        log_laws::log_of(Seq::empty(), d).len() == 0,
        log_laws::log_of(segments.push(x), d) == log_laws::log_of(segments, d) + frame::frames(
            d.segments[x.id],
            8,
        ).map_values(|f: frame::Frame| (f.id, f.payload)),
{
    assert(segments.push(x).drop_last() =~= segments);
    let fs = frame::frames(d.segments[x.id], 8);
    assert(log_laws::entries_of(fs) =~= fs.map_values(|f: frame::Frame| (f.id, f.payload)));
}

/// Law: entries are written frame after frame.
pub proof fn law_entries_are_written_frame_by_frame(
    es: Seq<(u64, Seq<u8>)>,
    id: u64,
    payload: Seq<u8>,
)
    ensures
        log_laws::encode_all(Seq::empty()).len() == 0,
        log_laws::encode_all(es.push((id, payload))) == log_laws::encode_all(es)
            + frame::encode_frame(id, payload),
{
    assert(es.push((id, payload)).drop_last() =~= es);
}

/// Law: the entries from an id on, or up to one, are all those of the log with
/// such ids, in order.
pub proof fn law_entries_are_told_by_id(es: Seq<(u64, Seq<u8>)>, id: u64)
    ensures
        log_laws::entries_from(es, id) == es.filter(|e: (u64, Seq<u8>)| e.0 >= id),
        log_laws::entries_up_to(es, id) == es.filter(|e: (u64, Seq<u8>)| e.0 <= id),
    decreases es.len(),
{
    reveal(Seq::filter);
    if es.len() > 0 {
        law_entries_are_told_by_id(es.drop_last(), id);
    }
}

// ── Reading ───────────────────────────────────────────────────────────────────

/// Law: a scan gives the entries of the log whose ids are at least `from` and not
/// before the head, all of them, in order.
pub proof fn law_scan_gives_entries_not_before_the_head(
    s: store::StoreView,
    d: action::Disk,
    from: u64,
    steps: nat,
)
    requires
        log_laws::synced(s, d),
        steps >= reader_laws::steps_left(reader_laws::reader_of(s, from), d),
    ensures
        reader_laws::read_all(reader_laws::reader_of(s, from), d, steps) == log_laws::log_of(
            s.state.segments,
            d,
        ).filter(|e: (u64, Seq<u8>)| e.0 >= from && e.0 >= s.state.first_entry.0),
{
    let es = log_laws::log_of(s.state.segments, d);
    let at = reader::readable_from(s, from);
    reader_laws::law_scan_gives_the_log(s, d, from, steps);
    law_entries_are_told_by_id(es, at);
    lemma_same_entries(es, at, from, s.state.first_entry.0);
}

proof fn lemma_same_entries(es: Seq<(u64, Seq<u8>)>, at: u64, from: u64, head: u64)
    requires
        at == if from < head {
            head
        } else {
            from
        },
    ensures
        es.filter(|e: (u64, Seq<u8>)| e.0 >= at) == es.filter(
            |e: (u64, Seq<u8>)| e.0 >= from && e.0 >= head,
        ),
    decreases es.len(),
{
    reveal(Seq::filter);
    if es.len() > 0 {
        lemma_same_entries(es.drop_last(), at, from, head);
    }
}

/// Law: a segment that cannot be read, or does not begin as one, ends the reading.
/// At the first segment there is then nothing to read, at a later one it is an
/// error.
pub proof fn law_unreadable_segment_ends_the_reading(
    r: reader::StoreReaderView,
    contents: Result<Seq<u8>, IoFault>,
)
    requires
        r.phase is Opening,
        contents matches Ok(data) ==> !format_laws::begins_as_segment(data),
    ensures
        ({
            let (phase, result) = reader::supplied(r, contents);
            &&& phase is Done
            &&& r.phase->Opening_first ==> result is Ok
            &&& !r.phase->Opening_first ==> result == Err::<(), _>(
                StoreError::Io(
                    match contents {
                        Err(e) => e,
                        Ok(_) => IoFault::InvalidData,
                    },
                ),
            )
        }),
{
    if let Ok(data) = contents {
        format_laws::lemma_magic(data);
    }
}

/// Law: in a segment that is read, the reader goes on from the offset it was to
/// start from, past the frames with smaller ids. Where one of them is torn, there
/// is nothing to read at the first segment, and an error with its offset at a
/// later one. The frames passed over are returned.
pub proof fn law_reader_passes_smaller_ids(
    r: reader::StoreReaderView,
    data: Seq<u8>,
) -> (fs: Seq<frame::Frame>)
    requires
        r.phase is Opening,
        format_laws::begins_as_segment(data),
        r.phase->Opening_offset <= data.len() <= i64::MAX,
    ensures
        ({
            let offset = r.phase->Opening_offset as int;
            let (phase, result) = reader::supplied(r, Ok(data));
            let end = scanner_laws::chain_end(offset, fs);
            let next = frame::raw_frame_at(data, end);
            &&& scanner_laws::chain(data, offset, fs)
            &&& forall|i: int| 0 <= i < fs.len() ==> (#[trigger] fs[i]).id < r.from
            &&& match (phase, result) {
                (reader::PhaseView::Reading { segment, scanner }, Ok(_)) => {
                    &&& segment == r.phase->Opening_segment
                    &&& scanner.data == data
                    &&& scanner.cursor == end
                    &&& scanner.position == end
                    &&& {
                        ||| next is End
                        ||| next matches frame::RawFrame::Whole(f) && f.id >= r.from
                        ||| next matches frame::RawFrame::TornPayload { id, .. } && id >= r.from
                    }
                },
                (_, Err(e)) => {
                    &&& !r.phase->Opening_first
                    &&& e == StoreError::Scan(ScanError::Truncated { offset: end as u64 })
                    &&& next is TornHeader || (next matches frame::RawFrame::TornPayload { id, .. }
                        && id < r.from)
                },
                (reader::PhaseView::Done, Ok(_)) => {
                    &&& r.phase->Opening_first
                    &&& next is TornHeader || (next matches frame::RawFrame::TornPayload { id, .. }
                        && id < r.from)
                },
                _ => false,
            }
        }),
{
    format_laws::lemma_magic(data);
    let offset = r.phase->Opening_offset as int;
    let fs = scanner_laws::law_seek_passes_smaller_ids(data, offset, r.from);
    lemma_chain_within(data, offset, fs);
    fs
}

proof fn lemma_chain_within(data: Seq<u8>, pos: int, fs: Seq<frame::Frame>)
    requires
        0 <= pos <= data.len(),
        scanner_laws::chain(data, pos, fs),
    ensures
        pos <= scanner_laws::chain_end(pos, fs) <= data.len(),
        fs.len() > 0 ==> pos < scanner_laws::chain_end(pos, fs),
    decreases fs.len(),
{
    if fs.len() > 0 {
        let n = fs.len() - 1;
        let front = fs.drop_last();
        assert forall|i: int| 0 <= i < front.len() implies frame::raw_frame_at(
            data,
            (#[trigger] front[i]).start,
        ) == frame::RawFrame::Whole(front[i]) by {
            assert(front[i] == fs[i]);
        }
        assert forall|i: int, j: int| 0 <= i && j == i + 1 && j < front.len() implies (
        #[trigger] front[j]).start == (#[trigger] front[i]).end() by {
            assert(front[j] == fs[j] && front[i] == fs[i]);
        }
        lemma_chain_within(data, pos, front);
        assert(frame::raw_frame_at(data, fs[n].start) == frame::RawFrame::Whole(fs[n]));
        if n > 0 {
            assert(fs[n].start == fs[n - 1].end());
            assert(front.last() == fs[n - 1]);
        }
    }
}

/// Law: a reader that has read a segment to its end goes on to the one that
/// follows it, from its first frame, or is done after the last one.
pub proof fn law_reader_goes_on_to_the_next_segment(r: reader::StoreReaderView, k: int)
    requires
        r.exhausted(),
        store::distinct(r.segments),
        0 <= k < r.segments.len(),
        r.phase->Reading_segment == r.segments[k].id,
    ensures
        reader::advanced(r) == (reader::StoreReaderView {
            phase: if k + 1 < r.segments.len() {
                reader::PhaseView::Opening {
                    segment: r.segments[k + 1].id,
                    offset: 8,
                    first: false,
                }
            } else {
                reader::PhaseView::Done
            },
            ..r
        }),
{
    lemma_segment_after_place(r.segments, k);
}

proof fn lemma_segment_after_place(segments: Seq<SegmentEntry>, k: int)
    requires
        store::distinct(segments),
        0 <= k < segments.len(),
    ensures
        reader::segment_after(segments, segments[k].id) == if k + 1 < segments.len() {
            Some(segments[k + 1].id)
        } else {
            None
        },
    decreases k,
{
    if k > 0 {
        let rest = segments.skip(1);
        assert(segments[0].id != segments[k].id);
        assert(rest[k - 1] == segments[k]);
        assert forall|i: int, j: int| 0 <= i < j < rest.len() implies (#[trigger] rest[i]).id != (
        #[trigger] rest[j]).id by {
            assert(rest[i] == segments[i + 1] && rest[j] == segments[j + 1]);
        }
        lemma_segment_after_place(rest, k - 1);
    }
}

/// Law: a reader of a store without entries from an id on starts at its end, and
/// else at the nearest checkpoint, or where the first segment starts.
pub proof fn law_reader_starts_at_the_nearest_checkpoint(s: store::StoreView, from: u64)
    ensures
        ({
            let phase = reader::read_start(s, from);
            if s.last_entry_id matches Some(last) && from <= last.0 {
                &&& phase matches reader::PhaseView::Opening { segment, offset, first }
                &&& first
                &&& match crate::index::position_of(s.index, from) {
                    Some(p) => segment == p.segment && offset == p.byte_offset,
                    None => segment == s.state.segments[0].id && offset == 8,
                }
            } else {
                phase is Done
            }
        }),
{
}

} // verus!
