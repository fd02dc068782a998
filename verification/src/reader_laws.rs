//! What a reader of the log promises.

use vstd::prelude::*;

use crate::action;
use crate::files::{self, MAGIC_LEN, SEGMENT_MAGIC};
use crate::frame;
use crate::frame_laws;
use crate::index;
use crate::log_laws;
use crate::manifest_laws;
use crate::op_laws;
use crate::open;
use crate::open_laws;
use crate::reader;
use crate::scan;
use crate::state::{self, SegmentEntry};
use crate::store::{self, StoreError};
use crate::truncate_end_laws;
use crate::truncate_laws;
use crate::{EntryId, IoFault, SegmentId};

verus! {

// ── What is left to read ──────────────────────────────────────────────────────

/// The segments after the first one with `id`.
pub open spec fn rest_after(segments: Seq<SegmentEntry>, id: SegmentId) -> Seq<SegmentEntry>
    decreases segments.len(),
{
    if segments.len() == 0 {
        Seq::empty()
    } else if segments[0].id == id {
        segments.skip(1)
    } else {
        rest_after(segments.skip(1), id)
    }
}

/// The entries that a reader has not given yet.
pub open spec fn left(r: reader::StoreReaderView, d: action::Disk) -> Seq<(u64, Seq<u8>)> {
    match r.phase {
        reader::PhaseView::Done => Seq::empty(),
        reader::PhaseView::Opening { segment, offset, .. } => log_laws::entries_from(
            log_laws::entries_of(frame::frames(d.segments[segment], offset as int)),
            r.from,
        ) + log_laws::entries_from(log_laws::log_of(rest_after(r.segments, segment), d), r.from),
        reader::PhaseView::Reading { segment, scanner } => log_laws::entries_of(
            frame::frames(scanner.data, scanner.cursor),
        ) + log_laws::entries_from(log_laws::log_of(rest_after(r.segments, segment), d), r.from),
    }
}

/// The ids of frames go up.
pub open spec fn frames_increase(fs: Seq<frame::Frame>) -> bool {
    forall|a: int, b: int| 0 <= a < b < fs.len() ==> (#[trigger] fs[a]).id < (#[trigger] fs[b]).id
}

/// The segment is one of `segments`.
pub open spec fn listed(segments: Seq<SegmentEntry>, id: SegmentId) -> bool {
    exists|k: int| 0 <= k < segments.len() && (#[trigger] segments[k]).id == id
}

/// The reader stands between frames of one of the segments, all of which are
/// sound and in order.
pub open spec fn on_track(r: reader::StoreReaderView, d: action::Disk) -> bool {
    &&& store::distinct(r.segments)
    &&& forall|i: int|
        0 <= i < r.segments.len() ==> log_laws::sound(d.segments[(#[trigger] r.segments[i]).id])
            && frames_increase(log_laws::segment_frames(d, r.segments[i].id))
    &&& match r.phase {
        reader::PhaseView::Done => true,
        reader::PhaseView::Opening { segment, offset, .. } => {
            &&& listed(r.segments, segment)
            &&& frame_laws::clean(d.segments[segment], offset as int)
            &&& frames_increase(frame::frames(d.segments[segment], offset as int))
        },
        reader::PhaseView::Reading { segment, scanner } => {
            &&& listed(r.segments, segment)
            &&& scanner.data == d.segments[segment]
            &&& scanner.wf()
            &&& frame_laws::clean(scanner.data, scanner.cursor)
        },
    }
}

proof fn lemma_rest_after_place(segments: Seq<SegmentEntry>, k: int)
    requires
        store::distinct(segments),
        0 <= k < segments.len(),
    ensures
        rest_after(segments, segments[k].id) == segments.skip(k + 1),
    decreases k,
{
    if k > 0 {
        let rest = segments.skip(1);
        assert(segments[0].id != segments[k].id);
        assert(rest[k - 1] == segments[k]);
        assert forall|i: int, j: int| 0 <= i < j < rest.len() implies (#[trigger] rest[i]).id != (
        #[trigger] rest[j]).id by {
            assert(rest[i] == segments[i + 1] && rest[j] == segments[j + 1]);
        }
        lemma_rest_after_place(rest, k - 1);
        assert(rest.skip(k) =~= segments.skip(k + 1));
    }
}

proof fn lemma_segment_after(segments: Seq<SegmentEntry>, id: SegmentId)
    ensures
        reader::segment_after(segments, id) == if rest_after(segments, id).len() > 0 {
            Some(rest_after(segments, id)[0].id)
        } else {
            None
        },
    decreases segments.len(),
{
    if segments.len() > 0 {
        lemma_segment_after(segments.skip(1), id);
    }
}

/// The log of some segments starts with the frames of the first one.
proof fn lemma_log_first(segments: Seq<SegmentEntry>, d: action::Disk)
    requires
        segments.len() > 0,
    ensures
        log_laws::log_of(segments, d) == log_laws::entries_of(
            log_laws::segment_frames(d, segments[0].id),
        ) + log_laws::log_of(
            segments.skip(1),
            d,
        ),
{
    let one = seq![segments[0]];
    assert(segments =~= one + segments.skip(1));
    log_laws::lemma_log_split(one, segments.skip(1), d);
    assert(one.drop_last() =~= Seq::<SegmentEntry>::empty());
    reveal_with_fuel(log_laws::log_of, 2);
    assert(
        log_laws::log_of(one, d) =~= log_laws::entries_of(
            log_laws::segment_frames(d, segments[0].id),
        )
    );
}

// ── Frames ────────────────────────────────────────────────────────────────────

/// Reading on from frame `j` gives that frame and those after it.
pub proof fn lemma_frames_from(data: Seq<u8>, pos: int, j: int)
    requires
        frame_laws::clean(data, pos),
        0 <= j < frame::frames(data, pos).len(),
    ensures
        ({
            let start = frame::frames(data, pos)[j].start;
            &&& pos <= start <= data.len()
            &&& frame_laws::clean(data, start)
            &&& frame::frames(data, start) == frame::frames(data, pos).skip(j)
        }),
    decreases j,
{
    let fs = frame::frames(data, pos);
    let f = frame::raw_frame_at(data, pos)->Whole_0;
    let rest = frame::frames(data, f.end());
    assert(fs =~= seq![f] + rest);
    if j > 0 {
        assert(fs[j] == rest[j - 1]);
        lemma_frames_from(data, f.end(), j - 1);
        assert(rest.skip(j - 1) =~= fs.skip(j));
    } else {
        assert(fs.skip(0) =~= fs);
    }
}

/// Passing over the frames below `from` leaves the entries from it on.
#[verifier::spinoff_prover]
proof fn lemma_below(fs: Seq<frame::Frame>, from: u64)
    requires
        frames_increase(fs),
    ensures
        frame_laws::count_below(fs, from) <= fs.len(),
        log_laws::entries_from(log_laws::entries_of(fs), from) == log_laws::entries_of(
            fs.skip(frame_laws::count_below(fs, from) as int),
        ),
    decreases fs.len(),
{
    let es = log_laws::entries_of(fs);
    if fs.len() == 0 || fs[0].id >= from {
        assert forall|i: int| 0 <= i < es.len() implies (#[trigger] es[i]).0 >= from by {
            if i > 0 {
                assert(fs[0].id < fs[i].id);
            }
        }
        log_laws::lemma_from_all(es, from);
        assert(fs.skip(0) =~= fs);
    } else {
        let rest = fs.skip(1);
        assert forall|a: int, b: int| 0 <= a < b < rest.len() implies (#[trigger] rest[a]).id < (
        #[trigger] rest[b]).id by {
            assert(rest[a] == fs[a + 1] && rest[b] == fs[b + 1]);
        }
        lemma_below(rest, from);
        let one = seq![es[0]];
        assert(es =~= one + log_laws::entries_of(rest));
        log_laws::lemma_from_concat(one, log_laws::entries_of(rest), from);
        assert forall|i: int| 0 <= i < one.len() implies (#[trigger] one[i]).0 < from by {
            assert(one[i] == es[0]);
        }
        log_laws::lemma_from_none(one, from);
        let k = frame_laws::count_below(rest, from) as int;
        assert(rest.skip(k) =~= fs.skip(k + 1));
        assert(
            log_laws::entries_from(es, from) =~= log_laws::entries_from(
                log_laws::entries_of(rest),
                from,
            )
        );
    }
}

// ── Laws of a reader ──────────────────────────────────────────────────────────

/// Law: going on to the next segment skips nothing.
#[verifier::spinoff_prover]
pub proof fn law_advancing_skips_nothing(r: reader::StoreReaderView, d: action::Disk)
    requires
        on_track(r, d),
    ensures
        on_track(reader::advanced(r), d),
        left(reader::advanced(r), d) == left(r, d),
{
    if r.exhausted() {
        let id = r.phase->Reading_segment;
        let scanner = r.phase->Reading_scanner;
        let rest = rest_after(r.segments, id);
        lemma_segment_after(r.segments, id);
        let k = choose|k: int| 0 <= k < r.segments.len() && (#[trigger] r.segments[k]).id == id;
        lemma_rest_after_place(r.segments, k);
        assert(frame::raw_frame_at(scanner.data, scanner.cursor) is End);
        assert(
            log_laws::entries_of(frame::frames(scanner.data, scanner.cursor))
                =~= Seq::<(u64, Seq<u8>)>::empty()
        );
        if rest.len() > 0 {
            let next = rest[0].id;
            assert(rest[0] == r.segments[k + 1]);
            assert(listed(r.segments, next));
            lemma_rest_after_place(r.segments, k + 1);
            assert(rest.skip(1) =~= r.segments.skip(k + 2));
            lemma_log_first(rest, d);
            log_laws::lemma_from_concat(
                log_laws::entries_of(log_laws::segment_frames(d, next)),
                log_laws::log_of(rest.skip(1), d),
                r.from,
            );
            assert(log_laws::sound(d.segments[r.segments[k + 1].id]));
            assert(left(reader::advanced(r), d) =~= left(r, d));
        } else {
            assert(left(r, d) =~= Seq::<(u64, Seq<u8>)>::empty());
        }
    }
}

/// Law: a reader that is given the segment it waits for reads on, and neither
/// skips nor repeats an entry.
pub proof fn law_supplying_skips_nothing(r: reader::StoreReaderView, d: action::Disk)
    requires
        on_track(r, d),
        r.phase is Opening,
    ensures
        ({
            let (phase, result) = reader::supplied(r, Ok(d.segments[r.phase->Opening_segment]));
            let t = reader::StoreReaderView { phase, ..r };
            &&& result == Ok::<(), StoreError>(())
            &&& phase is Reading
            &&& on_track(t, d)
            &&& left(t, d) == left(r, d)
        }),
{
    let id = r.phase->Opening_segment;
    let offset = r.phase->Opening_offset;
    let data = d.segments[id];
    let k = choose|k: int| 0 <= k < r.segments.len() && (#[trigger] r.segments[k]).id == id;
    assert(log_laws::sound(d.segments[r.segments[k].id]));
    assert(files::opened(Ok(data), SEGMENT_MAGIC) == Ok::<Seq<u8>, IoFault>(data));
    frame_laws::lemma_seek_in_clean(data, offset as int, r.from);
    lemma_below(frame::frames(data, offset as int), r.from);
}

/// Law: the next entry that a reader gives is the first one of those that are
/// left, id and payload, and it gives none exactly where none is left.
pub proof fn law_next_is_the_first_left(r: reader::StoreReaderView, d: action::Disk)
    requires
        on_track(r, d),
        r.ready(),
    ensures
        r.phase is Done <==> left(r, d).len() == 0,
        r.phase matches reader::PhaseView::Reading { segment, scanner } ==> {
            &&& frame::raw_frame_at(scanner.data, scanner.cursor) matches frame::RawFrame::Whole(f)
            &&& left(r, d)[0] == (f.id, f.payload)
            &&& ({
                let t = reader::StoreReaderView {
                    phase: reader::PhaseView::Reading { segment, scanner: scanner.at(f.end()) },
                    ..r
                };
                on_track(t, d) && left(t, d) == left(r, d).skip(1)
            })
        },
{
    match r.phase {
        reader::PhaseView::Reading { segment, scanner } => {
            let f = frame::raw_frame_at(scanner.data, scanner.cursor)->Whole_0;
            let rest = frame::frames(scanner.data, f.end());
            let fs = frame::frames(scanner.data, scanner.cursor);
            assert(fs =~= seq![f] + rest);
            let t = reader::StoreReaderView {
                phase: reader::PhaseView::Reading { segment, scanner: scanner.at(f.end()) },
                ..r
            };
            assert(
                log_laws::entries_of(fs) =~= seq![(f.id, f.payload)] + log_laws::entries_of(rest)
            );
            assert(left(r, d)[0] == log_laws::entries_of(fs)[0]);
            assert(left(t, d) =~= left(r, d).skip(1));
        },
        _ => {},
    }
}

// ── Reading to the end ────────────────────────────────────────────────────────

/// One step of a reader: it goes on to the next segment, is given one, or gives
/// an entry.
pub open spec fn read_step(r: reader::StoreReaderView, d: action::Disk) -> (
    reader::StoreReaderView,
    Option<(u64, Seq<u8>)>,
) {
    if r.exhausted() {
        (reader::advanced(r), None)
    } else {
        match r.phase {
            reader::PhaseView::Done => (r, None),
            reader::PhaseView::Opening { segment, .. } => (
                reader::StoreReaderView { phase: reader::supplied(r, Ok(d.segments[segment])).0, ..r },
                None,
            ),
            reader::PhaseView::Reading { segment, scanner } => match frame::raw_frame_at(
                scanner.data,
                scanner.cursor,
            ) {
                frame::RawFrame::Whole(f) => (
                    reader::StoreReaderView {
                        phase: reader::PhaseView::Reading { segment, scanner: scanner.at(f.end()) },
                        ..r
                    },
                    Some((f.id, f.payload)),
                ),
                _ => (reader::StoreReaderView { phase: reader::PhaseView::Done, ..r }, None),
            },
        }
    }
}

/// The entries that a reader gives in its next `steps` steps, on a file system
/// on which nothing fails.
pub open spec fn read_all(
    r: reader::StoreReaderView,
    d: action::Disk,
    steps: nat,
) -> Seq<(u64, Seq<u8>)>
    decreases steps,
{
    if steps == 0 {
        Seq::empty()
    } else {
        let (t, entry) = read_step(r, d);
        let rest = read_all(t, d, (steps - 1) as nat);
        match entry {
            None => rest,
            Some(e) => seq![e] + rest,
        }
    }
}

/// How many steps a reader takes to the end.
pub open spec fn steps_left(r: reader::StoreReaderView, d: action::Disk) -> nat {
    left(r, d).len() + match r.phase {
        reader::PhaseView::Done => 0,
        reader::PhaseView::Opening { segment, .. } => 2 * rest_after(r.segments, segment).len() + 2,
        reader::PhaseView::Reading { segment, .. } => 2 * rest_after(r.segments, segment).len() + 1,
    }
}

/// Law: a reader gives all the entries that are left, in order, and no others.
#[verifier::spinoff_prover]
pub proof fn law_reader_gives_what_is_left(r: reader::StoreReaderView, d: action::Disk, steps: nat)
    requires
        on_track(r, d),
        steps >= steps_left(r, d),
    ensures
        read_all(r, d, steps) == left(r, d),
    decreases steps,
{
    if steps > 0 {
        let (t, entry) = read_step(r, d);
        if r.exhausted() {
            let id = r.phase->Reading_segment;
            law_advancing_skips_nothing(r, d);
            lemma_segment_after(r.segments, id);
            if t.phase is Opening {
                let k = choose|k: int|
                    0 <= k < r.segments.len() && (#[trigger] r.segments[k]).id == id;
                lemma_rest_after_place(r.segments, k);
                lemma_rest_after_place(r.segments, k + 1);
                assert(rest_after(r.segments, id)[0] == r.segments[k + 1]);
            }
            law_reader_gives_what_is_left(t, d, (steps - 1) as nat);
        } else if r.phase is Opening {
            law_supplying_skips_nothing(r, d);
            law_reader_gives_what_is_left(t, d, (steps - 1) as nat);
        } else {
            law_next_is_the_first_left(r, d);
            law_reader_gives_what_is_left(t, d, (steps - 1) as nat);
            if r.phase is Reading {
                assert(seq![left(r, d)[0]] + left(r, d).skip(1) =~= left(r, d));
            }
        }
    }
}

// ── Where a reader starts ─────────────────────────────────────────────────────

/// Law: the last entry that the store knows ends the log, where the log has
/// entries.
pub proof fn law_last_entry_ends_the_log(s: store::StoreView, d: action::Disk)
    requires
        log_laws::synced(s, d),
        log_laws::log_of(s.state.segments, d).len() > 0,
    ensures
        s.last_entry_id == Some(EntryId(log_laws::log_of(s.state.segments, d).last().0)),
{
    let segs = s.state.segments;
    let n = segs.len() as int;
    let fs = log_laws::segment_frames(d, segs.last().id);
    if fs.len() > 0 {
        op_laws::lemma_last_frames_in_log(segs, d, fs.len() - 1);
    } else {
        let front = segs.drop_last();
        assert(log_laws::log_of(segs, d) =~= log_laws::log_of(front, d));
        assert(n > 1);
        assert(front.last() == segs[n - 2]);
        assert(log_laws::seal_ok(d.segments[segs[n - 2].id], s.state.seals[segs[n - 2].id]));
        let gs = log_laws::segment_frames(d, segs[n - 2].id);
        op_laws::lemma_last_frames_in_log(front, d, gs.len() - 1);
    }
}

/// The files of a store that agrees with them are sound and in order.
proof fn lemma_files_on_track(s: store::StoreView, d: action::Disk, from: u64)
    requires
        log_laws::synced(s, d),
    ensures
        on_track(
            reader::StoreReaderView { segments: s.state.segments, from, phase: reader::PhaseView::Done },
            d,
        ),
{
    let segs = s.state.segments;
    assert forall|i: int| 0 <= i < segs.len() implies log_laws::sound(
        d.segments[(#[trigger] segs[i]).id],
    )
        && frames_increase(log_laws::segment_frames(d, segs[i].id)) by {
        assert(log_laws::frames_between(
            log_laws::segment_frames(d, segs[i].id),
            segs[i].first_entry.0 as int,
            log_laws::upper(segs, i),
        ));
    }
}

/// The frames below `from` hold no entry from `from` on.
proof fn lemma_frames_before(fs: Seq<frame::Frame>, j: int, from: u64)
    requires
        frames_increase(fs),
        0 <= j < fs.len(),
        fs[j].id <= from,
    ensures
        log_laws::entries_from(log_laws::entries_of(fs), from) == log_laws::entries_from(
            log_laws::entries_of(fs.skip(j)),
            from,
        ),
        frames_increase(fs.skip(j)),
{
    let (head, tail) = (fs.take(j), fs.skip(j));
    let es = log_laws::entries_of(head);
    assert forall|i: int| 0 <= i < es.len() implies (#[trigger] es[i]).0 < from by {
        assert(es[i].0 == fs[i].id);
        assert(fs[i].id < fs[j].id);
    }
    log_laws::lemma_from_none(es, from);
    assert(log_laws::entries_of(fs) =~= es + log_laws::entries_of(tail));
    log_laws::lemma_from_concat(es, log_laws::entries_of(tail), from);
    assert(log_laws::entries_from(log_laws::entries_of(fs), from) =~= log_laws::entries_from(
        log_laws::entries_of(tail),
        from,
    ));
    assert forall|a: int, b: int| 0 <= a < b < tail.len() implies (#[trigger] tail[a]).id < (
    #[trigger] tail[b]).id by {
        assert(tail[a] == fs[a + j] && tail[b] == fs[b + j]);
    }
}

/// The log from `from` on, where the segment at place `m` does not start above
/// it.
#[verifier::spinoff_prover]
proof fn lemma_log_from_place(st: state::StateView, d: action::Disk, from: u64, m: int)
    requires
        log_laws::ordered(st, d),
        0 <= m < st.segments.len(),
        st.segments[m].first_entry.0 <= from,
    ensures
        log_laws::entries_from(log_laws::log_of(st.segments, d), from) == log_laws::entries_from(
            log_laws::entries_of(log_laws::segment_frames(d, st.segments[m].id)),
            from,
        ) + log_laws::entries_from(log_laws::log_of(st.segments.skip(m + 1), d), from),
{
    let segs = st.segments;
    let (a, b, c) = (segs.take(m), segs.skip(m), segs.skip(m + 1));
    let es = log_laws::entries_of(log_laws::segment_frames(d, segs[m].id));
    let (before, after) = (log_laws::log_of(a, d), log_laws::log_of(c, d));
    assert(log_laws::log_of(segs, d) == before + (es + after)) by {
        assert(segs =~= a + b);
        log_laws::lemma_log_split(a, b, d);
        lemma_log_first(b, d);
        assert(b.skip(1) =~= c);
    }
    assert(log_laws::entries_from(before, from) == Seq::<(u64, Seq<u8>)>::empty()) by {
        log_laws::lemma_log_ordered(st, d, m);
        assert forall|i: int| 0 <= i < before.len() implies (#[trigger] before[i]).0 < from by {
            assert(m > 0);
            assert(before[i].0 < log_laws::upper(segs, m - 1));
        }
        log_laws::lemma_from_none(before, from);
    }
    log_laws::lemma_from_concat(before, es + after, from);
    log_laws::lemma_from_concat(es, after, from);
    assert(log_laws::entries_from(log_laws::log_of(segs, d), from) =~= log_laws::entries_from(
        es,
        from,
    ) + log_laws::entries_from(after, from));
}

/// Reading from frame `j` of the segment at place `m` on, where that frame is
/// not above `from`, gives the entries of the log from `from` on.
proof fn lemma_read_from_frame(
    s: store::StoreView,
    d: action::Disk,
    from: u64,
    m: int,
    j: int,
    first: bool,
)
    requires
        log_laws::synced(s, d),
        0 <= m < s.state.segments.len(),
        0 <= j < log_laws::segment_frames(d, s.state.segments[m].id).len(),
        log_laws::segment_frames(d, s.state.segments[m].id)[j].id <= from,
    ensures
        ({
            let segs = s.state.segments;
            let r = reader::StoreReaderView {
                segments: segs,
                from,
                phase: reader::PhaseView::Opening {
                    segment: segs[m].id,
                    offset: log_laws::segment_frames(d, segs[m].id)[j].start as u64,
                    first,
                },
            };
            &&& on_track(r, d)
            &&& left(r, d) == log_laws::entries_from(log_laws::log_of(segs, d), from)
        }),
{
    let segs = s.state.segments;
    let fs = log_laws::segment_frames(d, segs[m].id);
    lemma_files_on_track(s, d, from);
    assert(log_laws::sound(d.segments[segs[m].id]) && frames_increase(
        log_laws::segment_frames(d, segs[m].id),
    ));
    assert(listed(segs, segs[m].id));
    lemma_frames_from(d.segments[segs[m].id], MAGIC_LEN as int, j);
    lemma_frames_before(fs, j, from);
    lemma_rest_after_place(segs, m);
    assert(segs[m].first_entry.0 <= fs[j].id) by {
        assert(log_laws::frames_between(
            fs,
            segs[m].first_entry.0 as int,
            log_laws::upper(segs, m),
        ));
    }
    lemma_log_from_place(s.state, d, from, m);
}

/// The reader that a scan of the store from `from` on starts with.
pub open spec fn reader_of(s: store::StoreView, from: u64) -> reader::StoreReaderView {
    reader::StoreReaderView {
        segments: s.state.segments,
        from: reader::readable_from(s, from),
        phase: reader::read_start(s, reader::readable_from(s, from)),
    }
}

/// Law: what a scan from `from` on has to give is the entries of the log from
/// there on, and from the head on where `from` is before it.
#[verifier::spinoff_prover]
pub proof fn law_scan_starts_with_the_log(s: store::StoreView, d: action::Disk, from: u64)
    requires
        log_laws::synced(s, d),
    ensures
        on_track(reader_of(s, from), d),
        left(reader_of(s, from), d) == log_laws::entries_from(
            log_laws::log_of(s.state.segments, d),
            reader::readable_from(s, from),
        ),
{
    let segs = s.state.segments;
    let at = reader::readable_from(s, from);
    let es = log_laws::log_of(segs, d);
    let r = reader_of(s, from);
    lemma_files_on_track(s, d, at);
    if es.len() > 0 {
        law_last_entry_ends_the_log(s, d);
    }
    match r.phase {
        reader::PhaseView::Done => {
            log_laws::law_log_ids_increase(s, d);
            assert forall|i: int| 0 <= i < es.len() implies (#[trigger] es[i]).0 < at by {
                if i < es.len() - 1 {
                    assert(es[i].0 < es[es.len() - 1].0);
                }
            }
            log_laws::lemma_from_none(es, at);
        },
        _ => match index::position_of(s.index, at) {
            Some(p) => {
                index::lemma_covering(s.index, at);
                let i = index::covering(s.index, at)->Some_0;
                let cs = s.index[i].1;
                index::lemma_count(cs, at as int);
                let n = index::count_at_most(cs, at as int);
                assert(log_laws::checkpoint_ok(segs, d, s.index[i].0, s.index[i].1[n - 1]));
                let m = choose|m: int|
                    0 <= m < segs.len() && (#[trigger] segs[m]).id == s.index[i].0;
                let fs = log_laws::segment_frames(d, segs[m].id);
                let j = choose|j: int|
                    0 <= j < fs.len() && (#[trigger] fs[j]).id == cs[n - 1].0.0 && fs[j].start
                        == cs[n - 1].1;
                lemma_read_from_frame(s, d, at, m, j, true);
            },
            None => {
                assert(listed(segs, segs[0].id));
                assert(log_laws::sound(d.segments[segs[0].id]));
                lemma_rest_after_place(segs, 0);
                lemma_log_first(segs, d);
                log_laws::lemma_from_concat(
                    log_laws::entries_of(log_laws::segment_frames(d, segs[0].id)),
                    log_laws::log_of(segs.skip(1), d),
                    at,
                );
            },
        },
    }
}

/// Law: a scan of a store from `from` on gives the entries of the log from there
/// on, in order.
pub proof fn law_scan_gives_the_log(s: store::StoreView, d: action::Disk, from: u64, steps: nat)
    requires
        log_laws::synced(s, d),
        steps >= steps_left(reader_of(s, from), d),
    ensures
        read_all(reader_of(s, from), d, steps) == log_laws::entries_from(
            log_laws::log_of(s.state.segments, d),
            reader::readable_from(s, from),
        ),
{
    law_scan_starts_with_the_log(s, d, from);
    law_reader_gives_what_is_left(reader_of(s, from), d, steps);
}

/// Law: entries that were written are read back. A scan after a write gives the
/// entries from `from` on, and those that were written come last, as they were
/// written.
pub proof fn law_written_entries_are_read_back(
    s: store::StoreView,
    d: action::Disk,
    es: Seq<(u64, Seq<u8>)>,
    from: u64,
    steps: nat,
)
    requires
        log_laws::synced(op_laws::unbuffered(s), d),
        s.active.pending == log_laws::encode_all(es),
        op_laws::can_follow(s, d, es),
        d.segments[s.active_id].len() + log_laws::encode_all(es).len() <= i64::MAX,
        s.state.cut_at is Some ==> d.manifest.len() + store::op_frame(store::go_on_op()).len()
            <= i64::MAX,
        s.rollover_pending ==> s.next_seg_id.0 < u32::MAX && d.manifest.len() + store::op_frame(
            store::roll_op(s, op_laws::batch_of(es).first),
        ).len() <= i64::MAX,
        ({
            let (s1, p1) = store::begin_write(s, op_laws::batch_of(es));
            let (t, e, _) = op_laws::run(s1, d, p1, 4);
            steps >= steps_left(reader_of(t, from), e)
        }),
    ensures
        ({
            let (s1, p1) = store::begin_write(s, op_laws::batch_of(es));
            let (t, e, _) = op_laws::run(s1, d, p1, 4);
            read_all(reader_of(t, from), e, steps) == log_laws::entries_from(
                log_laws::log_of(s.state.segments, d),
                reader::readable_from(s, from),
            ) + log_laws::entries_from(es, reader::readable_from(s, from))
        }),
{
    let (s1, p1) = store::begin_write(s, op_laws::batch_of(es));
    let (t, e, _) = op_laws::run(s1, d, p1, 4);
    op_laws::law_written_entries_end_the_log(s, d, es);
    law_scan_gives_the_log(t, e, from, steps);
    log_laws::lemma_from_concat(
        log_laws::log_of(s.state.segments, d),
        es,
        reader::readable_from(s, from),
    );
}

// ── Reading after other operations ────────────────────────────────────────────

/// Of the entries from `a` on, those from `b` on are those of all from the later
/// of the two on.
proof fn lemma_from_twice(es: Seq<(u64, Seq<u8>)>, a: u64, b: u64)
    requires
        a <= b,
    ensures
        log_laws::entries_from(log_laws::entries_from(es, a), b) == log_laws::entries_from(es, b),
    decreases es.len(),
{
    if es.len() > 0 {
        lemma_from_twice(es.drop_last(), a, b);
        let before = log_laws::entries_from(es.drop_last(), a);
        if es.last().0 >= a {
            assert(before.push(es.last()).drop_last() =~= before);
        }
    }
}

/// Law: once the head was advanced, entries before it are not read any more, and
/// those from it on are read as before.
pub proof fn law_entries_before_head_are_not_read(
    s: store::StoreView,
    d: action::Disk,
    first: EntryId,
    meta: Seq<(u8, Seq<u8>)>,
    from: u64,
    steps: nat,
)
    requires
        log_laws::synced(s, d),
        first.0 >= s.state.first_entry.0,
        manifest_laws::recordable(store::truncate_start_op(s.state, first, meta)),
        d.manifest.len() + store::op_frame(
            store::truncate_start_op(s.state, first, meta),
        ).len() <= i64::MAX,
        ({
            let (s1, p1) = store::begin_truncate_start(s, first, meta);
            let (t, e, _) = op_laws::run(s1, d, p1, 2);
            steps >= steps_left(reader_of(t, from), e)
        }),
    ensures
        ({
            let (s1, p1) = store::begin_truncate_start(s, first, meta);
            let (t, e, _) = op_laws::run(s1, d, p1, 2);
            read_all(reader_of(t, from), e, steps) == log_laws::entries_from(
                log_laws::log_of(s.state.segments, d),
                if from < first.0 {
                    first.0
                } else {
                    from
                },
            )
        }),
{
    let (s1, p1) = store::begin_truncate_start(s, first, meta);
    let (t, e, _) = op_laws::run(s1, d, p1, 2);
    truncate_laws::law_truncate_start_keeps_later_entries(s, d, first, meta);
    law_scan_gives_the_log(t, e, from, steps);
    let at = reader::readable_from(t, from);
    lemma_from_twice(log_laws::log_of(s.state.segments, d), first.0, at);
    lemma_from_twice(log_laws::log_of(t.state.segments, e), first.0, at);
}

/// Law: once the log was rolled back to an entry, nothing behind it is read any
/// more, and what is up to it is read as before.
pub proof fn law_entries_behind_cut_are_not_read(
    s: store::StoreView,
    d: action::Disk,
    last: EntryId,
    from: u64,
    steps: nat,
)
    requires
        log_laws::synced(s, d),
        exists|i: int|
            0 <= i < log_laws::log_of(s.state.segments, d).len() && (#[trigger] log_laws::log_of(
                s.state.segments,
                d,
            )[i]).0 == last.0,
        s.last_entry_id matches Some(id) && last.0 < id.0,
        truncate_end_laws::drop_record_limit(s.state.segments) <= u32::MAX,
        d.manifest.len() + truncate_end_laws::drop_record_limit(s.state.segments) <= i64::MAX,
        ({
            let (s1, p1) = store::begin_truncate_end(s, last);
            let (t, e, _) = op_laws::run(s1, d, p1, 4);
            steps >= steps_left(reader_of(t, from), e)
        }),
    ensures
        ({
            let (s1, p1) = store::begin_truncate_end(s, last);
            let (t, e, _) = op_laws::run(s1, d, p1, 4);
            read_all(reader_of(t, from), e, steps) == log_laws::entries_from(
                log_laws::entries_up_to(log_laws::log_of(s.state.segments, d), last.0),
                reader::readable_from(s, from),
            )
        }),
{
    let (s1, p1) = store::begin_truncate_end(s, last);
    let (t, e, _) = op_laws::run(s1, d, p1, 4);
    truncate_end_laws::law_truncate_end_keeps_earlier_entries(s, d, last);
    law_scan_gives_the_log(t, e, from, steps);
}

/// Law: a store that is closed and opened again reads as before.
pub proof fn law_reopened_store_reads_the_same(
    s: store::StoreView,
    d: action::Disk,
    ids: Seq<SegmentId>,
    trigger: u64,
    from: u64,
    steps: nat,
)
    requires
        log_laws::synced(s, d),
        open_laws::lists(ids, d),
        open::max_id(s.state) < u32::MAX,
        steps >= steps_left(reader_of(s, from), d),
        steps >= steps_left(
            reader_of(
                open::opened_store(trigger, scan::scan_of(open_laws::directory_of(d, ids))),
                from,
            ),
            d,
        ),
    ensures
        ({
            let t = open::opened_store(trigger, scan::scan_of(open_laws::directory_of(d, ids)));
            &&& read_all(reader_of(t, from), d, steps) == read_all(reader_of(s, from), d, steps)
            &&& log_laws::log_of(s.state.segments, d).len() > 0 ==> t.last_entry_id
                == s.last_entry_id
        }),
{
    let t = open::opened_store(trigger, scan::scan_of(open_laws::directory_of(d, ids)));
    open_laws::law_reopened_store_is_the_same(s.state, d, ids, trigger);
    law_scan_gives_the_log(s, d, from, steps);
    law_scan_gives_the_log(t, d, from, steps);
    if log_laws::log_of(s.state.segments, d).len() > 0 {
        law_last_entry_ends_the_log(s, d);
        law_last_entry_ends_the_log(t, d);
    }
}

} // verus!
