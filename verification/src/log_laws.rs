//! What it means that a store and its files agree.

use vstd::prelude::*;

use crate::action;
use crate::files::{self, MAGIC_LEN, SEGMENT_MAGIC};
use crate::frame;
use crate::frame_laws;
use crate::index;
use crate::manifest_laws;
use crate::scan;
use crate::state::{self, SealInfo, SegmentEntry};
use crate::store;
use crate::{EntryId, SegmentId};

verus! {

// ── The log ───────────────────────────────────────────────────────────────────

/// Frames as entries: an id and a payload each.
pub open spec fn entries_of(fs: Seq<frame::Frame>) -> Seq<(u64, Seq<u8>)> {
    Seq::new(fs.len(), |i: int| (fs[i].id, fs[i].payload))
}

/// The frames of a segment file.
pub open spec fn segment_frames(d: action::Disk, id: SegmentId) -> Seq<frame::Frame> {
    frame::frames(d.segments[id], MAGIC_LEN as int)
}

/// The entries of the given segments, in order.
pub open spec fn log_of(segments: Seq<SegmentEntry>, d: action::Disk) -> Seq<(u64, Seq<u8>)>
    decreases segments.len(),
{
    if segments.len() == 0 {
        Seq::empty()
    } else {
        log_of(segments.drop_last(), d) + entries_of(segment_frames(d, segments.last().id))
    }
}

/// The entries with an id of at least `from`.
pub open spec fn entries_from(es: Seq<(u64, Seq<u8>)>, from: u64) -> Seq<(u64, Seq<u8>)>
    decreases es.len(),
{
    if es.len() == 0 {
        Seq::empty()
    } else {
        let before = entries_from(es.drop_last(), from);
        if es.last().0 >= from {
            before.push(es.last())
        } else {
            before
        }
    }
}

/// The entries with an id of at most `last`.
pub open spec fn entries_up_to(es: Seq<(u64, Seq<u8>)>, last: u64) -> Seq<(u64, Seq<u8>)>
    decreases es.len(),
{
    if es.len() == 0 {
        Seq::empty()
    } else {
        let before = entries_up_to(es.drop_last(), last);
        if es.last().0 <= last {
            before.push(es.last())
        } else {
            before
        }
    }
}

/// The bytes of entries, frame after frame.
pub open spec fn encode_all(es: Seq<(u64, Seq<u8>)>) -> Seq<u8>
    decreases es.len(),
{
    if es.len() == 0 {
        Seq::empty()
    } else {
        encode_all(es.drop_last()) + frame::encode_frame(es.last().0, es.last().1)
    }
}

/// Every payload's length fits its 32 bits.
pub open spec fn payloads_fit(es: Seq<(u64, Seq<u8>)>) -> bool {
    forall|i: int| 0 <= i < es.len() ==> (#[trigger] es[i]).1.len() <= u32::MAX
}

/// Ids go up.
pub open spec fn increasing(es: Seq<(u64, Seq<u8>)>) -> bool {
    forall|i: int, j: int| 0 <= i < j < es.len() ==> (#[trigger] es[i]).0 < (#[trigger] es[j]).0
}

// ── Files ─────────────────────────────────────────────────────────────────────

/// A segment file that holds nothing but valid frames.
pub open spec fn sound(data: Seq<u8>) -> bool {
    &&& files::has_magic(data, SEGMENT_MAGIC)
    &&& frame_laws::clean(data, MAGIC_LEN as int)
    &&& data.len() <= i64::MAX
}

/// A sealed segment file agrees with its seal, which counts frames in 32 bits.
pub open spec fn seal_ok(data: Seq<u8>, seal: SealInfo) -> bool {
    let fs = frame::frames(data, MAGIC_LEN as int);
    &&& seal.final_size == data.len()
    &&& fs.len() > 0
    &&& seal.last_entry.0 == fs.last().id
    &&& seal.entry_count == fs.len() as u32
}

/// The active segment ends where a rollback has cut it off, if one has.
pub open spec fn cut_off(st: state::StateView, d: action::Disk) -> bool {
    scan::size_limit(st, st.segments.last().id) matches Some(n)
        ==> d.segments[st.segments.last().id].len() <= n
}

/// The files are those that the state describes, and the active segment is cut
/// off as recorded.
pub open spec fn files_match(st: state::StateView, d: action::Disk) -> bool {
    files_fit(st, d) && cut_off(st, d)
}

/// The files are those that the state describes, but for a rollback that is not
/// completed: the manifest leads to the state, live segments are sound, all but
/// the last one, which is active, are sealed as recorded, and there are no other
/// files but those of dead segments.
pub open spec fn files_fit(st: state::StateView, d: action::Disk) -> bool {
    &&& manifest_laws::manifest_ok(st, d.manifest)
    &&& d.manifest.len() <= i64::MAX
    &&& st.segments.len() > 0
    &&& store::distinct(st.segments)
    &&& st.active == Some(st.segments.last().id)
    &&& forall|i: int|
        0 <= i < st.segments.len() ==> d.segments.contains_key((#[trigger] st.segments[i]).id)
            && sound(d.segments[st.segments[i].id])
    &&& forall|i: int|
        0 <= i < st.segments.len() ==> (st.seals.contains_key((#[trigger] st.segments[i]).id)
            <==> i < st.segments.len() - 1)
    &&& forall|i: int|
        0 <= i < st.segments.len() - 1 ==> seal_ok(
            d.segments[(#[trigger] st.segments[i]).id],
            st.seals[st.segments[i].id],
        )
    &&& forall|id: SegmentId| #[trigger] st.seals.contains_key(id) ==> st.is_live(id)
    &&& forall|id: SegmentId| #[trigger]
        d.segments.contains_key(id) <==> st.is_live(id) || st.dead.contains(id)
    &&& st.dead.no_duplicates()
    &&& forall|i: int| 0 <= i < st.dead.len() ==> !st.is_live(#[trigger] st.dead[i])
}

/// Where the ids of the segment at place `i` end: where the next one starts.
pub open spec fn upper(segments: Seq<SegmentEntry>, i: int) -> int {
    if i + 1 < segments.len() {
        segments[i + 1].first_entry.0 as int
    } else {
        0x1_0000_0000_0000_0000
    }
}

/// The ids of frames go up, from `lo` on and below `hi`.
pub open spec fn frames_between(fs: Seq<frame::Frame>, lo: int, hi: int) -> bool {
    &&& forall|i: int| 0 <= i < fs.len() ==> lo <= (#[trigger] fs[i]).id < hi
    &&& forall|i: int, j: int|
        0 <= i < j < fs.len() ==> (#[trigger] fs[i]).id < (#[trigger] fs[j]).id
}

/// Entry ids go up through the whole log, and each segment starts where it says.
pub open spec fn ordered(st: state::StateView, d: action::Disk) -> bool {
    &&& forall|i: int|
        0 <= i < st.segments.len() ==> frames_between(
            segment_frames(d, (#[trigger] st.segments[i]).id),
            st.segments[i].first_entry.0 as int,
            upper(st.segments, i),
        )
    &&& forall|i: int, j: int|
        0 <= i <= j < st.segments.len() ==> (#[trigger] st.segments[i]).first_entry.0 <= (
        #[trigger] st.segments[j]).first_entry.0
}

// ── The store ─────────────────────────────────────────────────────────────────

/// A frame with this id starts at this offset.
pub open spec fn is_frame_start(fs: Seq<frame::Frame>, c: (EntryId, u64)) -> bool {
    exists|k: int| 0 <= k < fs.len() && (#[trigger] fs[k]).id == c.0.0 && fs[k].start == c.1
}

/// A checkpoint of the index is a frame of a live segment.
pub open spec fn checkpoint_ok(
    segments: Seq<SegmentEntry>,
    d: action::Disk,
    id: SegmentId,
    c: (EntryId, u64),
) -> bool {
    &&& exists|k: int| 0 <= k < segments.len() && (#[trigger] segments[k]).id == id
    &&& is_frame_start(segment_frames(d, id), c)
}

/// The index leads to frames of live segments, and its checkpoints go up.
pub open spec fn index_ok(
    index: Seq<(SegmentId, Seq<(EntryId, u64)>)>,
    segments: Seq<SegmentEntry>,
    d: action::Disk,
) -> bool {
    &&& forall|i: int, c: int|
        #![trigger index[i].1[c]]
        0 <= i < index.len() && 0 <= c < index[i].1.len() ==> checkpoint_ok(
            segments,
            d,
            index[i].0,
            index[i].1[c],
        )
    &&& index::ordered(index)
}

/// The last entry that the store knows is the last one of the log, if there is
/// one.
pub open spec fn last_ok(s: store::StoreView, d: action::Disk) -> bool {
    let segments = s.state.segments;
    let fs = segment_frames(d, segments.last().id);
    if fs.len() > 0 {
        s.last_entry_id == Some(EntryId(fs.last().id))
    } else {
        segments.len() > 1 ==> s.last_entry_id == Some(
            s.state.seals[segments[segments.len() - 2].id].last_entry,
        )
    }
}

/// What the store holds in memory agrees with the files, and nothing is
/// buffered.
pub open spec fn memory_matches(s: store::StoreView, d: action::Disk) -> bool {
    let segments = s.state.segments;
    &&& s.manifest == (frame::CursorView {
        pending: Seq::empty(),
        position: d.manifest.len() as u64,
    })
    &&& s.active_id == segments.last().id
    &&& s.active == (frame::CursorView {
        pending: Seq::empty(),
        position: d.segments[s.active_id].len() as u64,
    })
    &&& s.active_first_entry == segments.last().first_entry
    &&& s.active_entry_count == segment_frames(d, s.active_id).len()
    &&& forall|id: SegmentId| #[trigger] d.segments.contains_key(id) ==> id.0 < s.next_seg_id.0
    &&& s.rollover_pending ==> segment_frames(d, s.active_id).len() > 0
    &&& last_ok(s, d)
    &&& index_ok(s.index, segments, d)
}

/// The store and its files agree, but for a rollback that is not completed.
pub open spec fn fitting(s: store::StoreView, d: action::Disk) -> bool {
    files_fit(s.state, d) && ordered(s.state, d) && memory_matches(s, d)
}

/// The store and its files agree.
pub open spec fn synced(s: store::StoreView, d: action::Disk) -> bool {
    fitting(s, d) && cut_off(s.state, d)
}

/// Law: a store that agrees with its files is consistent, so every operation
/// can start, also where a rollback is not completed.
pub proof fn law_synced_store_is_consistent(s: store::StoreView, d: action::Disk)
    requires
        fitting(s, d),
    ensures
        store::consistent(s),
{
    let segments = s.state.segments;
    assert(segments[segments.len() - 1].id == s.active_id);
    assert(s.state.is_live(s.active_id));
    assert forall|i: int| 0 <= i < s.state.dead.len() implies (#[trigger] s.state.dead[i]).0
        < s.next_seg_id.0 by {
        assert(s.state.dead.contains(s.state.dead[i]));
        assert(d.segments.contains_key(s.state.dead[i]));
    }
    assert forall|id: SegmentId| #[trigger] s.state.seals.contains_key(id) implies id.0
        < s.next_seg_id.0 by {
        assert(s.state.is_live(id));
        assert(d.segments.contains_key(id));
    }
}

// ── Entries ───────────────────────────────────────────────────────────────────

/// Entries appended to a clean file are its last frames.
pub proof fn lemma_append_entries(a: Seq<u8>, pos: int, es: Seq<(u64, Seq<u8>)>)
    requires
        frame_laws::clean(a, pos),
        payloads_fit(es),
    ensures
        ({
            let data = a + encode_all(es);
            let fs = frame::frames(data, pos);
            &&& frame_laws::clean(data, pos)
            &&& fs.len() == frame::frames(a, pos).len() + es.len()
            &&& fs.take(frame::frames(a, pos).len() as int) == frame::frames(a, pos)
            &&& entries_of(fs) == entries_of(frame::frames(a, pos)) + es
        }),
    decreases es.len(),
{
    let old_fs = frame::frames(a, pos);
    if es.len() == 0 {
        assert(a + encode_all(es) =~= a);
        assert(old_fs.take(old_fs.len() as int) =~= old_fs);
        assert(entries_of(old_fs) + es =~= entries_of(old_fs));
    } else {
        let front = es.drop_last();
        let (id, payload) = es.last();
        lemma_append_entries(a, pos, front);
        let part = a + encode_all(front);
        frame_laws::law_append_adds_frame(part, pos, id, payload);
        let data = part + frame::encode_frame(id, payload);
        assert(a + encode_all(es) =~= data);
        let f = frame::Frame { start: part.len() as int, id, payload };
        let fs = frame::frames(part, pos).push(f);
        assert(frame::frames(data, pos) == fs);
        assert(fs.take(old_fs.len() as int) =~= frame::frames(part, pos).take(old_fs.len() as int));
        assert(entries_of(fs) =~= entries_of(frame::frames(part, pos)).push((id, payload)));
        assert(entries_of(old_fs) + es =~= (entries_of(old_fs) + front).push((id, payload)));
    }
}

/// The log of a list of segments depends only on their files.
pub proof fn lemma_log_same_files(segments: Seq<SegmentEntry>, d: action::Disk, e: action::Disk)
    requires
        forall|i: int|
            0 <= i < segments.len() ==> d.segments[(#[trigger] segments[i]).id]
                == e.segments[segments[i].id],
    ensures
        log_of(segments, d) == log_of(segments, e),
    decreases segments.len(),
{
    if segments.len() > 0 {
        let front = segments.drop_last();
        assert forall|i: int| 0 <= i < front.len() implies d.segments[(#[trigger] front[i]).id]
            == e.segments[front[i].id] by {
            assert(front[i] == segments[i]);
        }
        lemma_log_same_files(front, d, e);
        assert(segments.last() == segments[segments.len() - 1]);
    }
}

pub proof fn lemma_log_split(a: Seq<SegmentEntry>, b: Seq<SegmentEntry>, d: action::Disk)
    ensures
        log_of(a + b, d) == log_of(a, d) + log_of(b, d),
    decreases b.len(),
{
    if b.len() == 0 {
        assert(a + b =~= a);
        assert(log_of(a, d) + log_of(b, d) =~= log_of(a, d));
    } else {
        assert((a + b).drop_last() =~= a + b.drop_last());
        lemma_log_split(a, b.drop_last(), d);
        assert(log_of(a + b, d) =~= log_of(a, d) + log_of(b, d));
    }
}

pub proof fn lemma_from_concat(a: Seq<(u64, Seq<u8>)>, b: Seq<(u64, Seq<u8>)>, from: u64)
    ensures
        entries_from(a + b, from) == entries_from(a, from) + entries_from(b, from),
    decreases b.len(),
{
    if b.len() == 0 {
        assert(a + b =~= a);
        assert(entries_from(a, from) + entries_from(b, from) =~= entries_from(a, from));
    } else {
        assert((a + b).drop_last() =~= a + b.drop_last());
        lemma_from_concat(a, b.drop_last(), from);
        assert(entries_from(a + b, from) =~= entries_from(a, from) + entries_from(b, from));
    }
}

pub proof fn lemma_from_none(es: Seq<(u64, Seq<u8>)>, from: u64)
    requires
        forall|i: int| 0 <= i < es.len() ==> (#[trigger] es[i]).0 < from,
    ensures
        entries_from(es, from) == Seq::<(u64, Seq<u8>)>::empty(),
    decreases es.len(),
{
    if es.len() > 0 {
        lemma_from_none(es.drop_last(), from);
        assert(es[es.len() - 1].0 < from);
    }
}

pub proof fn lemma_from_all(es: Seq<(u64, Seq<u8>)>, from: u64)
    requires
        forall|i: int| 0 <= i < es.len() ==> (#[trigger] es[i]).0 >= from,
    ensures
        entries_from(es, from) == es,
    decreases es.len(),
{
    if es.len() > 0 {
        lemma_from_all(es.drop_last(), from);
        assert(es[es.len() - 1].0 >= from);
        assert(es.drop_last().push(es.last()) =~= es);
    } else {
        assert(es =~= Seq::<(u64, Seq<u8>)>::empty());
    }
}

pub proof fn lemma_up_to_concat(a: Seq<(u64, Seq<u8>)>, b: Seq<(u64, Seq<u8>)>, last: u64)
    ensures
        entries_up_to(a + b, last) == entries_up_to(a, last) + entries_up_to(b, last),
    decreases b.len(),
{
    if b.len() == 0 {
        assert(a + b =~= a);
        assert(entries_up_to(a, last) + entries_up_to(b, last) =~= entries_up_to(a, last));
    } else {
        assert((a + b).drop_last() =~= a + b.drop_last());
        lemma_up_to_concat(a, b.drop_last(), last);
        assert(entries_up_to(a + b, last) =~= entries_up_to(a, last) + entries_up_to(b, last));
    }
}

pub proof fn lemma_up_to_none(es: Seq<(u64, Seq<u8>)>, last: u64)
    requires
        forall|i: int| 0 <= i < es.len() ==> (#[trigger] es[i]).0 > last,
    ensures
        entries_up_to(es, last) == Seq::<(u64, Seq<u8>)>::empty(),
    decreases es.len(),
{
    if es.len() > 0 {
        lemma_up_to_none(es.drop_last(), last);
        assert(es[es.len() - 1].0 > last);
    }
}

pub proof fn lemma_up_to_all(es: Seq<(u64, Seq<u8>)>, last: u64)
    requires
        forall|i: int| 0 <= i < es.len() ==> (#[trigger] es[i]).0 <= last,
    ensures
        entries_up_to(es, last) == es,
    decreases es.len(),
{
    if es.len() > 0 {
        lemma_up_to_all(es.drop_last(), last);
        assert(es[es.len() - 1].0 <= last);
        assert(es.drop_last().push(es.last()) =~= es);
    } else {
        assert(es =~= Seq::<(u64, Seq<u8>)>::empty());
    }
}

/// Every entry of the log of an ordered store lies between where its first
/// segment starts and the end, and the ids go up.
#[verifier::spinoff_prover]
pub proof fn lemma_log_ordered(st: state::StateView, d: action::Disk, n: int)
    requires
        ordered(st, d),
        0 <= n <= st.segments.len(),
    ensures
        ({
            let es = log_of(st.segments.take(n), d);
            &&& increasing(es)
            &&& forall|i: int|
                0 <= i < es.len() ==> (#[trigger] es[i]).0 >= st.segments[0].first_entry.0
            &&& n > 0 ==> forall|i: int|
                0 <= i < es.len() ==> (#[trigger] es[i]).0 < upper(st.segments, n - 1)
        }),
    decreases n,
{
    let segs = st.segments;
    if n > 0 {
        lemma_log_ordered(st, d, n - 1);
        assert(segs.take(n).drop_last() =~= segs.take(n - 1));
        let before = log_of(segs.take(n - 1), d);
        let fs = segment_frames(d, segs[n - 1].id);
        let es = before + entries_of(fs);
        assert(log_of(segs.take(n), d) == es);
        assert(frames_between(fs, segs[n - 1].first_entry.0 as int, upper(segs, n - 1)));
        assert(segs[0].first_entry.0 <= segs[n - 1].first_entry.0);
        assert forall|i: int| 0 <= i < es.len() implies (#[trigger] es[i]).0
            >= segs[0].first_entry.0 && es[i].0 < upper(segs, n - 1) by {
            if i < before.len() {
                assert(es[i] == before[i]);
                assert(before[i].0 < upper(segs, n - 2));
                if n < segs.len() {
                    assert(segs[n - 1].first_entry.0 <= segs[n].first_entry.0);
                }
            } else {
                assert(es[i].0 == fs[i - before.len()].id);
            }
        }
        assert forall|i: int, j: int| 0 <= i < j < es.len() implies (#[trigger] es[i]).0 < (
        #[trigger] es[j]).0 by {
            if j < before.len() {
                assert(es[i] == before[i] && es[j] == before[j]);
            } else if i < before.len() {
                assert(es[i] == before[i]);
                assert(before[i].0 < upper(segs, n - 2));
                assert(es[j].0 == fs[j - before.len()].id);
            } else {
                assert(es[i].0 == fs[i - before.len()].id);
                assert(es[j].0 == fs[j - before.len()].id);
            }
        }
    }
}

/// Law: the ids of the log of a store that agrees with its files go up.
pub proof fn law_log_ids_increase(s: store::StoreView, d: action::Disk)
    requires
        fitting(s, d),
    ensures
        increasing(log_of(s.state.segments, d)),
{
    let n = s.state.segments.len() as int;
    lemma_log_ordered(s.state, d, n);
    assert(s.state.segments.take(n) =~= s.state.segments);
}

} // verus!
