//! What rolling back the log tail promises.

use vstd::prelude::*;

use crate::action;
use crate::codec;
use crate::files::{self, MAGIC_LEN, SEGMENT_MAGIC};
use crate::frame;
use crate::frame_laws;
use crate::index;
use crate::log_laws;
use crate::manifest_laws;
use crate::op_laws;
use crate::reader_laws;
use crate::state::{self, ApplyError, SegmentEntry};
use crate::state_laws;
use crate::store::{self, Outcome};
use crate::truncate_laws;
use crate::{EntryId, SegmentId};

verus! {

// ── Finding the entry ─────────────────────────────────────────────────────────

/// The place of an entry of the log: the segment, and the frame in it.
pub proof fn lemma_entry_place(
    segments: Seq<SegmentEntry>,
    d: action::Disk,
    i: int,
) -> (place: (int, int))
    requires
        0 <= i < log_laws::log_of(segments, d).len(),
    ensures
        0 <= place.0 < segments.len(),
        0 <= place.1 < log_laws::segment_frames(d, segments[place.0].id).len(),
        log_laws::segment_frames(d, segments[place.0].id)[place.1].id
            == log_laws::log_of(segments, d)[i].0,
    decreases segments.len(),
{
    let front = segments.drop_last();
    let before = log_laws::log_of(front, d);
    let fs = log_laws::segment_frames(d, segments.last().id);
    if i < before.len() {
        let place = lemma_entry_place(front, d, i);
        assert(front[place.0] == segments[place.0]);
        assert((before + log_laws::entries_of(fs))[i] == before[i]);
        place
    } else {
        assert(
            (before + log_laws::entries_of(fs))[i] == log_laws::entries_of(fs)[i - before.len()]
        );
        (segments.len() - 1, i - before.len())
    }
}

/// The segments up to place `m` start by `last`, and the next one does not.
pub proof fn lemma_starting_by(segments: Seq<SegmentEntry>, last: EntryId, m: int)
    requires
        -1 <= m < segments.len(),
        forall|i: int| 0 <= i <= m ==> (#[trigger] segments[i]).first_entry.0 <= last.0,
        m + 1 < segments.len() ==> segments[m + 1].first_entry.0 > last.0,
    ensures
        store::starting_by(segments, last) == m + 1,
    decreases segments.len(),
{
    if m >= 0 {
        let rest = segments.skip(1);
        assert(segments[0].first_entry.0 <= last.0);
        assert forall|i: int| 0 <= i <= m - 1 implies (#[trigger] rest[i]).first_entry.0
            <= last.0 by {
            assert(rest[i] == segments[i + 1]);
        }
        if m < rest.len() {
            assert(rest[m] == segments[m + 1]);
        }
        lemma_starting_by(rest, last, m - 1);
    }
}

/// The segment that holds an entry is the target of a truncation to it.
proof fn lemma_target(st: state::StateView, d: action::Disk, last: EntryId, m: int, k: int)
    requires
        log_laws::ordered(st, d),
        0 <= m < st.segments.len(),
        0 <= k < log_laws::segment_frames(d, st.segments[m].id).len(),
        log_laws::segment_frames(d, st.segments[m].id)[k].id == last.0,
    ensures
        store::target_place(st.segments, last) == m,
        store::ids_after(st.segments, m) == truncate_laws::ids_between(
            st.segments,
            m + 1,
            st.segments.len() as int,
        ),
        m + 1 < st.segments.len() ==> st.segments[m + 1].first_entry.0 > last.0,
{
    let segs = st.segments;
    let fs = log_laws::segment_frames(d, segs[m].id);
    assert(log_laws::frames_between(fs, segs[m].first_entry.0 as int, log_laws::upper(segs, m)));
    assert(fs[k].id < log_laws::upper(segs, m));
    assert forall|i: int| 0 <= i <= m implies (#[trigger] segs[i]).first_entry.0 <= last.0 by {
        assert(segs[i].first_entry.0 <= segs[m].first_entry.0);
    }
    lemma_starting_by(segs, last, m);
    assert(
        store::ids_after(segs, m) =~= truncate_laws::ids_between(segs, m + 1, segs.len() as int)
    );
}

/// Looking for frame `k` from frame `j` on, where ids go up, ends after it.
proof fn lemma_end_of_id(data: Seq<u8>, pos: int, j: int, k: int)
    requires
        0 <= pos <= data.len(),
        0 <= j <= k < frame::frames(data, pos).len(),
        forall|a: int, b: int|
            0 <= a < b < frame::frames(data, pos).len() ==> (
                #[trigger] frame::frames(data, pos)[a]
            ).id < (
            #[trigger] frame::frames(data, pos)[b]).id,
    ensures
        frame::end_of_id(data, frame::frames(data, pos)[j].start, frame::frames(data, pos)[k].id)
            == Ok::<int, int>(
            frame::frames(data, pos)[k].end(),
        ),
    decreases k - j,
{
    let fs = frame::frames(data, pos);
    frame_laws::lemma_frame_at(data, pos, j);
    if j < k {
        assert(fs[j].id < fs[k].id);
        lemma_end_of_id(data, pos, j + 1, k);
        frame_laws::lemma_frame_at(data, pos, j + 1);
    }
}

/// Where the search in the target starts: at a frame that is not behind the one
/// looked for.
#[verifier::spinoff_prover]
proof fn lemma_search_start(
    s: store::StoreView,
    d: action::Disk,
    last: EntryId,
    m: int,
    k: int,
) -> (j: int)
    requires
        log_laws::fitting(s, d),
        0 <= m < s.state.segments.len(),
        0 <= k < log_laws::segment_frames(d, s.state.segments[m].id).len(),
        log_laws::segment_frames(d, s.state.segments[m].id)[k].id == last.0,
    ensures
        0 <= j <= k,
        log_laws::segment_frames(d, s.state.segments[m].id)[j].start == (match index::position_of(
            s.index,
            last.0,
        ) {
            Some(p) if p.segment == s.state.segments[m].id => p.byte_offset,
            _ => MAGIC_LEN as u64,
        }),
{
    let segs = s.state.segments;
    let target = segs[m].id;
    let fs = log_laws::segment_frames(d, target);
    let data = d.segments[target];
    assert(log_laws::sound(data));
    assert(log_laws::frames_between(fs, segs[m].first_entry.0 as int, log_laws::upper(segs, m)));
    match index::position_of(s.index, last.0) {
        Some(p) if p.segment == target => {
            index::lemma_covering(s.index, last.0);
            let i = index::covering(s.index, last.0)->Some_0;
            let cs = s.index[i].1;
            index::lemma_count(cs, last.0 as int);
            let n = crate::index::count_at_most(cs, last.0 as int);
            let c = cs[n - 1];
            assert(c == (p.checkpoint, p.byte_offset));
            assert(log_laws::checkpoint_ok(segs, d, s.index[i].0, s.index[i].1[n - 1]));
            let j = choose|j: int|
                0 <= j < fs.len() && (#[trigger] fs[j]).id == c.0.0 && fs[j].start == c.1;
            if k < j {
                assert(fs[k].id < fs[j].id);
            }
            j
        },
        _ => {
            frame_laws::lemma_frame_at(data, MAGIC_LEN as int, 0);
            0
        },
    }
}

pub proof fn lemma_find_segment_at(segments: Seq<SegmentEntry>, m: int)
    requires
        store::distinct(segments),
        0 <= m < segments.len(),
    ensures
        state::find_segment(segments, segments[m].id) == Some(segments[m]),
    decreases m,
{
    if m > 0 {
        let rest = segments.skip(1);
        assert(segments[0].id != segments[m].id);
        assert(rest[m - 1] == segments[m]);
        assert forall|i: int, j: int| 0 <= i < j < rest.len() implies (#[trigger] rest[i]).id != (
        #[trigger] rest[j]).id by {
            assert(rest[i] == segments[i + 1] && rest[j] == segments[j + 1]);
        }
        lemma_find_segment_at(rest, m - 1);
    }
}

// ── After the cut ─────────────────────────────────────────────────────────────

/// The segment files after the target was cut off behind frame `k`.
pub open spec fn cut_files(d: action::Disk, target: SegmentId, k: int) -> action::Disk {
    let end = log_laws::segment_frames(d, target)[k].end();
    action::Disk { segments: d.segments.insert(target, d.segments[target].take(end)), ..d }
}

/// The target holds its first frames, up to the one it was cut off behind.
proof fn lemma_cut_file(d: action::Disk, target: SegmentId, k: int)
    requires
        log_laws::sound(d.segments[target]),
        0 <= k < log_laws::segment_frames(d, target).len(),
    ensures
        log_laws::sound(cut_files(d, target, k).segments[target]),
        log_laws::segment_frames(cut_files(d, target, k), target)
            == log_laws::segment_frames(d, target).take(k + 1),
        cut_files(d, target, k).segments[target].len()
            == log_laws::segment_frames(d, target)[k].end(),
        log_laws::segment_frames(d, target)[k].end() <= d.segments[target].len(),
{
    let data = d.segments[target];
    let start = MAGIC_LEN as int;
    let fs = log_laws::segment_frames(d, target);
    frame_laws::law_cut_keeps_prefix(data, start, k + 1);
    let cut = data.take(fs[k].end());
    assert(cut.take(start) =~= data.take(start));
}

/// The state after a truncation to an entry of the segment at place `m`, whose
/// frame ends at `end`.
pub open spec fn cut_state(st: state::StateView, m: int, end: u64) -> state::StateView {
    let killed = state::kill_all(
        st,
        truncate_laws::ids_between(st.segments, m + 1, st.segments.len() as int),
    );
    state::StateView {
        seals: killed.seals.remove(st.segments[m].id),
        active: Some(st.segments[m].id),
        cut_at: Some(end),
        ..killed
    }
}

proof fn lemma_cut_applies(st: state::StateView, byte_offset: u64, m: int)
    requires
        store::distinct(st.segments),
        0 <= m < st.segments.len(),
    ensures
        state::apply_op(
            st,
            store::truncate_end_op(
                st.segments[m].id,
                byte_offset,
                truncate_laws::ids_between(st.segments, m + 1, st.segments.len() as int),
            ),
        ) == Ok::<_, ApplyError>(cut_state(st, m, byte_offset)),
{
    let n = st.segments.len() as int;
    let drop = truncate_laws::ids_between(st.segments, m + 1, n);
    truncate_laws::lemma_range_killed(st, m + 1, n);
    store::lemma_none_missing(st, drop);
    assert(st.is_live(st.segments[m].id));
    state_laws::lemma_kill_all(st, drop);
    let new = cut_state(st, m, byte_offset);
    assert(state::merge_meta(new.meta, Seq::empty()) == new.meta);
}

/// Files and state agree after the truncation.
#[verifier::spinoff_prover]
proof fn lemma_cut_files_fit(
    st: state::StateView,
    d: action::Disk,
    e: action::Disk,
    m: int,
    k: int,
    end: u64,
)
    requires
        log_laws::files_fit(st, d),
        0 <= m < st.segments.len(),
        0 <= k < log_laws::segment_frames(d, st.segments[m].id).len(),
        e.segments == cut_files(d, st.segments[m].id, k).segments,
        manifest_laws::manifest_ok(cut_state(st, m, end), e.manifest),
        e.manifest.len() <= i64::MAX,
    ensures
        cut_state(st, m, end).segments == st.segments.take(m + 1),
        log_laws::files_fit(cut_state(st, m, end), e),
{
    let segs = st.segments;
    let n = segs.len() as int;
    let new = cut_state(st, m, end);
    let target = segs[m].id;
    let ids = truncate_laws::ids_between(segs, m + 1, n);
    let kept = segs.take(m + 1);
    let killed = state::kill_all(st, ids);
    truncate_laws::lemma_range_killed(st, m + 1, n);
    assert(kept + segs.skip(n) =~= kept);
    assert(d.segments.contains_key(segs[m].id) && log_laws::sound(d.segments[segs[m].id]));
    lemma_cut_file(d, target, k);
    assert forall|i: int| 0 <= i < kept.len() implies (#[trigger] kept[i]) == segs[i]
        && !ids.contains(kept[i].id) && (i < m ==> kept[i].id != target) by {
        truncate_laws::lemma_in_range(segs, m + 1, n, i);
        if i < m {
            assert(segs[i].id != segs[m].id);
        }
    }
    assert forall|id: SegmentId| #[trigger] new.is_live(id) == killed.is_live(id) by {
        assert(new.segments == killed.segments);
    }
    assert forall|i: int| 0 <= i < kept.len() implies e.segments.contains_key(
        (#[trigger] kept[i]).id,
    ) && log_laws::sound(e.segments[kept[i].id]) by {
        assert(d.segments.contains_key(segs[i].id) && log_laws::sound(d.segments[segs[i].id]));
    }
    assert forall|i: int| 0 <= i < kept.len() implies (new.seals.contains_key(
        (#[trigger] kept[i]).id,
    ) <==> i < kept.len() - 1) by {
        assert(st.seals.contains_key(segs[i].id) <==> i < n - 1);
    }
    assert forall|i: int| 0 <= i < kept.len() - 1 implies log_laws::seal_ok(
        e.segments[(#[trigger] kept[i]).id],
        new.seals[kept[i].id],
    ) by {
        assert(log_laws::seal_ok(d.segments[segs[i].id], st.seals[segs[i].id]));
        assert(new.seals.contains_key(kept[i].id));
        assert(killed.seals.contains_key(kept[i].id));
    }
    assert forall|id: SegmentId| #[trigger] new.seals.contains_key(id) implies new.is_live(id) by {
        assert(killed.seals.contains_key(id));
        assert(st.seals.contains_key(id));
        assert(st.is_live(id));
    }
    assert forall|id: SegmentId| #[trigger] e.segments.contains_key(id) <==> new.is_live(id)
        || new.dead.contains(id) by {
        assert(d.segments.contains_key(id) <==> st.is_live(id) || st.dead.contains(id));
        assert(d.segments.contains_key(target));
    }
    assert forall|i: int| 0 <= i < new.dead.len() implies !new.is_live(#[trigger] new.dead[i]) by {
        let id = new.dead[i];
        assert(new.dead.contains(id));
        if st.dead.contains(id) {
            let j = choose|j: int| 0 <= j < st.dead.len() && st.dead[j] == id;
            assert(!st.is_live(st.dead[j]));
        }
    }
    assert(kept.last() == segs[m]);
}

/// The segments that are left are in order.
#[verifier::spinoff_prover]
proof fn lemma_cut_ordered(
    st: state::StateView,
    new: state::StateView,
    d: action::Disk,
    e: action::Disk,
    m: int,
    k: int,
)
    requires
        log_laws::files_fit(st, d),
        log_laws::ordered(st, d),
        0 <= m < st.segments.len(),
        0 <= k < log_laws::segment_frames(d, st.segments[m].id).len(),
        e.segments == cut_files(d, st.segments[m].id, k).segments,
        new.segments == st.segments.take(m + 1),
    ensures
        log_laws::ordered(new, e),
{
    let segs = st.segments;
    let target = segs[m].id;
    let kept = segs.take(m + 1);
    assert(d.segments.contains_key(segs[m].id) && log_laws::sound(d.segments[segs[m].id]));
    lemma_cut_file(d, target, k);
    assert forall|i: int| 0 <= i < kept.len() implies log_laws::frames_between(
        log_laws::segment_frames(e, (#[trigger] kept[i]).id),
        kept[i].first_entry.0 as int,
        log_laws::upper(kept, i),
    ) by {
        assert(kept[i] == segs[i]);
        let fs = log_laws::segment_frames(d, segs[i].id);
        assert(
            log_laws::frames_between(fs, segs[i].first_entry.0 as int, log_laws::upper(segs, i))
        );
        if i < m {
            assert(segs[i].id != segs[m].id);
            assert(kept[i + 1] == segs[i + 1]);
        } else {
            let cut = fs.take(k + 1);
            assert(log_laws::segment_frames(e, kept[i].id) == cut);
            assert forall|a: int| 0 <= a < cut.len() implies kept[i].first_entry.0 as int <= (
            #[trigger] cut[a]).id < log_laws::upper(kept, i) by {
                assert(cut[a] == fs[a]);
            }
            assert forall|a: int, b: int| 0 <= a < b < cut.len() implies (#[trigger] cut[a]).id < (
            #[trigger] cut[b]).id by {
                assert(cut[a] == fs[a] && cut[b] == fs[b]);
            }
        }
    }
    assert forall|i: int, j: int| 0 <= i <= j < kept.len() implies (
    #[trigger] kept[i]).first_entry.0 <= (#[trigger] kept[j]).first_entry.0 by {
        assert(kept[i] == segs[i] && kept[j] == segs[j]);
    }
}

/// The index up to the last entry leads to frames that are left.
#[verifier::spinoff_prover]
proof fn lemma_cut_index(
    index: Seq<(SegmentId, Seq<(EntryId, u64)>)>,
    st: state::StateView,
    d: action::Disk,
    e: action::Disk,
    m: int,
    k: int,
    last: EntryId,
)
    requires
        log_laws::files_fit(st, d),
        log_laws::ordered(st, d),
        log_laws::index_ok(index, st.segments, d),
        0 <= m < st.segments.len(),
        0 <= k < log_laws::segment_frames(d, st.segments[m].id).len(),
        log_laws::segment_frames(d, st.segments[m].id)[k].id == last.0,
        e.segments == cut_files(d, st.segments[m].id, k).segments,
    ensures
        log_laws::index_ok(index::index_up_to(index, last.0), st.segments.take(m + 1), e),
{
    let segs = st.segments;
    let target = segs[m].id;
    let kept = segs.take(m + 1);
    let new = index::index_up_to(index, last.0);
    lemma_target(st, d, last, m, k);
    assert(d.segments.contains_key(segs[m].id) && log_laws::sound(d.segments[segs[m].id]));
    lemma_cut_file(d, target, k);
    truncate_laws::lemma_index_up_to(index, segs, d, last.0);
    assert forall|i: int, c: int|
        #![trigger new[i].1[c]]
        0 <= i < new.len() && 0 <= c < new[i].1.len() implies log_laws::checkpoint_ok(
        kept,
        e,
        new[i].0,
        new[i].1[c],
    ) by {
        let cp = new[i].1[c];
        assert(log_laws::checkpoint_ok(segs, d, new[i].0, new[i].1[c]));
        let p = choose|p: int| 0 <= p < segs.len() && (#[trigger] segs[p]).id == new[i].0;
        let fs = log_laws::segment_frames(d, segs[p].id);
        let j = choose|j: int|
            0 <= j < fs.len() && (#[trigger] fs[j]).id == cp.0.0 && fs[j].start == cp.1;
        assert(
            log_laws::frames_between(fs, segs[p].first_entry.0 as int, log_laws::upper(segs, p))
        );
        assert(p <= m) by {
            if p > m {
                assert(segs[m + 1].first_entry.0 <= segs[p].first_entry.0);
            }
        }
        assert(kept[p].id == new[i].0);
        if p < m {
            assert(segs[p].id != segs[m].id);
            assert(log_laws::segment_frames(e, segs[p].id) == fs);
        } else {
            if k < j {
                assert(fs[k].id < fs[j].id);
            }
            let cut = fs.take(k + 1);
            assert(log_laws::segment_frames(e, segs[p].id) == cut);
            assert(cut[j] == fs[j]);
        }
        assert(log_laws::is_frame_start(log_laws::segment_frames(e, new[i].0), cp));
    }
}

/// The store after a truncation to `last`, whose record has the segment end at
/// `end`.
spec fn cut_store(
    s: store::StoreView,
    e: action::Disk,
    m: int,
    last: EntryId,
    end: u64,
) -> store::StoreView {
    let target = s.state.segments[m].id;
    store::StoreView {
        manifest: frame::CursorView { pending: Seq::empty(), position: e.manifest.len() as u64 },
        state: cut_state(s.state, m, end),
        index: index::index_up_to(s.index, last.0),
        active_id: target,
        active: frame::CursorView {
            pending: Seq::empty(),
            position: e.segments[target].len() as u64,
        },
        active_first_entry: s.state.segments[m].first_entry,
        active_entry_count: log_laws::segment_frames(e, target).len() as u64,
        last_entry_id: Some(last),
        rollover_pending: false,
        ..s
    }
}

/// Files and store agree after a truncation.
proof fn lemma_cut_fitting(
    s: store::StoreView,
    d: action::Disk,
    e: action::Disk,
    m: int,
    k: int,
    last: EntryId,
    end: u64,
)
    requires
        log_laws::fitting(s, d),
        0 <= m < s.state.segments.len(),
        0 <= k < log_laws::segment_frames(d, s.state.segments[m].id).len(),
        log_laws::segment_frames(d, s.state.segments[m].id)[k].id == last.0,
        e.segments == cut_files(d, s.state.segments[m].id, k).segments,
        manifest_laws::manifest_ok(cut_state(s.state, m, end), e.manifest),
        e.manifest.len() <= i64::MAX,
    ensures
        log_laws::fitting(cut_store(s, e, m, last, end), e),
        cut_state(s.state, m, end).segments == s.state.segments.take(m + 1),
{
    let st = s.state;
    let segs = st.segments;
    let target = segs[m].id;
    let t = cut_store(s, e, m, last, end);
    lemma_cut_files_fit(st, d, e, m, k, end);
    lemma_cut_ordered(st, t.state, d, e, m, k);
    lemma_cut_index(s.index, st, d, e, m, k, last);
    assert(d.segments.contains_key(segs[m].id) && log_laws::sound(d.segments[segs[m].id]));
    lemma_cut_file(d, target, k);
    let fs = log_laws::segment_frames(d, target).take(k + 1);
    assert(fs[k] == log_laws::segment_frames(d, target)[k]);
    assert(t.state.segments.last() == segs[m]);
    frame_laws::lemma_frame_count(e.segments[target], MAGIC_LEN as int);
    assert(log_laws::last_ok(t, e));
    assert forall|id: SegmentId| #[trigger] e.segments.contains_key(id) implies id.0
        < t.next_seg_id.0 by {
        assert(d.segments.contains_key(target));
        assert(d.segments.contains_key(id));
    }
    assert(log_laws::memory_matches(t, e));
}

/// Of frames whose ids go up, those up to frame `k` are the first ones.
proof fn lemma_entries_up_to_frame(fs: Seq<frame::Frame>, k: int)
    requires
        0 <= k < fs.len(),
        forall|a: int, b: int|
            0 <= a < b < fs.len() ==> (#[trigger] fs[a]).id < (#[trigger] fs[b]).id,
    ensures
        log_laws::entries_up_to(log_laws::entries_of(fs), fs[k].id) == log_laws::entries_of(
            fs.take(k + 1),
        ),
{
    let last = fs[k].id;
    let es = log_laws::entries_of(fs);
    let (front, back) = (es.take(k + 1), es.skip(k + 1));
    assert forall|i: int| 0 <= i < front.len() implies (#[trigger] front[i]).0 <= last by {
        assert(front[i].0 == fs[i].id);
        if i < k {
            assert(fs[i].id < fs[k].id);
        }
    }
    assert forall|i: int| 0 <= i < back.len() implies (#[trigger] back[i]).0 > last by {
        assert(back[i].0 == fs[k + 1 + i].id);
        assert(fs[k].id < fs[k + 1 + i].id);
    }
    log_laws::lemma_up_to_all(front, last);
    log_laws::lemma_up_to_none(back, last);
    assert(es =~= front + back);
    log_laws::lemma_up_to_concat(front, back, last);
    assert(front =~= log_laws::entries_of(fs.take(k + 1)));
    assert(front + Seq::<(u64, Seq<u8>)>::empty() =~= front);
}

/// The log up to an entry of the segment at place `m` is the log of the segments
/// before it, and what is left of that segment.
#[verifier::spinoff_prover]
proof fn lemma_log_up_to(st: state::StateView, d: action::Disk, m: int, k: int, last: EntryId)
    requires
        log_laws::ordered(st, d),
        0 <= m < st.segments.len(),
        0 <= k < log_laws::segment_frames(d, st.segments[m].id).len(),
        log_laws::segment_frames(d, st.segments[m].id)[k].id == last.0,
    ensures
        log_laws::entries_up_to(log_laws::log_of(st.segments, d), last.0) == log_laws::log_of(
            st.segments.take(m),
            d,
        ) + log_laws::entries_of(log_laws::segment_frames(d, st.segments[m].id).take(k + 1)),
{
    let segs = st.segments;
    let (a, x, b) = (segs.take(m), segs.take(m + 1), segs.skip(m + 1));
    let fs = log_laws::segment_frames(d, segs[m].id);
    let (before, es, tail) = (
        log_laws::log_of(a, d),
        log_laws::entries_of(fs),
        log_laws::log_of(b, d),
    );
    assert(log_laws::frames_between(
        fs,
        segs[m].first_entry.0 as int,
        log_laws::upper(segs, m),
    ));
    assert(log_laws::entries_up_to(before, last.0) == before) by {
        assert(fs[k].id >= segs[m].first_entry.0);
        lemma_log_before(st, d, m, last);
        log_laws::lemma_up_to_all(before, last.0);
    }
    assert(log_laws::entries_up_to(es, last.0) == log_laws::entries_of(fs.take(k + 1))) by {
        lemma_entries_up_to_frame(fs, k);
    }
    assert(log_laws::entries_up_to(tail, last.0) == Seq::<(u64, Seq<u8>)>::empty()) by {
        lemma_target(st, d, last, m, k);
        lemma_tail_after(st, d, m, last);
        log_laws::lemma_up_to_none(tail, last.0);
    }
    assert(log_laws::log_of(segs, d) == before + es + tail) by {
        assert(x.drop_last() =~= a);
        assert(segs =~= x + b);
        log_laws::lemma_log_split(x, b, d);
    }
    log_laws::lemma_up_to_concat(before + es, tail, last.0);
    log_laws::lemma_up_to_concat(before, es, last.0);
}

/// Every entry of the segments before place `m` comes before where that one starts.
proof fn lemma_log_before(st: state::StateView, d: action::Disk, m: int, last: EntryId)
    requires
        log_laws::ordered(st, d),
        0 <= m < st.segments.len(),
        st.segments[m].first_entry.0 <= last.0,
    ensures
        forall|i: int|
            0 <= i < log_laws::log_of(st.segments.take(m), d).len() ==> (
            #[trigger] log_laws::log_of(st.segments.take(m), d)[i]).0 <= last.0,
{
    let segs = st.segments;
    let before = log_laws::log_of(segs.take(m), d);
    log_laws::lemma_log_ordered(st, d, m);
    assert forall|i: int| 0 <= i < before.len() implies (#[trigger] before[i]).0 <= last.0 by {
        assert(m > 0);
        assert(before[i].0 < log_laws::upper(segs, m - 1));
    }
}

/// The log after a truncation holds the entries up to the last one.
proof fn lemma_cut_log(
    st: state::StateView,
    d: action::Disk,
    e: action::Disk,
    m: int,
    k: int,
    last: EntryId,
)
    requires
        log_laws::files_fit(st, d),
        log_laws::ordered(st, d),
        0 <= m < st.segments.len(),
        0 <= k < log_laws::segment_frames(d, st.segments[m].id).len(),
        log_laws::segment_frames(d, st.segments[m].id)[k].id == last.0,
        e.segments == cut_files(d, st.segments[m].id, k).segments,
    ensures
        log_laws::log_of(st.segments.take(m + 1), e) == log_laws::entries_up_to(
            log_laws::log_of(st.segments, d),
            last.0,
        ),
{
    let segs = st.segments;
    let target = segs[m].id;
    let (a, x) = (segs.take(m), segs.take(m + 1));
    lemma_log_up_to(st, d, m, k, last);
    assert(d.segments.contains_key(segs[m].id) && log_laws::sound(d.segments[segs[m].id]));
    lemma_cut_file(d, target, k);
    assert forall|i: int| 0 <= i < a.len() implies d.segments[(#[trigger] a[i]).id]
        == e.segments[a[i].id] by {
        assert(a[i] == segs[i]);
        assert(segs[i].id != segs[m].id);
    }
    log_laws::lemma_log_same_files(a, d, e);
    assert(x.drop_last() =~= a);
}

/// Every entry of the segments after place `m` is above `last`, where the next
/// segment starts above it.
proof fn lemma_tail_after(st: state::StateView, d: action::Disk, m: int, last: EntryId)
    requires
        log_laws::ordered(st, d),
        0 <= m < st.segments.len(),
        m + 1 < st.segments.len() ==> st.segments[m + 1].first_entry.0 > last.0,
    ensures
        forall|i: int|
            0 <= i < log_laws::log_of(
                st.segments.skip(m + 1),
                d,
            ).len() ==> (#[trigger] log_laws::log_of(
                st.segments.skip(m + 1),
                d,
            )[i]).0 > last.0,
{
    let segs = st.segments;
    let b = segs.skip(m + 1);
    let tail = log_laws::log_of(b, d);
    assert forall|i: int| 0 <= i < tail.len() implies (#[trigger] tail[i]).0 > last.0 by {
        let (p, j) = lemma_entry_place(b, d, i);
        assert(b[p] == segs[m + 1 + p]);
        let fs = log_laws::segment_frames(d, segs[m + 1 + p].id);
        assert(log_laws::frames_between(
            fs,
            segs[m + 1 + p].first_entry.0 as int,
            log_laws::upper(segs, m + 1 + p),
        ));
        assert(segs[m + 1].first_entry.0 <= segs[m + 1 + p].first_entry.0);
        assert(fs[j].id >= segs[m + 1 + p].first_entry.0);
    }
}

/// The most bytes that the record of a truncation can take: 14 for each segment,
/// and some more.
pub open spec fn drop_record_limit(segments: Seq<SegmentEntry>) -> nat {
    128 + 14 * segments.len()
}

// ── Laws ──────────────────────────────────────────────────────────────────────

/// A rollback of what a rollback has left changes the state no further.
proof fn lemma_cut_state_again(st: state::StateView, m: int, end: u64)
    requires
        store::distinct(st.segments),
        0 <= m < st.segments.len(),
    ensures
        cut_state(st, m, end).segments == st.segments.take(m + 1),
        cut_state(cut_state(st, m, end), m, end) == cut_state(st, m, end),
{
    let segs = st.segments;
    let n = segs.len() as int;
    let new = cut_state(st, m, end);
    truncate_laws::lemma_range_killed(st, m + 1, n);
    assert(segs.take(m + 1) + segs.skip(n) =~= segs.take(m + 1));
    assert(truncate_laws::ids_between(new.segments, m + 1, m + 1) =~= Seq::<SegmentId>::empty());
    assert(new.segments[m].id == segs[m].id);
    assert(cut_state(new, m, end) =~= new);
}

/// The rollback to frame `k` of the segment at place `m`.
pub open spec fn rollback(s: store::StoreView, d: action::Disk, m: int, k: int) -> store::Cut {
    let target = s.state.segments[m].id;
    let f = log_laws::segment_frames(d, target)[k];
    store::cut_of(d.segments[target], target, EntryId(f.id), f.end())
}

/// The record of that rollback.
pub open spec fn rollback_op(
    s: store::StoreView,
    d: action::Disk,
    m: int,
    k: int,
) -> state::ManifestOpView {
    let cut = rollback(s, d, m, k);
    store::truncate_end_op(cut.target, cut.byte_offset, store::ids_after(s.state.segments, m))
}

/// A frame of a segment is the last entry of a rollback: ids go up, and the
/// record and the files stay within their limits.
pub open spec fn can_roll_back(s: store::StoreView, d: action::Disk, m: int, k: int) -> bool {
    &&& log_laws::fitting(s, d)
    &&& 0 <= m < s.state.segments.len()
    &&& 0 <= k < log_laws::segment_frames(d, s.state.segments[m].id).len()
    &&& s.last_entry_id matches Some(id) && log_laws::segment_frames(
        d,
        s.state.segments[m].id,
    )[k].id < id.0
    &&& drop_record_limit(s.state.segments) <= u32::MAX
    &&& d.manifest.len() + drop_record_limit(s.state.segments) <= i64::MAX
}

/// What is known of the target of a rollback.
pub proof fn lemma_rollback(s: store::StoreView, d: action::Disk, m: int, k: int)
    requires
        can_roll_back(s, d, m, k),
    ensures
        ({
            let cut = rollback(s, d, m, k);
            let op = rollback_op(s, d, m, k);
            let data = d.segments[cut.target];
            let fs = log_laws::segment_frames(d, cut.target);
            &&& log_laws::sound(data)
            &&& cut.full_size == data.len()
            &&& cut.full_count == fs.len()
            &&& cut.full_last.0 == fs.last().id
            &&& cut.byte_offset == fs[k].end()
            &&& cut.byte_offset <= data.len()
            &&& cut_files(d, cut.target, k).segments[cut.target].len() == cut.byte_offset
            &&& store::target_place(s.state.segments, cut.last_valid) == m
            &&& store::ids_after(s.state.segments, m) == truncate_laws::ids_between(
                s.state.segments,
                m + 1,
                s.state.segments.len() as int,
            )
            &&& manifest_laws::recordable(op)
            &&& store::op_frame(op).len() <= drop_record_limit(s.state.segments)
            &&& state::apply_op(s.state, op) == Ok::<_, ApplyError>(
                cut_state(s.state, m, cut.byte_offset),
            )
        }),
{
    let segs = s.state.segments;
    let cut = rollback(s, d, m, k);
    let start = MAGIC_LEN as int;
    assert(d.segments.contains_key(segs[m].id) && log_laws::sound(d.segments[segs[m].id]));
    let data = d.segments[cut.target];
    lemma_target(s.state, d, cut.last_valid, m, k);
    lemma_cut_file(d, cut.target, k);
    crate::open_laws::lemma_clean_frontier(data, start);
    frame_laws::lemma_frame_count(data, start);
    frame_laws::lemma_frame_at(data, start, k);
    lemma_drop_record_size(segs, cut.target, cut.byte_offset, m);
    lemma_cut_applies(s.state, cut.byte_offset, m);
}

/// The first step of a rollback: the target is read, and the record is next.
pub proof fn lemma_rollback_reads(s: store::StoreView, d: action::Disk, m: int, k: int)
    requires
        can_roll_back(s, d, m, k),
    ensures
        ({
            let cut = rollback(s, d, m, k);
            let (s1, p1) = store::begin_truncate_end(s, cut.last_valid);
            let (s2, p2) = store::log_op(
                s,
                rollback_op(s, d, m, k),
                store::AfterView::TruncateEnd { cut },
            );
            &&& p1 is Next
            &&& action::perform(d, p1->Next_1) == d
            &&& store::step(s1, p1->Next_0, op_laws::reply(d, p1->Next_1)) == (s2, p2)
        }),
{
    lemma_rollback(s, d, m, k);
    let segs = s.state.segments;
    let cut = rollback(s, d, m, k);
    let last = cut.last_valid;
    let data = d.segments[cut.target];
    let fs = log_laws::segment_frames(d, cut.target);
    let j = lemma_search_start(s, d, last, m, k);
    assert(log_laws::frames_between(
        fs,
        segs[m].first_entry.0 as int,
        log_laws::upper(segs, m),
    ));
    lemma_end_of_id(data, MAGIC_LEN as int, j, k);
    frame_laws::lemma_frame_at(data, MAGIC_LEN as int, j);
    frame_laws::lemma_frame_at(data, MAGIC_LEN as int, k);
    assert(files_opened(data));
}

/// The files and the store once the record of a rollback is there, and the
/// target is active and whole.
#[verifier::spinoff_prover]
pub proof fn lemma_rollback_recorded(
    s: store::StoreView,
    d: action::Disk,
    m: int,
    k: int,
) -> (t: store::StoreView)
    requires
        can_roll_back(s, d, m, k),
    ensures
        ({
            let cut = rollback(s, d, m, k);
            let (s1, p1) = store::begin_truncate_end(s, cut.last_valid);
            let (s2, p2) = store::log_op(
                s,
                rollback_op(s, d, m, k),
                store::AfterView::TruncateEnd { cut },
            );
            let e = op_laws::with_record(d, rollback_op(s, d, m, k));
            &&& manifest_laws::recordable(rollback_op(s, d, m, k))
            &&& op_laws::run(s1, d, p1, 1) == (s2, d, p2)
            &&& op_laws::run(s1, d, p1, 2).1 == e
            &&& op_laws::run(s1, d, p1, 2).2 matches store::ProgressView::Next(
                _,
                action::ActionView::SyncManifest,
            )
            &&& op_laws::run(s1, d, p1, 3) == (
                t,
                e,
                store::ProgressView::Next(
                    store::TaskView::CutTarget { cut },
                    action::ActionView::TruncateSegment { id: cut.target, len: cut.byte_offset },
                ),
            )
            &&& log_laws::fitting(t, e)
            &&& t.state.segments == s.state.segments.take(m + 1)
            &&& t.state == cut_state(s.state, m, cut.byte_offset)
            &&& !t.rollover_pending
            &&& t.trigger == s.trigger
            &&& t.next_seg_id == s.next_seg_id
            &&& t.index == index::index_up_to(s.index, cut.full_last.0)
            &&& t.state.first_entry == s.state.first_entry
            &&& t.state.meta == s.state.meta
            &&& log_laws::log_of(t.state.segments, e) == log_laws::entries_up_to(
                log_laws::log_of(s.state.segments, d),
                cut.full_last.0,
            )
        }),
{
    let st = s.state;
    let segs = st.segments;
    let cut = rollback(s, d, m, k);
    let op = rollback_op(s, d, m, k);
    let after = store::AfterView::TruncateEnd { cut };
    let (s1, p1) = store::begin_truncate_end(s, cut.last_valid);
    let e = op_laws::with_record(d, op);
    let whole = log_laws::segment_frames(d, cut.target).len() - 1;
    let t = cut_store(s, e, m, cut.full_last, cut.byte_offset);
    lemma_rollback(s, d, m, k);
    lemma_rollback_reads(s, d, m, k);
    lemma_recorded_runs(s, d, s1, p1, op, after);
    lemma_whole_segment(d, cut.target);
    assert(e.segments == cut_files(d, cut.target, whole).segments) by {
        assert(d.segments.contains_key(segs[m].id));
    }
    manifest_laws::law_manifest_follows_state(st, d.manifest, op);
    lemma_cut_fitting(s, d, e, m, whole, cut.full_last, cut.byte_offset);
    lemma_cut_log(st, d, e, m, whole, cut.full_last);
    truncate_laws::lemma_range_killed(st, m + 1, segs.len() as int);
    lemma_find_segment_at(segs.take(m + 1), m);
    t
}

/// The first three steps of an operation that reads and writes a record.
proof fn lemma_recorded_runs(
    s: store::StoreView,
    d: action::Disk,
    s1: store::StoreView,
    p1: store::ProgressView,
    op: state::ManifestOpView,
    after: store::AfterView,
)
    requires
        p1 is Next,
        action::perform(d, p1->Next_1) == d,
        store::step(s1, p1->Next_0, op_laws::reply(d, p1->Next_1)) == store::log_op(s, op, after),
        s.manifest == (frame::CursorView {
            pending: Seq::empty(),
            position: d.manifest.len() as u64,
        }),
        d.manifest.len() + store::op_frame(op).len() <= i64::MAX,
    ensures
        ({
            let (s2, p2) = store::log_op(s, op, after);
            let e = op_laws::with_record(d, op);
            let (t, q) = store::proceed(
                store::StoreView {
                    manifest: frame::CursorView {
                        pending: Seq::empty(),
                        position: e.manifest.len() as u64,
                    },
                    state: state::apply_op(s.state, op)->Ok_0,
                    ..s
                },
                after,
            );
            &&& op_laws::run(s1, d, p1, 1) == (s2, d, p2)
            &&& op_laws::run(s1, d, p1, 2).1 == e
            &&& op_laws::run(s1, d, p1, 2).2 matches store::ProgressView::Next(
                _,
                action::ActionView::SyncManifest,
            )
            &&& op_laws::run(s1, d, p1, 3) == (t, e, q)
        }),
{
    let (s2, p2) = store::log_op(s, op, after);
    let e = op_laws::with_record(d, op);
    assert(op_laws::run(s2, d, p2, 0) == (s2, d, p2));
    assert(op_laws::run(s1, d, p1, 1) == op_laws::run(s2, d, p2, 0));
    assert(op_laws::run(s1, d, p1, 2) == op_laws::run(s2, d, p2, 1));
    assert(op_laws::run(s1, d, p1, 3) == op_laws::run(s2, d, p2, 2));
    let d1 = action::perform(d, p2->Next_1);
    assert(s.manifest.pending + store::op_frame(op) =~= store::op_frame(op));
    assert(d1.manifest =~= d.manifest + store::op_frame(op));
    assert(d1 =~= e);
    let (s3, p3) = store::step(s2, p2->Next_0, action::EventView::Done);
    assert(op_laws::run(s3, d1, p3, 0) == (s3, d1, p3));
    assert(op_laws::run(s2, d, p2, 1) == op_laws::run(s3, d1, p3, 0));
    op_laws::lemma_record_written(s, d, op, after, 0);
    let (t, q) = store::proceed(
        store::StoreView {
            manifest: frame::CursorView { pending: Seq::empty(), position: e.manifest.len() as u64 },
            state: state::apply_op(s.state, op)->Ok_0,
            ..s
        },
        after,
    );
    assert(op_laws::run(t, e, q, 0) == (t, e, q));
}

/// Cut off behind its last frame, a segment stays as it is.
proof fn lemma_whole_segment(d: action::Disk, target: SegmentId)
    requires
        log_laws::sound(d.segments[target]),
        log_laws::segment_frames(d, target).len() > 0,
    ensures
        ({
            let k = log_laws::segment_frames(d, target).len() - 1;
            d.segments.contains_key(target) ==> cut_files(d, target, k).segments == d.segments
        }),
{
    let data = d.segments[target];
    let k = log_laws::segment_frames(d, target).len() - 1;
    frame_laws::lemma_frontier(data, MAGIC_LEN as int);
    crate::open_laws::lemma_clean_frontier(data, MAGIC_LEN as int);
    assert(data.take(data.len() as int) =~= data);
    if d.segments.contains_key(target) {
        assert(cut_files(d, target, k).segments =~= d.segments);
    }
}

/// The files and the store once the target is cut off.
#[verifier::spinoff_prover]
pub proof fn lemma_rollback_done(
    s: store::StoreView,
    d: action::Disk,
    m: int,
    k: int,
) -> (t: store::StoreView)
    requires
        can_roll_back(s, d, m, k),
    ensures
        ({
            let cut = rollback(s, d, m, k);
            let (s1, p1) = store::begin_truncate_end(s, cut.last_valid);
            let e = cut_files(
                op_laws::with_record(d, rollback_op(s, d, m, k)),
                cut.target,
                k,
            );
            &&& op_laws::run(s1, d, p1, 4) == (
                t,
                e,
                store::ProgressView::Finished(Outcome::Done),
            )
            &&& log_laws::synced(t, e)
            &&& t.state == op_laws::run(s1, d, p1, 3).0.state
            &&& t.last_entry_id == Some(cut.last_valid)
            &&& t.active_id == cut.target
            &&& !t.rollover_pending
            &&& t.trigger == s.trigger
            &&& t.next_seg_id == s.next_seg_id
            &&& t.index == index::index_up_to(
                index::index_up_to(s.index, cut.full_last.0),
                cut.last_valid.0,
            )
            &&& log_laws::log_of(t.state.segments, e) == log_laws::entries_up_to(
                log_laws::log_of(s.state.segments, d),
                cut.last_valid.0,
            )
        }),
{
    let segs = s.state.segments;
    let cut = rollback(s, d, m, k);
    let last = cut.last_valid;
    let (s1, p1) = store::begin_truncate_end(s, last);
    let t1 = lemma_rollback_recorded(s, d, m, k);
    let e1 = op_laws::with_record(d, rollback_op(s, d, m, k));
    let e = cut_files(e1, cut.target, k);
    let t = cut_store(t1, e, m, last, cut.byte_offset);
    lemma_rollback(s, d, m, k);
    lemma_cut_state_again(s.state, m, cut.byte_offset);
    let fs = log_laws::segment_frames(d, cut.target);
    assert(e1.segments[cut.target] == d.segments[cut.target]);
    assert(t1.state.segments[m] == segs[m]);
    lemma_cut_fitting(t1, e1, e, m, k, last, cut.byte_offset);
    lemma_cut_log(t1.state, e1, e, m, k, last);
    assert(last.0 <= cut.full_last.0) by {
        assert(log_laws::frames_between(
            fs,
            segs[m].first_entry.0 as int,
            log_laws::upper(segs, m),
        ));
        if k < fs.len() - 1 {
            assert(fs[k].id < fs[fs.len() - 1].id);
        }
    }
    lemma_up_to_again(log_laws::log_of(segs, d), cut.full_last.0, last.0);
    assert(t1.state.segments.take(m + 1) =~= t1.state.segments);
    // The last step.
    let p4 = op_laws::run(s1, d, p1, 3).2;
    assert(op_laws::run(s1, d, p1, 4) == op_laws::run(t1, e1, p4, 1)) by {
        op_laws::lemma_run_on(s1, d, p1, 3, 1);
    }
    let (t2, p5) = store::step(t1, p4->Next_0, action::EventView::Done);
    assert(action::perform(e1, p4->Next_1) =~= e);
    assert(op_laws::run(t2, e, p5, 0) == (t2, e, p5));
    assert(e.segments[cut.target] == d.segments[cut.target].take(fs[k].end()));
    assert(t2 =~= t);
    t
}

/// The files of a rollback, step by step: the target is read, the record is
/// written and synced, and the target is cut off.
#[verifier::spinoff_prover]
pub proof fn lemma_rollback_runs(s: store::StoreView, d: action::Disk, m: int, k: int)
    requires
        can_roll_back(s, d, m, k),
    ensures
        ({
            let frame = store::op_frame(rollback_op(s, d, m, k));
            let (s1, p1) = store::begin_truncate_end(s, rollback(s, d, m, k).last_valid);
            let e = action::Disk { manifest: d.manifest + frame, ..d };
            &&& p1 matches store::ProgressView::Next(_, action::ActionView::ReadSegment(_))
            &&& op_laws::run(s1, d, p1, 1).1 == d
            &&& op_laws::run(s1, d, p1, 1).2 matches store::ProgressView::Next(
                _,
                action::ActionView::WriteManifest { offset, bytes },
            ) && offset == d.manifest.len() && bytes == frame
            &&& op_laws::run(s1, d, p1, 2).1 == e
            &&& op_laws::run(s1, d, p1, 2).2 matches store::ProgressView::Next(
                _,
                action::ActionView::SyncManifest,
            )
            &&& op_laws::run(s1, d, p1, 3).1 == e
            &&& op_laws::run(s1, d, p1, 3).2 matches store::ProgressView::Next(
                _,
                action::ActionView::TruncateSegment { .. },
            )
            &&& op_laws::run(s1, d, p1, 4).2 is Finished
        }),
{
    let cut = rollback(s, d, m, k);
    let op = rollback_op(s, d, m, k);
    let frame = store::op_frame(op);
    let after = store::AfterView::TruncateEnd { cut };
    let (s1, p1) = store::begin_truncate_end(s, cut.last_valid);
    lemma_rollback(s, d, m, k);
    lemma_rollback_reads(s, d, m, k);
    assert(s.manifest.pending + frame =~= frame);
    lemma_recorded_runs(s, d, s1, p1, op, after);
    let (t, e, q) = op_laws::run(s1, d, p1, 3);
    op_laws::lemma_run_on(s1, d, p1, 3, 1);
    let (u, r) = store::step(t, q->Next_0, action::EventView::Done);
    let f = action::perform(e, q->Next_1);
    assert(op_laws::run(u, f, r, 0) == (u, f, r));
    assert(op_laws::run(t, e, q, 1) == op_laws::run(u, f, r, 0));
}

/// Of the entries up to one, those up to an earlier one.
pub proof fn lemma_up_to_again(es: Seq<(u64, Seq<u8>)>, a: u64, b: u64)
    requires
        b <= a,
    ensures
        log_laws::entries_up_to(log_laws::entries_up_to(es, a), b) == log_laws::entries_up_to(
            es,
            b,
        ),
    decreases es.len(),
{
    if es.len() > 0 {
        let front = es.drop_last();
        lemma_up_to_again(front, a, b);
        let before = log_laws::entries_up_to(front, a);
        if es.last().0 <= a {
            assert(before.push(es.last()).drop_last() =~= before);
        }
    }
}

/// Law: after the log was rolled back to one of its entries, that entry is the
/// last one, the entries up to it are what they were, nothing else is left, and
/// the store agrees with its files again. Head and metadata do not change. This
/// also completes an earlier rollback that was not.
pub proof fn law_truncate_end_keeps_earlier_entries(
    s: store::StoreView,
    d: action::Disk,
    last: EntryId,
)
    requires
        log_laws::fitting(s, d),
        exists|i: int|
            0 <= i < log_laws::log_of(s.state.segments, d).len() && (#[trigger] log_laws::log_of(
                s.state.segments,
                d,
            )[i]).0 == last.0,
        s.last_entry_id matches Some(id) && last.0 < id.0,
        drop_record_limit(s.state.segments) <= u32::MAX,
        d.manifest.len() + drop_record_limit(s.state.segments) <= i64::MAX,
    ensures
        ({
            let (s1, p1) = store::begin_truncate_end(s, last);
            let (t, e, q) = op_laws::run(s1, d, p1, 4);
            &&& q == store::ProgressView::Finished(Outcome::Done)
            &&& log_laws::synced(t, e)
            &&& log_laws::log_of(t.state.segments, e) == log_laws::entries_up_to(
                log_laws::log_of(s.state.segments, d),
                last.0,
            )
            &&& t.last_entry_id == Some(last)
            &&& t.state.first_entry == s.state.first_entry
            &&& t.state.meta == s.state.meta
        }),
{
    let segs = s.state.segments;
    let i = choose|i: int|
        0 <= i < log_laws::log_of(segs, d).len() && (#[trigger] log_laws::log_of(segs, d)[i]).0
            == last.0;
    let (m, k) = lemma_entry_place(segs, d, i);
    assert(rollback(s, d, m, k).last_valid == last);
    let _ = lemma_rollback_recorded(s, d, m, k);
    let _ = lemma_rollback_done(s, d, m, k);
}

spec fn files_opened(data: Seq<u8>) -> bool {
    crate::files::opened(Ok(data), SEGMENT_MAGIC) == Ok::<Seq<u8>, crate::IoFault>(data)
}

/// The record of a truncation is recordable and takes no more than its limit.
proof fn lemma_drop_record_size(
    segments: Seq<SegmentEntry>,
    target: SegmentId,
    byte_offset: u64,
    m: int,
)
    requires
        0 <= m < segments.len(),
        drop_record_limit(segments) <= u32::MAX,
    ensures
        ({
            let op = store::truncate_end_op(
                target,
                byte_offset,
                truncate_laws::ids_between(segments, m + 1, segments.len() as int),
            );
            &&& manifest_laws::recordable(op)
            &&& store::op_frame(op).len() <= drop_record_limit(segments)
        }),
{
    broadcast use crate::bytes::lemma_be_bytes_len;

    let op = store::truncate_end_op(
        target,
        byte_offset,
        truncate_laws::ids_between(segments, m + 1, segments.len() as int),
    );
    assert(codec::op_fields(op).len() <= segments.len() + 3);
    op_laws::lemma_bare_record_size(op.op);
}

/// Law: rolling back to the last entry or beyond changes nothing, and no entry
/// is lost.
pub proof fn law_truncate_end_beyond_last_is_noop(
    s: store::StoreView,
    d: action::Disk,
    last: EntryId,
)
    requires
        log_laws::fitting(s, d),
        log_laws::log_of(s.state.segments, d).len() > 0 ==> last.0 >= log_laws::log_of(
            s.state.segments,
            d,
        ).last().0,
        s.last_entry_id matches Some(id) ==> last.0 >= id.0,
    ensures
        store::begin_truncate_end(s, last) == (s, store::ProgressView::Finished(Outcome::Done)),
        log_laws::entries_up_to(log_laws::log_of(s.state.segments, d), last.0)
            == log_laws::log_of(s.state.segments, d),
{
    let es = log_laws::log_of(s.state.segments, d);
    crate::log_laws::law_log_ids_increase(s, d);
    assert forall|i: int| 0 <= i < es.len() implies (#[trigger] es[i]).0 <= last.0 by {
        if i < es.len() - 1 {
            assert(es[i].0 < es[es.len() - 1].0);
        }
    }
    log_laws::lemma_up_to_all(es, last.0);
}

// ── An entry that is not there ────────────────────────────────────────────────

/// In a clean file a search for an id that no frame has fails.
proof fn lemma_no_end_of_id(data: Seq<u8>, pos: int, target: u64)
    requires
        frame_laws::clean(data, pos),
        forall|i: int|
            0 <= i < frame::frames(data, pos).len() ==> (
                #[trigger] frame::frames(data, pos)[i]
            ).id != target,
    ensures
        frame::end_of_id(data, pos, target) is Err,
    decreases data.len() - pos,
{
    match frame::raw_frame_at(data, pos) {
        frame::RawFrame::Whole(f) => {
            let fs = frame::frames(data, pos);
            let rest = frame::frames(data, f.end());
            assert(fs =~= seq![f] + rest);
            assert(fs[0] == f);
            assert forall|i: int| 0 <= i < rest.len() implies (#[trigger] rest[i]).id != target by {
                assert(rest[i] == fs[i + 1]);
            }
            lemma_no_end_of_id(data, f.end(), target);
        },
        _ => {},
    }
}

/// Every frame of a segment is an entry of the log.
proof fn lemma_frame_in_log(
    segments: Seq<SegmentEntry>,
    d: action::Disk,
    m: int,
    k: int,
) -> (i: int)
    requires
        0 <= m < segments.len(),
        0 <= k < log_laws::segment_frames(d, segments[m].id).len(),
    ensures
        0 <= i < log_laws::log_of(segments, d).len(),
        log_laws::log_of(segments, d)[i].0 == log_laws::segment_frames(d, segments[m].id)[k].id,
    decreases segments.len(),
{
    let front = segments.drop_last();
    let before = log_laws::log_of(front, d);
    let es = log_laws::entries_of(log_laws::segment_frames(d, segments.last().id));
    if m < front.len() {
        assert(front[m] == segments[m]);
        let i = lemma_frame_in_log(front, d, m, k);
        assert((before + es)[i] == before[i]);
        i
    } else {
        assert((before + es)[before.len() + k] == es[k]);
        before.len() + k
    }
}

proof fn lemma_starting_by_bound(segments: Seq<SegmentEntry>, last: EntryId)
    ensures
        store::starting_by(segments, last) <= segments.len(),
    decreases segments.len(),
{
    if segments.len() > 0 {
        lemma_starting_by_bound(segments.skip(1), last);
    }
}

/// Law: rolling back to an id before the last one that no entry has is refused,
/// and neither the store nor the files change.
pub proof fn law_truncate_end_to_unknown_entry_is_refused(
    s: store::StoreView,
    d: action::Disk,
    last: EntryId,
)
    requires
        log_laws::fitting(s, d),
        forall|i: int|
            0 <= i < log_laws::log_of(s.state.segments, d).len() ==> (#[trigger] log_laws::log_of(
                s.state.segments,
                d,
            )[i]).0 != last.0,
        s.last_entry_id matches Some(id) && last.0 < id.0,
    ensures
        ({
            let (s1, p1) = store::begin_truncate_end(s, last);
            let (t, e, q) = op_laws::run(s1, d, p1, 1);
            &&& q matches store::ProgressView::Failed(crate::store::StoreError::Scan(_))
            &&& t == s
            &&& e == d
        }),
{
    let segs = s.state.segments;
    lemma_starting_by_bound(segs, last);
    let m = store::target_place(segs, last);
    let target = segs[m].id;
    let data = d.segments[target];
    let fs = log_laws::segment_frames(d, target);
    assert(d.segments.contains_key(segs[m].id) && log_laws::sound(d.segments[segs[m].id]));
    let (s1, p1) = store::begin_truncate_end(s, last);
    let start = p1->Next_0->ReadTarget_start_offset;
    assert forall|k: int| 0 <= k < fs.len() implies (#[trigger] fs[k]).id != last.0 by {
        let i = lemma_frame_in_log(segs, d, m, k);
        assert(log_laws::log_of(segs, d)[i].0 != last.0);
    }
    let j = lemma_start_in_target(s, d, last, m);
    if j < 0 {
        assert(frame::frames(data, start as int) == fs);
    } else {
        reader_laws::lemma_frames_from(data, MAGIC_LEN as int, j);
        let tail = fs.skip(j);
        assert forall|k: int| 0 <= k < tail.len() implies (#[trigger] tail[k]).id != last.0 by {
            assert(tail[k] == fs[k + j]);
        }
    }
    lemma_no_end_of_id(data, start as int, last.0);
    let (t, q) = store::step(s1, p1->Next_0, action::EventView::Contents(data));
    assert(action::perform(d, p1->Next_1) == d);
    assert(op_laws::run(t, d, q, 0) == (t, d, q));
}

/// Where the search starts: at a frame of the target, or, told by a negative
/// number, at its first byte.
proof fn lemma_start_in_target(
    s: store::StoreView,
    d: action::Disk,
    last: EntryId,
    m: int,
) -> (j: int)
    requires
        log_laws::fitting(s, d),
        0 <= m < s.state.segments.len(),
    ensures
        ({
            let target = s.state.segments[m].id;
            let start = match index::position_of(s.index, last.0) {
                Some(p) if p.segment == target => p.byte_offset,
                _ => MAGIC_LEN as u64,
            };
            if j < 0 {
                start == MAGIC_LEN
            } else {
                j < log_laws::segment_frames(d, target).len() && log_laws::segment_frames(d, target)[j].start == start
            }
        }),
{
    let segs = s.state.segments;
    let target = segs[m].id;
    let fs = log_laws::segment_frames(d, target);
    match index::position_of(s.index, last.0) {
        Some(p) if p.segment == target => {
            index::lemma_covering(s.index, last.0);
            let i = index::covering(s.index, last.0)->Some_0;
            let cs = s.index[i].1;
            index::lemma_count(cs, last.0 as int);
            let n = index::count_at_most(cs, last.0 as int);
            assert(log_laws::checkpoint_ok(segs, d, s.index[i].0, s.index[i].1[n - 1]));
            choose|j: int|
                0 <= j < fs.len() && (#[trigger] fs[j]).id == cs[n - 1].0.0 && fs[j].start
                    == cs[n - 1].1
        },
        _ => -1,
    }
}

} // verus!
