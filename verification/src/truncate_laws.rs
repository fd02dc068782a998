//! What advancing the log head promises.

use vstd::prelude::*;

use crate::action;
use crate::frame;
use crate::index;
use crate::log_laws;
use crate::manifest_laws;
use crate::op_laws;
use crate::state::{self, ApplyError, SegmentEntry};
use crate::state_laws;
use crate::store::{self, Outcome};
use crate::{EntryId, SegmentId};

verus! {

// ── Killing segments ──────────────────────────────────────────────────────────

proof fn lemma_without_concat(a: Seq<SegmentEntry>, b: Seq<SegmentEntry>, id: SegmentId)
    ensures
        state::without_segment(a + b, id) == state::without_segment(a, id) + state::without_segment(b, id),
    decreases b.len(),
{
    if b.len() == 0 {
        assert(a + b =~= a);
        assert(
            state::without_segment(a, id) + state::without_segment(b, id) =~= state::without_segment(a, id)
        );
    } else {
        assert((a + b).drop_last() =~= a + b.drop_last());
        lemma_without_concat(a, b.drop_last(), id);
        assert(
            state::without_segment(a + b, id) =~= state::without_segment(a, id) + state::without_segment(b, id)
        );
    }
}

proof fn lemma_without_absent(a: Seq<SegmentEntry>, id: SegmentId)
    requires
        forall|i: int| 0 <= i < a.len() ==> (#[trigger] a[i]).id != id,
    ensures
        state::without_segment(a, id) == a,
    decreases a.len(),
{
    if a.len() > 0 {
        lemma_without_absent(a.drop_last(), id);
        assert(a[a.len() - 1].id != id);
        assert(a.drop_last().push(a.last()) =~= a);
    } else {
        assert(a =~= Seq::<SegmentEntry>::empty());
    }
}

/// A segment whose id no other one has is cut out of its place.
proof fn lemma_without_middle(a: Seq<SegmentEntry>, x: SegmentEntry, b: Seq<SegmentEntry>)
    requires
        forall|i: int| 0 <= i < a.len() ==> (#[trigger] a[i]).id != x.id,
        forall|i: int| 0 <= i < b.len() ==> (#[trigger] b[i]).id != x.id,
    ensures
        state::without_segment(a + seq![x] + b, x.id) == a + b,
{
    let id = x.id;
    lemma_without_concat(a + seq![x], b, id);
    lemma_without_concat(a, seq![x], id);
    lemma_without_absent(a, id);
    lemma_without_absent(b, id);
    let one = seq![x];
    reveal_with_fuel(state::without_segment, 2);
    assert(one.drop_last() =~= Seq::<SegmentEntry>::empty());
    assert(state::without_segment(one, id) =~= Seq::<SegmentEntry>::empty());
    assert(a + state::without_segment(one, id) + b =~= a + b);
}

/// The ids of the segments from place `from` on, up to place `to`.
pub open spec fn ids_between(segments: Seq<SegmentEntry>, from: int, to: int) -> Seq<SegmentId> {
    Seq::new((to - from) as nat, |i: int| segments[from + i].id)
}

/// Killing the segments of a range of places cuts them out.
proof fn lemma_kill_range(s: state::StateView, from: int, to: int)
    requires
        store::distinct(s.segments),
        0 <= from <= to <= s.segments.len(),
    ensures
        state::kill_all(s, ids_between(s.segments, from, to)).segments == s.segments.take(from)
            + s.segments.skip(to),
    decreases to - from,
{
    let segs = s.segments;
    let ids = ids_between(segs, from, to);
    if from == to {
        assert(ids =~= Seq::<SegmentId>::empty());
        assert(segs.take(from) + segs.skip(to) =~= segs);
    } else {
        lemma_kill_range(s, from, to - 1);
        assert(ids.drop_last() =~= ids_between(segs, from, to - 1));
        let a = segs.take(from);
        let x = segs[to - 1];
        let b = segs.skip(to);
        assert(ids.last() == x.id);
        assert(segs.take(from) + segs.skip(to - 1) =~= a + seq![x] + b);
        assert forall|i: int| 0 <= i < a.len() implies (#[trigger] a[i]).id != x.id by {
            assert(a[i] == segs[i]);
        }
        assert forall|i: int| 0 <= i < b.len() implies (#[trigger] b[i]).id != x.id by {
            assert(b[i] == segs[to + i]);
        }
        lemma_without_middle(a, x, b);
    }
}

/// A live segment is in a range or not, by its place.
pub proof fn lemma_in_range(segments: Seq<SegmentEntry>, from: int, to: int, i: int)
    requires
        store::distinct(segments),
        0 <= from <= to <= segments.len(),
        0 <= i < segments.len(),
    ensures
        ids_between(segments, from, to).contains(segments[i].id) <==> from <= i < to,
{
    let ids = ids_between(segments, from, to);
    if from <= i < to {
        assert(ids[i - from] == segments[i].id);
    }
    if ids.contains(segments[i].id) {
        let j = choose|j: int| 0 <= j < ids.len() && ids[j] == segments[i].id;
        assert(segments[from + j].id == segments[i].id);
        if i < from + j {
            assert(segments[i].id != segments[from + j].id);
        } else if from + j < i {
            assert(segments[from + j].id != segments[i].id);
        }
    }
}

/// What is live and dead after a range of places was killed.
#[verifier::spinoff_prover]
pub proof fn lemma_range_killed(s: state::StateView, from: int, to: int)
    requires
        store::distinct(s.segments),
        0 <= from <= to <= s.segments.len(),
    ensures
        ({
            let ids = ids_between(s.segments, from, to);
            let t = state::kill_all(s, ids);
            &&& t.segments == s.segments.take(from) + s.segments.skip(to)
            &&& store::distinct(t.segments)
            &&& forall|id: SegmentId| #[trigger]
                t.is_live(id) <==> s.is_live(id) && !ids.contains(id)
            &&& forall|id: SegmentId| #[trigger]
                t.dead.contains(id) <==> s.dead.contains(id) || ids.contains(id)
            &&& forall|id: SegmentId| #[trigger]
                t.seals.contains_key(id) <==> s.seals.contains_key(id) && !ids.contains(id)
            &&& forall|id: SegmentId|
                t.seals.contains_key(id) ==> #[trigger] t.seals[id] == s.seals[id]
            &&& s.dead.no_duplicates() ==> t.dead.no_duplicates()
            &&& t.first_entry == s.first_entry
            &&& t.meta == s.meta
            &&& forall|id: SegmentId| ids.contains(id) ==> #[trigger] s.is_live(id)
        }),
{
    let segs = s.segments;
    let ids = ids_between(segs, from, to);
    let t = state::kill_all(s, ids);
    lemma_kill_range(s, from, to);
    state_laws::lemma_kill_all(s, ids);
    let kept = segs.take(from) + segs.skip(to);
    assert forall|i: int| 0 <= i < kept.len() implies (#[trigger] kept[i]) == segs[if i < from {
        i
    } else {
        i - from + to
    }] by {}
    assert forall|i: int, j: int| 0 <= i < j < kept.len() implies (#[trigger] kept[i]).id != (
    #[trigger] kept[j]).id by {}
    assert forall|id: SegmentId| #[trigger] t.is_live(id) <==> s.is_live(id) && !ids.contains(
        id,
    ) by {
        if t.is_live(id) {
            let i = choose|i: int| 0 <= i < kept.len() && (#[trigger] kept[i]).id == id;
            let p = if i < from {
                i
            } else {
                i - from + to
            };
            assert(segs[p].id == id);
            lemma_in_range(segs, from, to, p);
        }
        if s.is_live(id) && !ids.contains(id) {
            let p = choose|p: int| 0 <= p < segs.len() && (#[trigger] segs[p]).id == id;
            lemma_in_range(segs, from, to, p);
            if p < from {
                assert(kept[p].id == id);
            } else {
                assert(kept[p - to + from].id == id);
            }
        }
    }
    assert forall|id: SegmentId| ids.contains(id) implies #[trigger] s.is_live(id) by {
        let j = choose|j: int| 0 <= j < ids.len() && ids[j] == id;
        assert(segs[from + j].id == id);
    }
}

// ── The index ─────────────────────────────────────────────────────────────────

/// Every checkpoint of the index from `first` on is one of the index, in the
/// same order, and is at least `first`.
#[verifier::spinoff_prover]
proof fn lemma_index_from(
    index: Seq<(SegmentId, Seq<(EntryId, u64)>)>,
    segments: Seq<SegmentEntry>,
    d: action::Disk,
    first: u64,
)
    requires
        log_laws::index_ok(index, segments, d),
    ensures
        ({
            let new = index::index_from(index, first);
            &&& forall|i: int, c: int|
                #![trigger new[i].1[c]]
                0 <= i < new.len() && 0 <= c < new[i].1.len() ==> new[i].1[c].0.0 >= first
                    && log_laws::checkpoint_ok(segments, d, new[i].0, new[i].1[c])
            &&& forall|i: int| 0 <= i < new.len() ==> index::sorted((#[trigger] new[i]).1)
            &&& forall|i: int, j: int, a: int, b: int|
                #![trigger new[i].1[a], new[j].1[b]]
                0 <= i < j < new.len() && 0 <= a < new[i].1.len() && 0 <= b < new[j].1.len()
                    ==> new[i].1[a].0.0 < new[j].1[b].0.0
        }),
{
    let new = index::index_from(index, first);
    index::lemma_covering(index, first);
    let k = match index::covering(index, first) {
        None => 0,
        Some(k) => k,
    };
    let cut = match index::covering(index, first) {
        None => 0,
        Some(k) => {
            index::lemma_count(index[k].1, first - 1);
            index::count_at_most(index[k].1, first - 1)
        },
    };
    assert(new.len() == index.len() - k);
    assert forall|i: int| 0 <= i < new.len() implies (#[trigger] new[i]).0 == index[k + i].0
        && new[i].1 == index[k + i].1.skip(
        if i == 0 {
            cut
        } else {
            0
        },
    ) by {
        assert(index[k + i].1.skip(0) =~= index[k + i].1);
    }
    assert forall|i: int, c: int|
        #![trigger new[i].1[c]]
        0 <= i < new.len() && 0 <= c < new[i].1.len() implies new[i].1[c].0.0 >= first
        && log_laws::checkpoint_ok(segments, d, new[i].0, new[i].1[c]) by {
        let old_cs = index[k + i].1;
        let shift = if i == 0 {
            cut
        } else {
            0
        };
        assert(new[i].1[c] == old_cs[c + shift]);
        assert(log_laws::checkpoint_ok(segments, d, index[k + i].0, index[k + i].1[c + shift]));
        assert(index::sorted(index[k + i].1));
        if index::covering(index, first) is None || i > 0 {
            assert(old_cs[0].0.0 > first);
            assert(old_cs[0].0.0 <= old_cs[c + shift].0.0);
        } else {
            assert(old_cs[c + shift].0.0 <= first - 1 <==> c + shift < cut);
        }
    }
    assert forall|i: int| 0 <= i < new.len() implies index::sorted((#[trigger] new[i]).1) by {
        let old_cs = index[k + i].1;
        let shift = if i == 0 {
            cut
        } else {
            0
        };
        assert(index::sorted(index[k + i].1));
        assert(new[i].1 == old_cs.skip(shift));
    }
    assert forall|i: int, j: int, a: int, b: int|
        #![trigger new[i].1[a], new[j].1[b]]
        0 <= i < j < new.len() && 0 <= a < new[i].1.len() && 0 <= b < new[j].1.len() implies new[i].1[a].0.0
        < new[j].1[b].0.0 by {
        let shift = if i == 0 {
            cut
        } else {
            0
        };
        assert(new[i].1[a] == index[k + i].1[a + shift]);
        assert(new[j].1[b] == index[k + j].1[b]);
    }
}

/// Every checkpoint of the index up to `last` is one of the index, in the same
/// order, and is at most `last`.
#[verifier::spinoff_prover]
pub proof fn lemma_index_up_to(
    index: Seq<(SegmentId, Seq<(EntryId, u64)>)>,
    segments: Seq<SegmentEntry>,
    d: action::Disk,
    last: u64,
)
    requires
        log_laws::index_ok(index, segments, d),
    ensures
        ({
            let new = index::index_up_to(index, last);
            &&& forall|i: int, c: int|
                #![trigger new[i].1[c]]
                0 <= i < new.len() && 0 <= c < new[i].1.len() ==> new[i].1[c].0.0 <= last
                    && log_laws::checkpoint_ok(segments, d, new[i].0, new[i].1[c])
            &&& forall|i: int| 0 <= i < new.len() ==> index::sorted((#[trigger] new[i]).1)
            &&& forall|i: int, j: int, a: int, b: int|
                #![trigger new[i].1[a], new[j].1[b]]
                0 <= i < j < new.len() && 0 <= a < new[i].1.len() && 0 <= b < new[j].1.len()
                    ==> new[i].1[a].0.0 < new[j].1[b].0.0
        }),
{
    let new = index::index_up_to(index, last);
    index::lemma_covering(index, last);
    match index::covering(index, last) {
        None => {},
        Some(k) => {
            index::lemma_count(index[k].1, last as int);
            let n = index::count_at_most(index[k].1, last as int);
            assert(new.len() == k + 1);
            assert forall|i: int| 0 <= i < new.len() implies (#[trigger] new[i]).0 == index[i].0
                && new[i].1 == index[i].1.take(
                if i == k {
                    n
                } else {
                    index[i].1.len() as int
                },
            ) by {
                assert(index[i].1.take(index[i].1.len() as int) =~= index[i].1);
            }
            assert forall|i: int, c: int|
                #![trigger new[i].1[c]]
                0 <= i < new.len() && 0 <= c < new[i].1.len() implies new[i].1[c].0.0 <= last
                && log_laws::checkpoint_ok(segments, d, new[i].0, new[i].1[c]) by {
                assert(new[i].1[c] == index[i].1[c]);
                assert(log_laws::checkpoint_ok(segments, d, index[i].0, index[i].1[c]));
                assert(index::sorted(index[i].1));
                if i < k {
                    assert(index[i].1[c].0.0 < index[k].1[0].0.0);
                } else {
                    assert(index[k].1[c].0.0 <= last <==> c < n);
                }
            }
            assert forall|i: int| 0 <= i < new.len() implies index::sorted(
                (#[trigger] new[i]).1,
            ) by {
                assert(index::sorted(index[i].1));
                assert(forall|c: int|
                    0 <= c < new[i].1.len() ==> #[trigger] new[i].1[c] == index[i].1[c]);
            }
            assert forall|i: int, j: int, a: int, b: int|
                #![trigger new[i].1[a], new[j].1[b]]
                0 <= i < j < new.len() && 0 <= a < new[i].1.len() && 0 <= b
                    < new[j].1.len() implies new[i].1[a].0.0 < new[j].1[b].0.0 by {
                assert(new[i].1[a] == index[i].1[a]);
                assert(new[j].1[b] == index[j].1[b]);
            }
        },
    }
}

// ── Truncate start ────────────────────────────────────────────────────────────

/// The last entries of sealed segments go up with their places.
proof fn lemma_last_entries_increase(st: state::StateView, d: action::Disk, i: int, j: int)
    requires
        log_laws::files_match(st, d),
        log_laws::ordered(st, d),
        0 <= i < j < st.segments.len() - 1,
    ensures
        st.seals[st.segments[i].id].last_entry.0 < st.seals[st.segments[j].id].last_entry.0,
{
    let segs = st.segments;
    let (fi, fj) = (
        log_laws::segment_frames(d, segs[i].id),
        log_laws::segment_frames(d, segs[j].id),
    );
    assert(log_laws::seal_ok(d.segments[segs[i].id], st.seals[segs[i].id]));
    assert(log_laws::seal_ok(d.segments[segs[j].id], st.seals[segs[j].id]));
    assert(log_laws::frames_between(fi, segs[i].first_entry.0 as int, log_laws::upper(segs, i)));
    assert(log_laws::frames_between(fj, segs[j].first_entry.0 as int, log_laws::upper(segs, j)));
    assert(fi[fi.len() - 1].id < log_laws::upper(segs, i));
    assert(fj[fj.len() - 1].id >= segs[j].first_entry.0);
    assert(segs[i + 1].first_entry.0 <= segs[j].first_entry.0);
}

/// The evicted segments among the first `j` are the first `m` ones.
proof fn lemma_evicted_prefix(
    st: state::StateView,
    d: action::Disk,
    first: EntryId,
    j: int,
) -> (m: int)
    requires
        log_laws::files_match(st, d),
        log_laws::ordered(st, d),
        0 <= j <= st.segments.len(),
    ensures
        0 <= m <= j,
        m <= st.segments.len() - 1,
        store::evicted(st.segments.take(j), st.seals, first) == ids_between(st.segments, 0, m),
        forall|i: int|
            0 <= i < m ==> st.seals[(#[trigger] st.segments[i]).id].last_entry.0 < first.0,
        forall|i: int|
            m <= i < j && i < st.segments.len() - 1 ==> st.seals[(
            #[trigger] st.segments[i]).id].last_entry.0 >= first.0,
    decreases j,
{
    let segs = st.segments;
    let n = segs.len() as int;
    if j == 0 {
        assert(ids_between(segs, 0, 0) =~= Seq::<SegmentId>::empty());
        0
    } else {
        let m = lemma_evicted_prefix(st, d, first, j - 1);
        let id = segs[j - 1].id;
        assert(segs.take(j).drop_last() =~= segs.take(j - 1));
        assert(st.seals.contains_key(segs[j - 1].id) <==> j - 1 < n - 1);
        if j - 1 < n - 1 && st.seals[id].last_entry.0 < first.0 {
            assert(m == j - 1) by {
                if m < j - 1 {
                    lemma_last_entries_increase(st, d, m, j - 1);
                    assert(st.seals[segs[m].id].last_entry.0 >= first.0);
                }
            }
            assert(ids_between(segs, 0, j) =~= ids_between(segs, 0, m).push(id));
            j
        } else {
            m
        }
    }
}

/// Files and state agree after the first `m` segments, which are sealed, died.
#[verifier::spinoff_prover]
proof fn lemma_first_segments_died(
    st: state::StateView,
    new: state::StateView,
    d: action::Disk,
    e: action::Disk,
    m: int,
)
    requires
        log_laws::files_match(st, d),
        0 <= m < st.segments.len(),
        ({
            let killed = state::kill_all(st, ids_between(st.segments, 0, m));
            &&& new.segments == killed.segments
            &&& new.seals == killed.seals
            &&& new.dead == killed.dead
        }),
        new.active == st.active,
        new.cut_at == st.cut_at,
        e.segments == d.segments,
        manifest_laws::manifest_ok(new, e.manifest),
        e.manifest.len() <= i64::MAX,
    ensures
        new.segments == st.segments.skip(m),
        log_laws::files_match(new, e),
{
    let segs = st.segments;
    let n = segs.len() as int;
    let ids = ids_between(segs, 0, m);
    let rest = segs.skip(m);
    lemma_range_killed(st, 0, m);
    let killed = state::kill_all(st, ids);
    assert(segs.take(0) + rest =~= rest);
    assert forall|i: int| 0 <= i < rest.len() implies (#[trigger] rest[i]) == segs[i + m]
        && !ids.contains(rest[i].id) by {
        lemma_in_range(segs, 0, m, i + m);
    }
    assert forall|id: SegmentId| #[trigger] new.is_live(id) == killed.is_live(id) by {
        assert(new.segments == killed.segments);
    }
    assert forall|i: int| 0 <= i < rest.len() implies e.segments.contains_key(
        (#[trigger] rest[i]).id,
    ) && log_laws::sound(e.segments[rest[i].id]) by {
        assert(d.segments.contains_key(segs[i + m].id) && log_laws::sound(
            d.segments[segs[i + m].id],
        ));
    }
    assert forall|i: int| 0 <= i < rest.len() implies (new.seals.contains_key(
        (#[trigger] rest[i]).id,
    ) <==> i < rest.len() - 1) by {
        assert(st.seals.contains_key(segs[i + m].id) <==> i + m < n - 1);
    }
    assert forall|i: int| 0 <= i < rest.len() - 1 implies log_laws::seal_ok(
        e.segments[(#[trigger] rest[i]).id],
        new.seals[rest[i].id],
    ) by {
        assert(log_laws::seal_ok(d.segments[segs[i + m].id], st.seals[segs[i + m].id]));
        assert(new.seals.contains_key(rest[i].id));
    }
    assert forall|id: SegmentId| #[trigger] new.seals.contains_key(id) implies new.is_live(id) by {
        assert(st.seals.contains_key(id));
        assert(st.is_live(id));
    }
    assert forall|id: SegmentId| #[trigger] e.segments.contains_key(id) <==> new.is_live(id)
        || new.dead.contains(id) by {
        assert(d.segments.contains_key(id) <==> st.is_live(id) || st.dead.contains(id));
    }
    assert forall|i: int| 0 <= i < new.dead.len() implies !new.is_live(#[trigger] new.dead[i]) by {
        let id = new.dead[i];
        assert(new.dead.contains(id));
        if st.dead.contains(id) {
            let j = choose|j: int| 0 <= j < st.dead.len() && st.dead[j] == id;
            assert(!st.is_live(st.dead[j]));
        }
    }
    assert(rest.last() == segs.last());
}

/// The segments after the first `m` are in order.
proof fn lemma_rest_ordered(
    st: state::StateView,
    new: state::StateView,
    d: action::Disk,
    e: action::Disk,
    m: int,
)
    requires
        log_laws::ordered(st, d),
        0 <= m < st.segments.len(),
        new.segments == st.segments.skip(m),
        e.segments == d.segments,
    ensures
        log_laws::ordered(new, e),
{
    let segs = st.segments;
    let rest = segs.skip(m);
    assert(forall|i: int| 0 <= i < rest.len() ==> (#[trigger] rest[i]) == segs[i + m]);
    assert forall|i: int| 0 <= i < rest.len() implies log_laws::frames_between(
        log_laws::segment_frames(e, (#[trigger] rest[i]).id),
        rest[i].first_entry.0 as int,
        log_laws::upper(rest, i),
    ) by {
        assert(log_laws::frames_between(
            log_laws::segment_frames(d, segs[i + m].id),
            segs[i + m].first_entry.0 as int,
            log_laws::upper(segs, i + m),
        ));
        if i + 1 < rest.len() {
            assert(rest[i + 1] == segs[i + 1 + m]);
        }
    }
}

/// Every entry of the first `m` segments comes before `first`.
spec fn all_before(segments: Seq<SegmentEntry>, d: action::Disk, m: int, first: EntryId) -> bool {
    forall|i: int, k: int|
        0 <= i < m && 0 <= k < log_laws::segment_frames(d, segments[i].id).len() ==> (
        #[trigger] log_laws::segment_frames(d, segments[i].id)[k]).id < first.0
}

/// The entries of segments that were sealed with a last entry before `first` all
/// come before it.
proof fn lemma_all_before(st: state::StateView, d: action::Disk, m: int, first: EntryId)
    requires
        log_laws::files_match(st, d),
        log_laws::ordered(st, d),
        0 <= m < st.segments.len(),
        forall|i: int|
            0 <= i < m ==> st.seals[(#[trigger] st.segments[i]).id].last_entry.0 < first.0,
    ensures
        all_before(st.segments, d, m, first),
{
    let segs = st.segments;
    assert forall|i: int, k: int|
        0 <= i < m && 0 <= k < log_laws::segment_frames(d, segs[i].id).len() implies (
    #[trigger] log_laws::segment_frames(d, segs[i].id)[k]).id < first.0 by {
        let fs = log_laws::segment_frames(d, segs[i].id);
        assert(log_laws::seal_ok(d.segments[segs[i].id], st.seals[segs[i].id]));
        assert(log_laws::frames_between(
            fs,
            segs[i].first_entry.0 as int,
            log_laws::upper(segs, i),
        ));
        assert(fs[fs.len() - 1].id < first.0);
        if k < fs.len() - 1 {
            assert(fs[k].id < fs[fs.len() - 1].id);
        }
    }
}

/// The index from `first` on leads to segments after the first `m`.
proof fn lemma_index_from_ok(
    index: Seq<(SegmentId, Seq<(EntryId, u64)>)>,
    segs: Seq<SegmentEntry>,
    d: action::Disk,
    e: action::Disk,
    m: int,
    first: EntryId,
)
    requires
        log_laws::index_ok(index, segs, d),
        0 <= m < segs.len(),
        all_before(segs, d, m, first),
        e.segments == d.segments,
    ensures
        log_laws::index_ok(index::index_from(index, first.0), segs.skip(m), e),
{
    let rest = segs.skip(m);
    let new = index::index_from(index, first.0);
    lemma_index_from(index, segs, d, first.0);
    assert forall|i: int, c: int|
        #![trigger new[i].1[c]]
        0 <= i < new.len() && 0 <= c < new[i].1.len() implies log_laws::checkpoint_ok(
        rest,
        e,
        new[i].0,
        new[i].1[c],
    ) by {
        assert(log_laws::checkpoint_ok(segs, d, new[i].0, new[i].1[c]));
        let p = choose|p: int| 0 <= p < segs.len() && (#[trigger] segs[p]).id == new[i].0;
        let fs = log_laws::segment_frames(d, segs[p].id);
        let k = choose|k: int|
            0 <= k < fs.len() && (#[trigger] fs[k]).id == new[i].1[c].0.0 && fs[k].start
                == new[i].1[c].1;
        if p < m {
            assert(log_laws::segment_frames(d, segs[p].id)[k].id < first.0);
        }
        assert(rest[p - m].id == new[i].0);
    }
}

/// The store after the log head was advanced and the first `m` segments died.
spec fn advanced_head(
    s: store::StoreView,
    e: action::Disk,
    first: EntryId,
    meta: Seq<(u8, Seq<u8>)>,
    m: int,
) -> store::StoreView {
    let killed = state::kill_all(s.state, ids_between(s.state.segments, 0, m));
    store::StoreView {
        manifest: frame::CursorView { pending: Seq::empty(), position: e.manifest.len() as u64 },
        state: state::StateView {
            first_entry: first,
            meta: state::merge_meta(s.state.meta, meta),
            ..killed
        },
        index: index::index_from(s.index, first.0),
        ..s
    }
}

/// Files and store agree after the log head was advanced.
#[verifier::spinoff_prover]
proof fn lemma_advanced_head_synced(
    s: store::StoreView,
    d: action::Disk,
    e: action::Disk,
    first: EntryId,
    meta: Seq<(u8, Seq<u8>)>,
    m: int,
)
    requires
        log_laws::synced(s, d),
        0 <= m < s.state.segments.len(),
        all_before(s.state.segments, d, m, first),
        e.segments == d.segments,
        manifest_laws::manifest_ok(advanced_head(s, e, first, meta, m).state, e.manifest),
        e.manifest.len() <= i64::MAX,
    ensures
        log_laws::synced(advanced_head(s, e, first, meta, m), e),
        advanced_head(s, e, first, meta, m).state.segments == s.state.segments.skip(m),
{
    let st = s.state;
    let segs = st.segments;
    let n = segs.len() as int;
    let t = advanced_head(s, e, first, meta, m);
    let rest = segs.skip(m);
    assert(t.state.active == st.active && t.state.cut_at == st.cut_at) by {
        state_laws::lemma_kill_all(st, ids_between(segs, 0, m));
    }
    lemma_first_segments_died(st, t.state, d, e, m);
    assert(log_laws::ordered(t.state, e)) by {
        lemma_rest_ordered(st, t.state, d, e, m);
    }
    assert(log_laws::index_ok(t.index, rest, e)) by {
        lemma_index_from_ok(s.index, segs, d, e, m, first);
    }
    assert(rest.last() == segs.last());
    assert(log_laws::last_ok(t, e)) by {
        if rest.len() > 1 {
            lemma_seal_kept(st, m, n - 2);
            assert(rest[rest.len() - 2] == segs[n - 2]);
            assert(st.seals.contains_key(segs[n - 2].id));
        }
    }
    assert(log_laws::segment_frames(e, t.active_id) == log_laws::segment_frames(d, s.active_id));
    assert(log_laws::memory_matches(t, e));
}

/// A sealed segment that does not die keeps its seal.
proof fn lemma_seal_kept(st: state::StateView, m: int, i: int)
    requires
        store::distinct(st.segments),
        0 <= m <= i < st.segments.len(),
        st.seals.contains_key(st.segments[i].id),
    ensures
        state::kill_all(st, ids_between(st.segments, 0, m)).seals[st.segments[i].id]
            == st.seals[st.segments[i].id],
{
    lemma_range_killed(st, 0, m);
    lemma_in_range(st.segments, 0, m, i);
}

/// Law: after the log head was advanced, the entries from it on are those that
/// were there before, the store agrees with its files again, and the metadata
/// that came with the operation is set. The segments that are left are the last
/// ones.
#[verifier::spinoff_prover]
pub proof fn law_truncate_start_keeps_later_entries(
    s: store::StoreView,
    d: action::Disk,
    first: EntryId,
    meta: Seq<(u8, Seq<u8>)>,
)
    requires
        log_laws::synced(s, d),
        first.0 >= s.state.first_entry.0,
        manifest_laws::recordable(store::truncate_start_op(s.state, first, meta)),
        d.manifest.len() + store::op_frame(store::truncate_start_op(s.state, first, meta)).len()
            <= i64::MAX,
    ensures
        ({
            let (s1, p1) = store::begin_truncate_start(s, first, meta);
            let (t, e, q) = op_laws::run(s1, d, p1, 2);
            &&& q == store::ProgressView::Finished(Outcome::Done)
            &&& log_laws::synced(t, e)
            &&& t.state.first_entry == first
            &&& t.state.meta == state::merge_meta(s.state.meta, meta)
            &&& e.segments == d.segments
            &&& exists|k: int|
                0 <= k < s.state.segments.len() && t.state.segments
                    == #[trigger] s.state.segments.skip(k)
            &&& log_laws::entries_from(log_laws::log_of(t.state.segments, e), first.0)
                == log_laws::entries_from(log_laws::log_of(s.state.segments, d), first.0)
        }),
{
    let st = s.state;
    let segs = st.segments;
    let n = segs.len() as int;
    let op = store::truncate_start_op(st, first, meta);
    let after = store::AfterView::TruncateStart { first_entry: first };
    let (s1, p1) = store::begin_truncate_start(s, first, meta);
    let e = op_laws::with_record(d, op);
    let m = lemma_evicted_prefix(st, d, first, n);
    assert(segs.take(n) =~= segs);
    let t = advanced_head(s, e, first, meta, m);
    state_laws::lemma_kill_all(st, ids_between(segs, 0, m));
    assert(state::apply_op(st, op) == Ok::<_, ApplyError>(t.state));
    assert(op_laws::run(s1, d, p1, 2) == (
        t,
        e,
        store::ProgressView::Finished(Outcome::Done),
    )) by {
        op_laws::lemma_record_written(s, d, op, after, 0);
    }
    assert(manifest_laws::manifest_ok(t.state, e.manifest)) by {
        manifest_laws::law_manifest_follows_state(st, d.manifest, op);
    }
    lemma_all_before(st, d, m, first);
    lemma_advanced_head_synced(s, d, e, first, meta, m);
    lemma_log_from_head(st, d, e, first, m);
}

/// Dropping segments whose entries all come before `first` leaves
/// the entries from `first` on.
proof fn lemma_log_from_head(
    st: state::StateView,
    d: action::Disk,
    e: action::Disk,
    first: EntryId,
    m: int,
)
    requires
        0 <= m <= st.segments.len(),
        all_before(st.segments, d, m, first),
        e.segments == d.segments,
    ensures
        log_laws::entries_from(log_laws::log_of(st.segments.skip(m), e), first.0)
            == log_laws::entries_from(log_laws::log_of(st.segments, d), first.0),
{
    let segs = st.segments;
    let rest = segs.skip(m);
    log_laws::lemma_log_same_files(rest, d, e);
    assert(segs =~= segs.take(m) + rest);
    log_laws::lemma_log_split(segs.take(m), rest, d);
    log_laws::lemma_from_concat(
        log_laws::log_of(segs.take(m), d),
        log_laws::log_of(rest, d),
        first.0,
    );
    lemma_evicted_entries(st, d, first, m);
    assert(log_laws::entries_from(log_laws::log_of(segs, d), first.0)
        =~= log_laws::entries_from(log_laws::log_of(rest, d), first.0));
}

/// Where every entry of the first `m` segments comes before `first`, none of
/// them is left from `first` on.
proof fn lemma_evicted_entries(st: state::StateView, d: action::Disk, first: EntryId, m: int)
    requires
        0 <= m <= st.segments.len(),
        all_before(st.segments, d, m, first),
    ensures
        log_laws::entries_from(log_laws::log_of(st.segments.take(m), d), first.0)
            == Seq::<(u64, Seq<u8>)>::empty(),
    decreases m,
{
    let segs = st.segments;
    if m > 0 {
        lemma_evicted_entries(st, d, first, m - 1);
        assert(segs.take(m).drop_last() =~= segs.take(m - 1));
        let fs = log_laws::segment_frames(d, segs[m - 1].id);
        let es = log_laws::entries_of(fs);
        assert forall|i: int| 0 <= i < es.len() implies (#[trigger] es[i]).0 < first.0 by {
            assert(log_laws::segment_frames(d, segs[m - 1].id)[i].id < first.0);
        }
        log_laws::lemma_from_none(es, first.0);
        log_laws::lemma_from_concat(log_laws::log_of(segs.take(m - 1), d), es, first.0);
        assert(
            log_laws::entries_from(log_laws::log_of(segs.take(m), d), first.0)
                =~= Seq::<(u64, Seq<u8>)>::empty()
        );
    }
}

/// Law: a new head before the current one is refused, and nothing changes.
pub proof fn law_head_before_current_is_refused(
    s: store::StoreView,
    first: EntryId,
    meta: Seq<(u8, Seq<u8>)>,
)
    requires
        first.0 < s.state.first_entry.0,
    ensures
        store::begin_truncate_start(s, first, meta) == (
            s,
            store::ProgressView::Failed(crate::store::StoreError::BeforeHead),
        ),
{
}

} // verus!
