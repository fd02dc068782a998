//! What the state machine promises.

use vstd::prelude::*;

use crate::scan;
use crate::state::{self, ApplyError, SegmentEntry};
use crate::store;
use crate::SegmentId;

verus! {

/// A record without metadata.
pub open spec fn bare(op: state::OpView) -> state::ManifestOpView {
    state::ManifestOpView { op, meta: Seq::empty() }
}

// ── Dead segments ─────────────────────────────────────────────────────────────

#[verifier::spinoff_prover]
pub proof fn lemma_without_id(ids: Seq<SegmentId>, id: SegmentId)
    ensures
        forall|x: SegmentId| #[trigger]
            state::without_id(ids, id).contains(x) <==> x != id && ids.contains(x),
        ids.no_duplicates() ==> state::without_id(ids, id).no_duplicates(),
        state::without_id(ids, id).len() <= ids.len(),
    decreases ids.len(),
{
    if ids.len() > 0 {
        let front = ids.drop_last();
        lemma_without_id(front, id);
        let before = state::without_id(front, id);
        let after = state::without_id(ids, id);
        assert forall|x: SegmentId| #[trigger] after.contains(x) <==> x != id && ids.contains(
            x,
        ) by {
            if after.contains(x) {
                let i = choose|i: int| 0 <= i < after.len() && after[i] == x;
                if i < before.len() {
                    assert(before[i] == x);
                    assert(before.contains(x));
                    let j = choose|j: int| 0 <= j < front.len() && front[j] == x;
                    assert(ids[j] == x);
                } else {
                    assert(ids[ids.len() - 1] == x);
                }
            }
            if x != id && ids.contains(x) {
                let j = choose|j: int| 0 <= j < ids.len() && ids[j] == x;
                if j < front.len() {
                    assert(front[j] == x);
                    assert(before.contains(x));
                    let i = choose|i: int| 0 <= i < before.len() && before[i] == x;
                    assert(after[i] == x);
                } else {
                    assert(after[before.len() as int] == x);
                }
            }
        }
        if ids.no_duplicates() {
            assert(front.no_duplicates());
            if ids.last() != id {
                assert(!front.contains(ids.last()));
                assert(!before.contains(ids.last()));
            }
        }
    }
}

pub proof fn lemma_insert_dead(dead: Seq<SegmentId>, id: SegmentId)
    ensures
        forall|x: SegmentId| #[trigger]
            state::insert_dead(dead, id).contains(x) <==> x == id || dead.contains(x),
        dead.no_duplicates() ==> state::insert_dead(dead, id).no_duplicates(),
{
    if !dead.contains(id) {
        let after = dead.push(id);
        assert forall|x: SegmentId| #[trigger] after.contains(x) <==> x == id || dead.contains(
            x,
        ) by {
            if dead.contains(x) {
                let i = choose|i: int| 0 <= i < dead.len() && dead[i] == x;
                assert(after[i] == x);
            }
            assert(after[dead.len() as int] == id);
        }
    }
}

#[verifier::spinoff_prover]
pub proof fn lemma_without_segment(segments: Seq<SegmentEntry>, id: SegmentId)
    ensures
        forall|x: SegmentEntry| #[trigger]
            state::without_segment(
                segments,
                id,
            ).contains(x) <==> x.id != id && segments.contains(x),
    decreases segments.len(),
{
    if segments.len() > 0 {
        let front = segments.drop_last();
        lemma_without_segment(front, id);
        let before = state::without_segment(front, id);
        let after = state::without_segment(segments, id);
        assert forall|x: SegmentEntry| #[trigger] after.contains(x) <==> x.id != id
            && segments.contains(x) by {
            if after.contains(x) {
                let i = choose|i: int| 0 <= i < after.len() && after[i] == x;
                if i < before.len() {
                    assert(before[i] == x);
                    assert(before.contains(x));
                    let j = choose|j: int| 0 <= j < front.len() && front[j] == x;
                    assert(segments[j] == x);
                } else {
                    assert(segments[segments.len() - 1] == x);
                }
            }
            if x.id != id && segments.contains(x) {
                let j = choose|j: int| 0 <= j < segments.len() && segments[j] == x;
                if j < front.len() {
                    assert(front[j] == x);
                    assert(before.contains(x));
                    let i = choose|i: int| 0 <= i < before.len() && before[i] == x;
                    assert(after[i] == x);
                } else {
                    assert(after[before.len() as int] == x);
                }
            }
        }
    }
}

pub proof fn lemma_kill_all(s: state::StateView, ids: Seq<SegmentId>)
    ensures
        ({
            let t = state::kill_all(s, ids);
            &&& forall|x: SegmentEntry| #[trigger]
                t.segments.contains(x) <==> s.segments.contains(x) && !ids.contains(x.id)
            &&& forall|x: SegmentId| #[trigger]
                t.dead.contains(x) <==> s.dead.contains(x) || ids.contains(x)
            &&& forall|x: SegmentId| #[trigger]
                t.seals.contains_key(x) <==> s.seals.contains_key(x) && !ids.contains(x)
            &&& forall|x: SegmentId|
                t.seals.contains_key(x) ==> #[trigger] t.seals[x] == s.seals[x]
            &&& s.dead.no_duplicates() ==> t.dead.no_duplicates()
            &&& t.active == s.active
            &&& t.first_entry == s.first_entry
            &&& t.meta == s.meta
            &&& t.cut_at == s.cut_at
        }),
    decreases ids.len(),
{
    if ids.len() > 0 {
        let front = ids.drop_last();
        let m = state::kill_all(s, front);
        lemma_kill_all(s, front);
        lemma_without_segment(m.segments, ids.last());
        lemma_insert_dead(m.dead, ids.last());
        assert forall|x: SegmentId| ids.contains(x) <==> front.contains(x) || x == ids.last() by {
            if ids.contains(x) {
                let i = choose|i: int| 0 <= i < ids.len() && ids[i] == x;
                if i < front.len() {
                    assert(front[i] == x);
                }
            }
            if front.contains(x) {
                let i = choose|i: int| 0 <= i < front.len() && front[i] == x;
                assert(ids[i] == x);
            }
            assert(ids[ids.len() - 1] == ids.last());
        }
        let t = state::kill_all(s, ids);
        assert(t == state::kill(m, ids.last()));
    }
}

/// Law: a truncation moves exactly the listed segments from the live ones to
/// the dead ones. No listed segment stays live or sealed, and nothing else dies.
pub proof fn law_dropped_segments_die(
    s: state::StateView,
    e: state::ManifestOpView,
    drop: Seq<SegmentId>,
)
    requires
        e.op is TruncateStart && e.op->TruncateStart_drop == drop || e.op is TruncateEnd
            && e.op->TruncateEnd_drop == drop,
        state::apply_op(s, e) is Ok,
    ensures
        ({
            let t = state::apply_op(s, e)->Ok_0;
            &&& forall|x: SegmentEntry| #[trigger]
                t.segments.contains(x) <==> s.segments.contains(x) && !drop.contains(x.id)
            &&& forall|x: SegmentId| #[trigger]
                t.dead.contains(x) <==> s.dead.contains(x) || drop.contains(x)
            &&& forall|x: SegmentId| drop.contains(x) ==> !#[trigger] t.seals.contains_key(x)
        }),
{
    lemma_kill_all(s, drop);
}

/// Law: recording an orphan a second time changes nothing.
pub proof fn law_record_orphan_is_idempotent(s: state::StateView, id: SegmentId)
    ensures
        ({
            let op = bare(state::OpView::RecordOrphan { id });
            &&& state::apply_op(s, op) is Ok
            &&& state::apply_op(state::apply_op(s, op)->Ok_0, op) == state::apply_op(s, op)
            &&& state::apply_op(s, op)->Ok_0.dead.contains(id)
            &&& state::apply_op(s, op)->Ok_0.segments == s.segments
        }),
{
    lemma_insert_dead(s.dead, id);
    let t = state::insert_dead(s.dead, id);
    assert(t.contains(id));
    assert(state::insert_dead(t, id) == t);
}

/// Law: a deleted segment is no longer dead, and can be deleted only while it is
/// dead.
pub proof fn law_deleted_segment_is_forgotten(s: state::StateView, id: SegmentId)
    ensures
        ({
            let op = bare(state::OpView::SegmentDeleted { id });
            &&& state::apply_op(s, op) is Ok <==> s.dead.contains(id)
            &&& state::apply_op(s, op) is Ok ==> {
                let t = state::apply_op(s, op)->Ok_0;
                &&& forall|x: SegmentId| #[trigger]
                    t.dead.contains(x) <==> x != id && s.dead.contains(x)
                &&& state::apply_op(t, op) == Err::<state::StateView, _>(
                    ApplyError::SegmentNotDead(id),
                )
            }
        }),
{
    lemma_without_id(s.dead, id);
}

/// Law: no segment is dead twice, whatever record is applied.
pub proof fn law_no_segment_dies_twice(s: state::StateView, e: state::ManifestOpView)
    requires
        s.dead.no_duplicates(),
        state::apply_op(s, e) is Ok,
    ensures
        state::apply_op(s, e)->Ok_0.dead.no_duplicates(),
{
    match e.op {
        state::OpView::TruncateStart { drop, .. } => lemma_kill_all(s, drop),
        state::OpView::TruncateEnd { drop, .. } => lemma_kill_all(s, drop),
        state::OpView::SegmentDeleted { id } => lemma_without_id(s.dead, id),
        state::OpView::RecordOrphan { id } => lemma_insert_dead(s.dead, id),
        _ => {},
    }
}

/// Law: the log head never moves back. Only the creation of a first segment,
/// which starts a log anew, sets it freely.
pub proof fn law_head_never_moves_back(s: state::StateView, e: state::ManifestOpView)
    requires
        !(e.op is CreateSegment),
        state::apply_op(s, e) is Ok,
    ensures
        s.first_entry.0 <= state::apply_op(s, e)->Ok_0.first_entry.0,
{
    match e.op {
        state::OpView::TruncateStart { drop, .. } => lemma_kill_all(s, drop),
        state::OpView::TruncateEnd { drop, .. } => lemma_kill_all(s, drop),
        _ => {},
    }
}

// ── Segments ──────────────────────────────────────────────────────────────────

/// The segments that are not dropped, in order.
pub open spec fn survivors(segments: Seq<SegmentEntry>, drop: Seq<SegmentId>) -> Seq<SegmentEntry> {
    segments.filter(|x: SegmentEntry| !drop.contains(x.id))
}

proof fn lemma_survivors_push(segments: Seq<SegmentEntry>, x: SegmentEntry, drop: Seq<SegmentId>)
    ensures
        survivors(segments.push(x), drop) == if drop.contains(x.id) {
            survivors(segments, drop)
        } else {
            survivors(segments, drop).push(x)
        },
{
    reveal(Seq::filter);
    assert(segments.push(x).drop_last() =~= segments);
}

/// Dropping one segment more.
proof fn lemma_one_more_dropped(
    segments: Seq<SegmentEntry>,
    drop: Seq<SegmentId>,
    id: SegmentId,
)
    ensures
        state::without_segment(survivors(segments, drop), id) == survivors(
            segments,
            drop.push(id),
        ),
    decreases segments.len(),
{
    let more = drop.push(id);
    if segments.len() == 0 {
        reveal(Seq::filter);
    } else {
        let front = segments.drop_last();
        let x = segments.last();
        assert(segments =~= front.push(x));
        lemma_one_more_dropped(front, drop, id);
        lemma_survivors_push(front, x, drop);
        lemma_survivors_push(front, x, more);
        assert(more.contains(x.id) <==> drop.contains(x.id) || x.id == id) by {
            if drop.contains(x.id) {
                let i = choose|i: int| 0 <= i < drop.len() && drop[i] == x.id;
                assert(more[i] == x.id);
            }
            assert(more[drop.len() as int] == id);
        }
        let kept = survivors(front, drop);
        assert(kept.push(x).drop_last() =~= kept);
    }
}

/// Killing segments leaves the others, in order.
pub proof fn lemma_killed_are_dropped(s: state::StateView, ids: Seq<SegmentId>)
    ensures
        state::kill_all(s, ids).segments == survivors(s.segments, ids),
    decreases ids.len(),
{
    if ids.len() == 0 {
        assert(ids =~= Seq::<SegmentId>::empty());
        lemma_all_survive(s.segments, ids);
    } else {
        let front = ids.drop_last();
        lemma_killed_are_dropped(s, front);
        lemma_one_more_dropped(s.segments, front, ids.last());
        assert(ids =~= front.push(ids.last()));
    }
}

/// Law: no segment is forgotten. A segment that is live or dead stays so whatever
/// record is applied, but for the record of its deletion. Surviving segments keep
/// their order and their first entries, only the creation and the rollover of a
/// segment add one, at the end, and only the creation and an advance of the head
/// change where the log starts.
pub proof fn law_no_segment_is_forgotten(
    s: state::StateView,
    e: state::ManifestOpView,
    id: SegmentId,
)
    requires
        state::apply_op(s, e) is Ok,
    ensures
        ({
            let t = state::apply_op(s, e)->Ok_0;
            let deleted = e.op == (state::OpView::SegmentDeleted { id });
            &&& scan::is_known(s, id) && !deleted ==> scan::is_known(t, id)
            &&& s.dead.contains(id) && !deleted ==> t.dead.contains(id)
            &&& t.segments == match e.op {
                state::OpView::CreateSegment { id, first_entry } => s.segments.push(
                    SegmentEntry { id, first_entry },
                ),
                state::OpView::RollSegment { new_id, new_first_entry, .. } => s.segments.push(
                    SegmentEntry { id: new_id, first_entry: new_first_entry },
                ),
                state::OpView::TruncateStart { drop, .. } => survivors(s.segments, drop),
                state::OpView::TruncateEnd { drop, .. } => survivors(s.segments, drop),
                _ => s.segments,
            }
            &&& !(e.op is CreateSegment) && !(e.op is TruncateStart) ==> t.first_entry
                == s.first_entry
            &&& e.op is TruncateStart ==> t.first_entry.0 >= s.first_entry.0
        }),
{
    let t = state::apply_op(s, e)->Ok_0;
    match e.op {
        state::OpView::CreateSegment { id: new, first_entry } => {
            assert(s.segments.push(SegmentEntry { id: new, first_entry }) =~= t.segments);
        },
        state::OpView::RollSegment { new_id, new_first_entry, .. } => {
            if s.is_live(id) {
                let i = choose|i: int|
                    0 <= i < s.segments.len() && (#[trigger] s.segments[i]).id == id;
                assert(t.segments[i].id == id);
            }
        },
        state::OpView::TruncateStart { drop, .. } => lemma_dropped_are_known(s, t, drop, id),
        state::OpView::TruncateEnd { drop, .. } => lemma_dropped_are_known(s, t, drop, id),
        state::OpView::SegmentDeleted { id: gone } => {
            lemma_without_id(s.dead, gone);
            if s.is_live(id) {
                let i = choose|i: int|
                    0 <= i < s.segments.len() && (#[trigger] s.segments[i]).id == id;
                assert(t.segments[i].id == id);
            }
        },
        state::OpView::RecordOrphan { id: found } => {
            lemma_insert_dead(s.dead, found);
            if s.is_live(id) {
                let i = choose|i: int|
                    0 <= i < s.segments.len() && (#[trigger] s.segments[i]).id == id;
                assert(t.segments[i].id == id);
            }
        },
        state::OpView::Metadata => {
            if s.is_live(id) {
                let i = choose|i: int|
                    0 <= i < s.segments.len() && (#[trigger] s.segments[i]).id == id;
                assert(t.segments[i].id == id);
            }
        },
    }
}

/// A segment that is dropped is dead, and one that is not stays live.
proof fn lemma_dropped_are_known(
    s: state::StateView,
    t: state::StateView,
    drop: Seq<SegmentId>,
    id: SegmentId,
)
    requires
        t.segments == state::kill_all(s, drop).segments,
        t.dead == state::kill_all(s, drop).dead,
    ensures
        t.segments == survivors(s.segments, drop),
        scan::is_known(s, id) ==> scan::is_known(t, id),
        s.dead.contains(id) ==> t.dead.contains(id),
        state::kill_all(s, drop).first_entry == s.first_entry,
{
    lemma_killed_are_dropped(s, drop);
    lemma_kill_all(s, drop);
    if s.is_live(id) && !drop.contains(id) {
        let i = choose|i: int| 0 <= i < s.segments.len() && (#[trigger] s.segments[i]).id == id;
        assert(s.segments.contains(s.segments[i]));
        assert(t.segments.contains(s.segments[i]));
        let j = choose|j: int| 0 <= j < t.segments.len() && t.segments[j] == s.segments[i];
        assert(t.segments[j].id == id);
    }
}

/// A state is in order: no two live segments share an id, the active segment is
/// the last one, if there is any, and exactly the others are sealed.
pub open spec fn in_order(s: state::StateView) -> bool {
    &&& store::distinct(s.segments)
    &&& match s.active {
        None => s.segments.len() == 0,
        Some(id) => s.segments.len() > 0 && s.segments.last().id == id,
    }
    &&& forall|id: SegmentId| #[trigger]
        s.seals.contains_key(id) <==> s.is_live(id) && s.active != Some(id)
}

/// The segment at place `m` is the one to roll back to, and exactly those after
/// it are dropped.
pub open spec fn drops_after(
    s: state::StateView,
    new_active_id: SegmentId,
    drop: Seq<SegmentId>,
    m: int,
) -> bool {
    &&& 0 <= m < s.segments.len()
    &&& s.segments[m].id == new_active_id
    &&& forall|i: int|
        0 <= i < s.segments.len() ==> (drop.contains((#[trigger] s.segments[i]).id) <==> i > m)
}

/// The record is one that a store writes: a new segment takes a new id, the
/// active segment is not dropped by an advance of the head, and a rollback drops
/// exactly the segments after the one it goes back to.
pub open spec fn well_formed(s: state::StateView, op: state::OpView) -> bool {
    match op {
        state::OpView::RollSegment { new_id, .. } => !s.is_live(new_id),
        state::OpView::TruncateStart { drop, .. } => s.active matches Some(id) ==> !drop.contains(
            id,
        ),
        state::OpView::TruncateEnd { new_active_id, drop, .. } => s.is_live(new_active_id)
            ==> exists|m: int| drops_after(s, new_active_id, drop, m),
        _ => true,
    }
}

/// Law: an empty state is in order, and a record that applies keeps a state in
/// order.
#[verifier::spinoff_prover]
pub proof fn law_state_stays_in_order(s: state::StateView, e: state::ManifestOpView)
    requires
        in_order(s),
        well_formed(s, e.op),
        state::apply_op(s, e) is Ok,
    ensures
        in_order(state::StateView::empty()),
        in_order(state::apply_op(s, e)->Ok_0),
{
    let t = state::apply_op(s, e)->Ok_0;
    let segs = s.segments;
    match e.op {
        state::OpView::CreateSegment { id, first_entry } => {
            assert forall|x: SegmentId| #[trigger] t.seals.contains_key(x) <==> t.is_live(x)
                && t.active != Some(x) by {
                assert(s.seals.contains_key(x) <==> s.is_live(x) && s.active != Some(x));
            }
        },
        state::OpView::RollSegment { sealed_id, new_id, .. } => {
            let n = segs.len() as int;
            assert(segs[n - 1].id == sealed_id);
            assert(t.segments[n].id == new_id);
            assert forall|x: SegmentId| #[trigger] t.is_live(x) <==> s.is_live(x) || x == new_id by {
                if s.is_live(x) {
                    let i = choose|i: int| 0 <= i < segs.len() && (#[trigger] segs[i]).id == x;
                    assert(t.segments[i].id == x);
                }
                if t.is_live(x) && x != new_id {
                    let i = choose|i: int|
                        0 <= i < t.segments.len() && (#[trigger] t.segments[i]).id == x;
                    assert(segs[i].id == x);
                }
            }
            assert(s.is_live(sealed_id));
        },
        state::OpView::TruncateStart { drop, .. } => {
            lemma_dropped_in_order(s, drop);
            let u = state::kill_all(s, drop);
            if s.active is Some {
                assert(segs[segs.len() - 1].id == s.active->Some_0);
                lemma_last_survives(segs, drop);
                lemma_killed_are_dropped(s, drop);
            } else {
                lemma_killed_are_dropped(s, drop);
                assert(segs =~= Seq::<SegmentEntry>::empty());
                reveal(Seq::filter);
            }
            assert forall|x: SegmentId| #[trigger] t.seals.contains_key(x) <==> t.is_live(x)
                && t.active != Some(x) by {
                assert(u.is_live(x) == t.is_live(x)) by {
                    assert(t.segments == u.segments);
                }
            }
        },
        state::OpView::TruncateEnd { new_active_id, drop, .. } => {
            lemma_dropped_in_order(s, drop);
            let u = state::kill_all(s, drop);
            let m = choose|m: int| drops_after(s, new_active_id, drop, m);
            lemma_killed_are_dropped(s, drop);
            lemma_survivors_up_to(segs, drop, m);
            assert(t.segments.last() == segs[m]);
            assert forall|x: SegmentId| #[trigger] t.seals.contains_key(x) <==> t.is_live(x)
                && t.active != Some(x) by {
                assert(u.is_live(x) == t.is_live(x)) by {
                    assert(t.segments == u.segments);
                }
                assert(u.seals.contains_key(x) <==> s.seals.contains_key(x) && !drop.contains(x));
                assert(s.seals.contains_key(x) <==> s.is_live(x) && s.active != Some(x));
                if t.is_live(x) && x != new_active_id && s.active == Some(x) {
                    let n = segs.len() as int;
                    assert(segs[n - 1].id == x);
                    assert(n - 1 <= m);
                }
            }
        },
        _ => {
            assert forall|x: SegmentId| #[trigger] t.seals.contains_key(x) <==> t.is_live(x)
                && t.active != Some(x) by {
                assert(t.is_live(x) == s.is_live(x)) by {
                    assert(t.segments == s.segments);
                }
            }
        },
    }
}

/// What is live and sealed after segments were dropped.
proof fn lemma_dropped_in_order(s: state::StateView, drop: Seq<SegmentId>)
    requires
        in_order(s),
    ensures
        ({
            let u = state::kill_all(s, drop);
            &&& store::distinct(u.segments)
            &&& u.active == s.active
            &&& forall|x: SegmentId| #[trigger] u.is_live(x) <==> s.is_live(x) && !drop.contains(x)
            &&& forall|x: SegmentId| #[trigger]
                u.seals.contains_key(x) <==> s.seals.contains_key(x) && !drop.contains(x)
        }),
{
    let u = state::kill_all(s, drop);
    lemma_kill_all(s, drop);
    store::lemma_kill_all_distinct(s, drop);
    assert forall|x: SegmentId| #[trigger] u.is_live(x) <==> s.is_live(x) && !drop.contains(x) by {
        if u.is_live(x) {
            let i = choose|i: int| 0 <= i < u.segments.len() && (#[trigger] u.segments[i]).id == x;
            assert(u.segments.contains(u.segments[i]));
            assert(s.segments.contains(u.segments[i]));
            let j = choose|j: int| 0 <= j < s.segments.len() && s.segments[j] == u.segments[i];
            assert(s.segments[j].id == x);
        }
        if s.is_live(x) && !drop.contains(x) {
            let i = choose|i: int| 0 <= i < s.segments.len() && (#[trigger] s.segments[i]).id == x;
            assert(s.segments.contains(s.segments[i]));
            assert(u.segments.contains(s.segments[i]));
            let j = choose|j: int| 0 <= j < u.segments.len() && u.segments[j] == s.segments[i];
            assert(u.segments[j].id == x);
        }
    }
}

/// The last segment, where it is not dropped, is the last survivor.
proof fn lemma_last_survives(segments: Seq<SegmentEntry>, drop: Seq<SegmentId>)
    requires
        segments.len() > 0,
        !drop.contains(segments.last().id),
    ensures
        survivors(segments, drop).len() > 0,
        survivors(segments, drop).last() == segments.last(),
{
    let front = segments.drop_last();
    assert(segments =~= front.push(segments.last()));
    lemma_survivors_push(front, segments.last(), drop);
}

/// Where exactly the segments after place `m` are dropped, the others survive.
proof fn lemma_survivors_up_to(segments: Seq<SegmentEntry>, drop: Seq<SegmentId>, m: int)
    requires
        0 <= m < segments.len(),
        forall|i: int|
            0 <= i < segments.len() ==> (drop.contains((#[trigger] segments[i]).id) <==> i > m),
    ensures
        survivors(segments, drop) == segments.take(m + 1),
    decreases segments.len(),
{
    let front = segments.drop_last();
    let x = segments.last();
    assert(segments =~= front.push(x));
    assert(segments[segments.len() - 1] == x);
    assert forall|i: int| 0 <= i < front.len() implies (drop.contains((#[trigger] front[i]).id)
        <==> i > m) by {
        assert(front[i] == segments[i]);
    }
    lemma_survivors_push(front, x, drop);
    if m < front.len() {
        lemma_survivors_up_to(front, drop, m);
        assert(front.take(m + 1) =~= segments.take(m + 1));
    } else {
        lemma_all_survive(front, drop);
        assert(segments.take(m + 1) =~= segments);
    }
}

/// Where none of the segments is dropped, all survive.
proof fn lemma_all_survive(segments: Seq<SegmentEntry>, drop: Seq<SegmentId>)
    requires
        forall|i: int| 0 <= i < segments.len() ==> !drop.contains((#[trigger] segments[i]).id),
    ensures
        survivors(segments, drop) == segments,
    decreases segments.len(),
{
    if segments.len() == 0 {
        reveal(Seq::filter);
        assert(survivors(segments, drop) =~= segments);
    } else {
        let front = segments.drop_last();
        assert(segments =~= front.push(segments.last()));
        assert forall|i: int| 0 <= i < front.len() implies !drop.contains(
            (#[trigger] front[i]).id,
        ) by {
            assert(front[i] == segments[i]);
        }
        assert(!drop.contains(segments[segments.len() - 1].id));
        lemma_all_survive(front, drop);
        lemma_survivors_push(front, segments.last(), drop);
    }
}

// ── Metadata ──────────────────────────────────────────────────────────────────

pub proof fn lemma_find_key(meta: Seq<(u8, Seq<u8>)>, key: u8)
    ensures
        match state::find_key(meta, key) {
            Some(i) => 0 <= i < meta.len() && meta[i].0 == key && (forall|j: int|
                0 <= j < i ==> (#[trigger] meta[j]).0 != key),
            None => forall|j: int| 0 <= j < meta.len() ==> (#[trigger] meta[j]).0 != key,
        },
    decreases meta.len(),
{
    if meta.len() > 0 {
        let front = meta.drop_last();
        lemma_find_key(front, key);
        assert(forall|j: int| 0 <= j < front.len() ==> front[j] == #[trigger] meta[j]);
    }
}

/// Setting a key gives it its value and leaves the other keys as they were.
#[verifier::spinoff_prover]
pub proof fn lemma_set_meta(meta: Seq<(u8, Seq<u8>)>, key: u8, value: Seq<u8>)
    ensures
        state::meta_value(state::set_meta(meta, key, value), key) == Some(value),
        forall|k: u8|
            k != key ==> #[trigger] state::meta_value(state::set_meta(meta, key, value), k)
                == state::meta_value(
                meta,
                k,
            ),
{
    let after = state::set_meta(meta, key, value);
    lemma_find_key(meta, key);
    lemma_find_key(after, key);
    match state::find_key(meta, key) {
        Some(i) => {
            assert(after[i] == (key, value));
        },
        None => {
            assert(after[meta.len() as int] == (key, value));
        },
    }
    assert(state::meta_value(after, key) == Some(value)) by {
        let i = state::find_key(after, key)->Some_0;
        assert(state::find_key(after, key) is Some);
        match state::find_key(meta, key) {
            Some(j) => {
                if i != j {
                    assert(after[i] == meta[i]);
                    if i < j {
                        assert(meta[i].0 != key);
                    } else {
                        assert(after[j].0 != key);
                    }
                }
            },
            None => {
                if i < meta.len() {
                    assert(after[i] == meta[i]);
                }
            },
        }
    }
    assert forall|k: u8| k != key implies #[trigger] state::meta_value(after, k) == state::meta_value(meta, k) by {
        lemma_find_key(meta, k);
        lemma_find_key(after, k);
        match (state::find_key(meta, k), state::find_key(after, k)) {
            (Some(i), Some(j)) => {
                assert(after[i].0 == k);
                assert(after[j].0 == k);
                assert(j < meta.len());
                assert(meta[j].0 == k);
                if i < j {
                    assert(after[i].0 != k);
                } else if j < i {
                    assert(meta[j].0 != k);
                }
            },
            (Some(i), None) => {
                assert(after[i].0 == k);
            },
            (None, Some(j)) => {
                assert(after[j].0 == k);
                assert(j < meta.len());
                assert(meta[j].0 == k);
            },
            (None, None) => {},
        }
    }
}

/// The value that `pairs` give `key`: that of the last pair with it.
pub open spec fn last_value(pairs: Seq<(u8, Seq<u8>)>, key: u8) -> Option<Seq<u8>>
    decreases pairs.len(),
{
    if pairs.len() == 0 {
        None
    } else if pairs.last().0 == key {
        Some(pairs.last().1)
    } else {
        last_value(pairs.drop_last(), key)
    }
}

pub proof fn lemma_merge_meta(meta: Seq<(u8, Seq<u8>)>, pairs: Seq<(u8, Seq<u8>)>, key: u8)
    ensures
        state::meta_value(state::merge_meta(meta, pairs), key) == (match last_value(pairs, key) {
            Some(value) => Some(value),
            None => state::meta_value(meta, key),
        }),
    decreases pairs.len(),
{
    if pairs.len() > 0 {
        let front = pairs.drop_last();
        lemma_merge_meta(meta, front, key);
        lemma_set_meta(state::merge_meta(meta, front), pairs.last().0, pairs.last().1);
    }
}

/// Law: metadata is last-write-wins. Whatever record carries them, each pair
/// gives its key its value, the last one of a key stands, and keys that the
/// record does not name keep theirs.
pub proof fn law_last_metadata_write_wins(s: state::StateView, e: state::ManifestOpView, key: u8)
    requires
        state::apply_op(s, e) is Ok,
    ensures
        state::meta_value(state::apply_op(s, e)->Ok_0.meta, key) == (match last_value(e.meta, key) {
            Some(value) => Some(value),
            None => state::meta_value(s.meta, key),
        }),
{
    match e.op {
        state::OpView::TruncateStart { drop, .. } => lemma_kill_all(s, drop),
        state::OpView::TruncateEnd { drop, .. } => lemma_kill_all(s, drop),
        _ => {},
    }
    lemma_merge_meta(s.meta, e.meta, key);
}

/// Law: a record that only carries metadata has no structural effect, and is
/// always valid. It tells that the store goes on after a rollback.
pub proof fn law_metadata_record_is_not_structural(s: state::StateView, meta: Seq<(u8, Seq<u8>)>)
    ensures
        ({
            let r = state::apply_op(s, state::ManifestOpView { op: state::OpView::Metadata, meta });
            r == Ok::<_, ApplyError>(
                state::StateView { meta: state::merge_meta(s.meta, meta), cut_at: None, ..s },
            )
        }),
{
}

/// Law: whether a record fits, and what it does to the segments, does not
/// depend on the metadata it carries.
pub proof fn law_metadata_does_not_decide(s: state::StateView, e: state::ManifestOpView)
    ensures
        match (state::apply_op(s, e), state::apply_op(s, bare(e.op))) {
            (Ok(t), Ok(u)) => t == (state::StateView { meta: t.meta, ..u }),
            (Err(a), Err(b)) => a == b,
            _ => false,
        },
{
}

} // verus!
