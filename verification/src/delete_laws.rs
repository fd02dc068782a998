//! What the deletion of dead segments promises.

use vstd::prelude::*;

use crate::action;
use crate::frame;
use crate::log_laws;
use crate::manifest_laws;
use crate::op_laws;
use crate::state::{self, ApplyError};
use crate::state_laws;
use crate::store::{self, Outcome};
use crate::SegmentId;

verus! {

proof fn lemma_without_absent_id(ids: Seq<SegmentId>, id: SegmentId)
    requires
        !ids.contains(id),
    ensures
        state::without_id(ids, id) == ids,
    decreases ids.len(),
{
    if ids.len() > 0 {
        let front = ids.drop_last();
        assert(ids[ids.len() - 1] != id);
        assert(!front.contains(id)) by {
            if front.contains(id) {
                let i = choose|i: int| 0 <= i < front.len() && front[i] == id;
                assert(ids[i] == id);
            }
        }
        lemma_without_absent_id(front, id);
        assert(front.push(ids.last()) =~= ids);
    } else {
        assert(ids =~= Seq::<SegmentId>::empty());
    }
}

/// Where no id occurs twice, all but the first one are left without it.
proof fn lemma_without_first(ids: Seq<SegmentId>)
    requires
        ids.len() > 0,
        ids.no_duplicates(),
    ensures
        state::without_id(ids, ids[0]) == ids.skip(1),
    decreases ids.len(),
{
    let front = ids.drop_last();
    if ids.len() == 1 {
        assert(front =~= Seq::<SegmentId>::empty());
        assert(state::without_id(front, ids[0]) =~= Seq::<SegmentId>::empty());
        assert(ids.skip(1) =~= Seq::<SegmentId>::empty());
    } else {
        assert(front[0] == ids[0]);
        lemma_without_first(front);
        assert(ids[ids.len() - 1] != ids[0]);
        assert(ids.skip(1) =~= front.skip(1).push(ids.last()));
    }
}

/// The record of a deletion.
pub open spec fn deleted_op(id: SegmentId) -> crate::state::ManifestOpView {
    state_laws::bare(state::OpView::SegmentDeleted { id })
}

pub proof fn lemma_deleted_op_size(id: SegmentId)
    ensures
        manifest_laws::recordable(deleted_op(id)),
        store::op_frame(deleted_op(id)).len() <= 128,
{
    broadcast use crate::bytes::lemma_be_bytes_len;

    op_laws::lemma_bare_record_size(state::OpView::SegmentDeleted { id });
}

/// The files after the file of a dead segment was deleted and the deletion
/// recorded.
spec fn without_file(d: action::Disk, id: SegmentId) -> action::Disk {
    op_laws::with_record(action::Disk { segments: d.segments.remove(id), ..d }, deleted_op(id))
}

/// The store after the deletion of a dead segment was recorded.
spec fn without_dead(s: store::StoreView, e: action::Disk, id: SegmentId) -> store::StoreView {
    store::StoreView {
        manifest: frame::CursorView { pending: Seq::empty(), position: e.manifest.len() as u64 },
        state: state::StateView { dead: state::without_id(s.state.dead, id), ..s.state },
        ..s
    }
}

/// Files and store agree after a dead segment was deleted, and the live ones
/// are untouched.
#[verifier::spinoff_prover]
proof fn lemma_one_deleted(s: store::StoreView, d: action::Disk, id: SegmentId)
    requires
        log_laws::synced(s, d),
        s.state.dead.contains(id),
        d.manifest.len() + 128 <= i64::MAX,
    ensures
        state::apply_op(s.state, deleted_op(id)) == Ok::<_, ApplyError>(
            without_dead(s, without_file(d, id), id).state,
        ),
        log_laws::synced(without_dead(s, without_file(d, id), id), without_file(d, id)),
        without_file(d, id).manifest.len() <= d.manifest.len() + 128,
        log_laws::log_of(s.state.segments, without_file(d, id))
            == log_laws::log_of(s.state.segments, d),
{
    let st = s.state;
    let segs = st.segments;
    let n = segs.len() as int;
    let e = without_file(d, id);
    let t = without_dead(s, e, id);
    lemma_deleted_op_size(id);
    state_laws::lemma_without_id(st.dead, id);
    assert(state::merge_meta(st.meta, deleted_op(id).meta) == st.meta);
    assert(state::apply_op(st, deleted_op(id)) == Ok::<_, ApplyError>(t.state));
    manifest_laws::law_manifest_follows_state(st, d.manifest, deleted_op(id));
    assert(!st.is_live(id)) by {
        let k = choose|k: int| 0 <= k < st.dead.len() && st.dead[k] == id;
        assert(!st.is_live(st.dead[k]));
    }
    assert forall|i: int| 0 <= i < n implies (#[trigger] segs[i]).id != id
        && e.segments[segs[i].id] == d.segments[segs[i].id] && e.segments.contains_key(
        segs[i].id,
    ) && log_laws::sound(e.segments[segs[i].id]) by {
        assert(st.is_live(segs[i].id));
        assert(d.segments.contains_key(segs[i].id) && log_laws::sound(d.segments[segs[i].id]));
    }
    assert forall|x: SegmentId| #[trigger] t.state.is_live(x) == st.is_live(x) by {
        assert(t.state.segments == st.segments);
    }
    assert forall|i: int| 0 <= i < n - 1 implies log_laws::seal_ok(
        e.segments[(#[trigger] segs[i]).id],
        st.seals[segs[i].id],
    ) by {
        assert(log_laws::seal_ok(d.segments[segs[i].id], st.seals[segs[i].id]));
    }
    assert forall|x: SegmentId| #[trigger] t.state.seals.contains_key(x) implies t.state.is_live(
        x,
    ) by {
        assert(st.seals.contains_key(x));
    }
    assert forall|x: SegmentId| #[trigger] e.segments.contains_key(x) <==> t.state.is_live(x)
        || t.state.dead.contains(x) by {
        assert(d.segments.contains_key(x) <==> st.is_live(x) || st.dead.contains(x));
    }
    assert forall|i: int| 0 <= i < t.state.dead.len() implies !t.state.is_live(
        #[trigger] t.state.dead[i],
    ) by {
        assert(t.state.dead.contains(t.state.dead[i]));
        let k = choose|k: int| 0 <= k < st.dead.len() && st.dead[k] == t.state.dead[i];
        assert(!st.is_live(st.dead[k]));
    }
    assert(log_laws::files_match(t.state, e));
    assert forall|i: int| 0 <= i < n implies log_laws::frames_between(
        log_laws::segment_frames(e, (#[trigger] segs[i]).id),
        segs[i].first_entry.0 as int,
        log_laws::upper(segs, i),
    ) by {
        assert(log_laws::frames_between(
            log_laws::segment_frames(d, segs[i].id),
            segs[i].first_entry.0 as int,
            log_laws::upper(segs, i),
        ));
    }
    assert(log_laws::ordered(t.state, e));
    log_laws::lemma_log_same_files(segs, d, e);
    op_laws::lemma_index_same_files(s.index, segs, d, e);
    assert(segs[n - 1].id == s.active_id);
    assert forall|x: SegmentId| #[trigger] e.segments.contains_key(x) implies x.0
        < t.next_seg_id.0 by {
        assert(d.segments.contains_key(x));
    }
    assert(log_laws::last_ok(t, e));
    assert(log_laws::memory_matches(t, e));
}

/// One dead segment takes three steps.
proof fn lemma_one_deletion_runs(
    s: store::StoreView,
    d: action::Disk,
    dead: Seq<SegmentId>,
    next: int,
    steps: nat,
)
    requires
        log_laws::synced(s, d),
        0 <= next < dead.len(),
        s.state.dead.contains(dead[next]),
        d.manifest.len() + 128 <= i64::MAX,
    ensures
        ({
            let id = dead[next];
            let e = without_file(d, id);
            let t = without_dead(s, e, id);
            op_laws::run(s, d, store::delete_next(s, dead, next).1, steps + 3) == op_laws::run(
                t,
                e,
                store::delete_next(t, dead, next + 1).1,
                steps,
            )
        }),
{
    let id = dead[next];
    let op = deleted_op(id);
    let after = store::AfterView::Deleted { dead, next };
    let p = store::delete_next(s, dead, next).1;
    let d1 = action::Disk { segments: d.segments.remove(id), ..d };
    assert(action::perform(d, p->Next_1) == d1);
    let (s2, p2) = store::log_op(s, op, after);
    assert(store::step(s, p->Next_0, action::EventView::Done) == (s2, p2));
    assert(op_laws::run(s, d, p, steps + 3) == op_laws::run(s2, d1, p2, steps + 2));
    lemma_deleted_op_size(id);
    lemma_one_deleted(s, d, id);
    op_laws::lemma_record_written(s, d1, op, after, steps);
}

/// The deletions from place `next` on.
proof fn lemma_deletions_run(
    s: store::StoreView,
    d: action::Disk,
    dead: Seq<SegmentId>,
    next: int,
) -> (r: (
    store::StoreView,
    action::Disk,
))
    requires
        log_laws::synced(s, d),
        0 <= next <= dead.len(),
        dead.no_duplicates(),
        s.state.dead == dead.skip(next),
        d.manifest.len() + 128 * (dead.len() - next) <= i64::MAX,
    ensures
        op_laws::run(s, d, store::delete_next(s, dead, next).1, (3 * (dead.len() - next)) as nat)
            == (
            r.0,
            r.1,
            store::ProgressView::Finished(Outcome::Deleted(dead.len() as usize)),
        ),
        log_laws::synced(r.0, r.1),
        r.0.state == (state::StateView { dead: Seq::empty(), ..s.state }),
        log_laws::log_of(s.state.segments, r.1) == log_laws::log_of(s.state.segments, d),
    decreases dead.len() - next,
{
    if next == dead.len() {
        assert(dead.skip(next) =~= Seq::<SegmentId>::empty());
        (s, d)
    } else {
        let rest = dead.skip(next);
        let id = dead[next];
        assert(rest[0] == id);
        assert(s.state.dead.contains(id));
        let e = without_file(d, id);
        let t = without_dead(s, e, id);
        lemma_one_deleted(s, d, id);
        lemma_one_deletion_runs(s, d, dead, next, (3 * (dead.len() - next - 1)) as nat);
        assert(rest.no_duplicates());
        lemma_without_first(rest);
        assert(rest.skip(1) =~= dead.skip(next + 1));
        lemma_deletions_run(t, e, dead, next + 1)
    }
}

/// Law: deleting the dead segments leaves none of them, neither on record nor as
/// a file, and says how many they were. The log, its head and the metadata do
/// not change, and the store agrees with its files again.
pub proof fn law_dead_segments_are_deleted(s: store::StoreView, d: action::Disk)
    requires
        log_laws::synced(s, d),
        d.manifest.len() + 128 * s.state.dead.len() <= i64::MAX,
    ensures
        ({
            let dead = s.state.dead;
            let (s1, p1) = store::delete_next(s, dead, 0);
            let (t, e, q) = op_laws::run(s1, d, p1, 3 * dead.len());
            &&& q == store::ProgressView::Finished(Outcome::Deleted(dead.len() as usize))
            &&& log_laws::synced(t, e)
            &&& t.state == (state::StateView { dead: Seq::empty(), ..s.state })
            &&& forall|id: SegmentId| #[trigger] e.segments.contains_key(id) <==> s.state.is_live(id)
            &&& log_laws::log_of(t.state.segments, e) == log_laws::log_of(s.state.segments, d)
        }),
{
    let dead = s.state.dead;
    assert(dead.skip(0) =~= dead);
    let (t, e) = lemma_deletions_run(s, d, dead, 0);
    assert forall|id: SegmentId| #[trigger] e.segments.contains_key(id) <==> s.state.is_live(id) by {
        assert(t.state.segments == s.state.segments);
        assert(t.state.is_live(id) == s.state.is_live(id));
        assert(e.segments.contains_key(id) <==> t.state.is_live(id) || t.state.dead.contains(id));
    }
}

/// Law: a file is deleted only where its segment is dead, whatever came of the
/// action before.
pub proof fn law_only_dead_segments_are_deleted(
    s: store::StoreView,
    task: store::TaskView,
    event: action::EventView,
)
    requires
        store::task_fits(s, task),
    ensures
        ({
            let (t, p) = store::step(s, task, event);
            p matches store::ProgressView::Next(_, action::ActionView::DeleteSegment(id))
                ==> t.state.dead.contains(id)
        }),
{
    if let store::TaskView::SyncOp { op, after } = task {
        if let store::AfterView::Deleted { dead, next } = after {
            state_laws::lemma_without_id(s.state.dead, dead[next]);
            if next + 1 < dead.len() {
                assert(s.state.dead.contains(dead[next + 1]));
                assert(dead[next] != dead[next + 1]);
            }
        }
    }
}

} // verus!
