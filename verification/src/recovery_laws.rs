//! What recovery promises.

use vstd::prelude::*;

use crate::action;
use crate::files::{self, MAGIC_LEN, MANIFEST_MAGIC, SEGMENT_MAGIC};
use crate::frame::{self, ScanStatus};
use crate::frame_laws;
use crate::issue::{FileIssue, FileRef, Issue};
use crate::log_laws;
use crate::manifest::{self, ReplayError};
use crate::manifest_laws;
use crate::op_laws;
use crate::open_laws;
use crate::recovery::{self, FixUp, FixUpPhase, RecoveryError};
use crate::scan;
use crate::state::{self, ApplyError};
use crate::state_laws;
use crate::store;
use crate::SegmentId;

verus! {

// ── The plan ──────────────────────────────────────────────────────────────────

/// Law: a plan exists exactly where every issue has a remedy, and each remedy
/// that needs approval has it.
pub proof fn law_plan_exists_where_all_can_be_fixed(issues: Seq<FileIssue>, approved: bool)
    ensures
        recovery::plan(issues, approved) is Ok <==> forall|i: int|
            0 <= i < issues.len() ==> (recovery::remedy(#[trigger] issues[i]) matches Some(f) && (approved
                || !f.approval_required)),
    decreases issues.len(),
{
    if issues.len() > 0 {
        let front = issues.drop_last();
        law_plan_exists_where_all_can_be_fixed(front, approved);
        assert(forall|i: int| 0 <= i < front.len() ==> #[trigger] front[i] == issues[i]);
        assert(issues[issues.len() - 1] == issues.last());
        if recovery::plan(issues, approved) is Ok {
            assert forall|i: int| 0 <= i < issues.len() implies (recovery::remedy(
                #[trigger] issues[i],
            ) matches Some(f) && (approved || !f.approval_required)) by {
                if i < front.len() {
                    assert(front[i] == issues[i]);
                }
            }
        }
    }
}

/// The remedies of issues that all have one.
pub open spec fn remedies_of(issues: Seq<FileIssue>) -> Seq<FixUp> {
    Seq::new(issues.len(), |i: int| recovery::remedy(issues[i])->Some_0)
}

/// Every issue is fixed without approval.
pub open spec fn all_automatic(issues: Seq<FileIssue>) -> bool {
    forall|i: int|
        0 <= i < issues.len() ==> (recovery::remedy(#[trigger] issues[i]) matches Some(f)
            && !f.approval_required)
}

proof fn lemma_remedies_of(issues: Seq<FileIssue>)
    requires
        all_automatic(issues),
    ensures
        recovery::remedies(issues, false) == Ok::<_, RecoveryError>(remedies_of(issues)),
    decreases issues.len(),
{
    if issues.len() > 0 {
        let front = issues.drop_last();
        assert forall|i: int| 0 <= i < front.len() implies (recovery::remedy(
            #[trigger] front[i],
        ) matches Some(f) && !f.approval_required) by {
            assert(front[i] == issues[i]);
        }
        lemma_remedies_of(front);
        assert(issues[issues.len() - 1] == issues.last());
        assert(
            remedies_of(issues) =~= remedies_of(front).push(recovery::remedy(issues.last())->Some_0)
        );
    } else {
        assert(remedies_of(issues) =~= Seq::<FixUp>::empty());
    }
}

proof fn lemma_phase_concat(a: Seq<FixUp>, b: Seq<FixUp>, phase: FixUpPhase)
    ensures
        recovery::of_phase(a + b, phase)
            == recovery::of_phase(a, phase) + recovery::of_phase(b, phase),
    decreases b.len(),
{
    if b.len() == 0 {
        assert(a + b =~= a);
        assert(
            recovery::of_phase(a, phase) + recovery::of_phase(b, phase) =~= recovery::of_phase(a, phase)
        );
    } else {
        assert((a + b).drop_last() =~= a + b.drop_last());
        lemma_phase_concat(a, b.drop_last(), phase);
        assert(
            recovery::of_phase(a + b, phase)
                =~= recovery::of_phase(a, phase) + recovery::of_phase(b, phase)
        );
    }
}

/// Fix-ups of one phase are all of that phase and none of another.
proof fn lemma_phase_all(fix_ups: Seq<FixUp>, phase: FixUpPhase, other: FixUpPhase)
    requires
        forall|i: int| 0 <= i < fix_ups.len() ==> (#[trigger] fix_ups[i]).phase == phase,
        other != phase,
    ensures
        recovery::of_phase(fix_ups, phase) == fix_ups,
        recovery::of_phase(fix_ups, other) == Seq::<FixUp>::empty(),
    decreases fix_ups.len(),
{
    if fix_ups.len() > 0 {
        let front = fix_ups.drop_last();
        assert forall|i: int| 0 <= i < front.len() implies (#[trigger] front[i]).phase == phase by {
            assert(front[i] == fix_ups[i]);
        }
        lemma_phase_all(front, phase, other);
        assert(fix_ups[fix_ups.len() - 1].phase == phase);
        assert(front.push(fix_ups.last()) =~= fix_ups);
    } else {
        assert(fix_ups =~= Seq::<FixUp>::empty());
    }
}

proof fn lemma_of_phase(fix_ups: Seq<FixUp>, phase: FixUpPhase)
    ensures
        forall|i: int|
            0 <= i < recovery::of_phase(fix_ups, phase).len() ==> (#[trigger] recovery::of_phase(
                fix_ups,
                phase,
            )[i]).phase == phase,
    decreases fix_ups.len(),
{
    if fix_ups.len() > 0 {
        lemma_of_phase(fix_ups.drop_last(), phase);
    }
}

/// Law: putting fix-ups in the order of their phases neither drops nor repeats
/// one, and keeps the order of those of one phase.
pub proof fn law_phase_order_is_stable(fix_ups: Seq<FixUp>, phase: FixUpPhase)
    ensures
        recovery::of_phase(recovery::by_phase(fix_ups), phase)
            == recovery::of_phase(fix_ups, phase),
        recovery::by_phase(fix_ups).len() == fix_ups.len(),
{
    let a = recovery::of_phase(fix_ups, FixUpPhase::ManifestFileClean);
    let b = recovery::of_phase(fix_ups, FixUpPhase::ManifestAppends);
    let c = recovery::of_phase(fix_ups, FixUpPhase::SegmentFileClean);
    lemma_of_phase(fix_ups, FixUpPhase::ManifestFileClean);
    lemma_of_phase(fix_ups, FixUpPhase::ManifestAppends);
    lemma_of_phase(fix_ups, FixUpPhase::SegmentFileClean);
    lemma_phase_all(a, FixUpPhase::ManifestFileClean, FixUpPhase::ManifestAppends);
    lemma_phase_all(a, FixUpPhase::ManifestFileClean, FixUpPhase::SegmentFileClean);
    lemma_phase_all(b, FixUpPhase::ManifestAppends, FixUpPhase::ManifestFileClean);
    lemma_phase_all(b, FixUpPhase::ManifestAppends, FixUpPhase::SegmentFileClean);
    lemma_phase_all(c, FixUpPhase::SegmentFileClean, FixUpPhase::ManifestFileClean);
    lemma_phase_all(c, FixUpPhase::SegmentFileClean, FixUpPhase::ManifestAppends);
    lemma_phase_concat(a + b, c, phase);
    lemma_phase_concat(a, b, phase);
    let none = Seq::<FixUp>::empty();
    assert(a + none + none =~= a);
    assert(none + b + none =~= b);
    assert(none + none + c =~= c);
    lemma_phase_lengths(fix_ups);
}

proof fn lemma_phase_lengths(fix_ups: Seq<FixUp>)
    ensures
        recovery::by_phase(fix_ups).len() == fix_ups.len(),
    decreases fix_ups.len(),
{
    if fix_ups.len() > 0 {
        lemma_phase_lengths(fix_ups.drop_last());
    }
}

/// Law: the manifest is mended before it is appended to, and the segments come
/// last.
pub proof fn law_phases_run_in_order(fix_ups: Seq<FixUp>)
    ensures
        ({
            let sorted = recovery::by_phase(fix_ups);
            let m = recovery::of_phase(fix_ups, FixUpPhase::ManifestFileClean).len();
            let n = m + recovery::of_phase(fix_ups, FixUpPhase::ManifestAppends).len();
            forall|i: int|
                0 <= i < sorted.len() ==> (#[trigger] sorted[i]).phase == if i < m {
                    FixUpPhase::ManifestFileClean
                } else if i < n {
                    FixUpPhase::ManifestAppends
                } else {
                    FixUpPhase::SegmentFileClean
                }
        }),
{
    lemma_of_phase(fix_ups, FixUpPhase::ManifestFileClean);
    lemma_of_phase(fix_ups, FixUpPhase::ManifestAppends);
    lemma_of_phase(fix_ups, FixUpPhase::SegmentFileClean);
}

// ── Mending ───────────────────────────────────────────────────────────────────

/// The files after the fix-ups, in order, on a file system on which nothing
/// fails. Each fix-up appends at the end that the manifest has by then.
pub open spec fn mend(d: action::Disk, fix_ups: Seq<FixUp>) -> action::Disk
    decreases fix_ups.len(),
{
    if fix_ups.len() == 0 {
        d
    } else {
        let before = mend(d, fix_ups.drop_last());
        action::perform_all(
            before,
            recovery::fix_up_actions(fix_ups.last().action, before.manifest.len() as u64),
        )
    }
}

pub proof fn lemma_mend_concat(d: action::Disk, a: Seq<FixUp>, b: Seq<FixUp>)
    ensures
        mend(d, a + b) == mend(mend(d, a), b),
    decreases b.len(),
{
    if b.len() == 0 {
        assert(a + b =~= a);
    } else {
        assert((a + b).drop_last() =~= a + b.drop_last());
        lemma_mend_concat(d, a, b.drop_last());
    }
}

/// A fix-up that is a single action.
pub proof fn lemma_mend_one(d: action::Disk, fix_up: FixUp, action: action::ActionView)
    requires
        recovery::fix_up_actions(fix_up.action, d.manifest.len() as u64) == seq![action],
    ensures
        mend(d, seq![fix_up]) == action::perform(d, action),
{
    let one = seq![fix_up];
    reveal_with_fuel(mend, 2);
    assert(one.drop_last() =~= Seq::<FixUp>::empty());
    let actions = seq![action];
    reveal_with_fuel(action::perform_all, 2);
    assert(actions.drop_last() =~= Seq::<action::ActionView>::empty());
}

/// A fix-up that appends a record.
pub proof fn lemma_mend_appends(d: action::Disk, fix_ups: Seq<FixUp>, fix_up: FixUp, op: state::OpView)
    requires
        mend(d, fix_ups).manifest.len() <= i64::MAX,
        recovery::fix_up_actions(fix_up.action, mend(d, fix_ups).manifest.len() as u64)
            == recovery::append_actions(
            op,
            mend(d, fix_ups).manifest.len() as u64,
        ),
    ensures
        mend(d, fix_ups.push(fix_up)) == (action::Disk {
            manifest: mend(d, fix_ups).manifest + store::op_frame(state_laws::bare(op)),
            ..mend(d, fix_ups)
        }),
{
    let before = mend(d, fix_ups);
    let n = before.manifest.len();
    assert(fix_ups.push(fix_up).drop_last() =~= fix_ups);
    let actions = recovery::append_actions(op, n as u64);
    reveal_with_fuel(action::perform_all, 3);
    let one = actions.drop_last();
    assert(one.last() == actions[0]);
    assert(one.drop_last() =~= Seq::<action::ActionView>::empty());
    assert(before.manifest.take(n as int) =~= before.manifest);
}

/// Law: recovery deletes no file. Deleting dead segments is left to the caller.
pub proof fn law_recovery_deletes_no_file(d: action::Disk, fix_ups: Seq<FixUp>, id: SegmentId)
    requires
        d.segments.contains_key(id),
    ensures
        mend(d, fix_ups).segments.contains_key(id),
    decreases fix_ups.len(),
{
    if fix_ups.len() > 0 {
        law_recovery_deletes_no_file(d, fix_ups.drop_last(), id);
        let before = mend(d, fix_ups.drop_last());
        let actions = recovery::fix_up_actions(
            fix_ups.last().action,
            before.manifest.len() as u64,
        );
        reveal_with_fuel(action::perform_all, 3);
        if actions.len() == 2 {
            assert(actions.drop_last().last() == actions[0]);
        }
    }
}

/// The records of a manifest lead to the state. The last one may be torn.
pub open spec fn manifest_recoverable(st: state::StateView, manifest: Seq<u8>) -> bool {
    &&& files::has_magic(manifest, MANIFEST_MAGIC)
    &&& frame::tail_status(manifest, MAGIC_LEN as int) != ScanStatus::ChecksumCorrupt
    &&& manifest::replay_from(state::StateView::empty(), manifest, MAGIC_LEN as int)
        == Ok::<_, ReplayError>(
        (st, frame::frontier(manifest, MAGIC_LEN as int)),
    )
    &&& manifest.len() <= i64::MAX
}

/// The files as they count: after a rollback the active segment ends where the
/// record of it says, whatever its file holds.
pub open spec fn settled(st: state::StateView, d: action::Disk) -> action::Disk {
    let id = st.segments.last().id;
    action::Disk {
        segments: d.segments.insert(
            id,
            scan::within(d.segments[id], scan::size_limit(st, id)),
        ),
        ..d
    }
}

/// Files that differ from those that the state describes only in what a crash
/// can leave: the last record of the manifest and the end of the active segment
/// may be torn, a rollback may not be completed, there may be segment files that
/// the manifest does not know, and files of dead segments may be gone.
pub open spec fn recoverable(st: state::StateView, d: action::Disk) -> bool {
    &&& manifest_recoverable(st, d.manifest)
    &&& st.segments.len() > 0
    &&& store::distinct(st.segments)
    &&& st.active == Some(st.segments.last().id)
    &&& forall|i: int|
        0 <= i < st.segments.len() ==> d.segments.contains_key((#[trigger] st.segments[i]).id)
            && files::has_magic(d.segments[st.segments[i].id], SEGMENT_MAGIC)
            && d.segments[st.segments[i].id].len() <= i64::MAX
    &&& forall|i: int|
        0 <= i < st.segments.len() ==> (st.seals.contains_key((#[trigger] st.segments[i]).id)
            <==> i < st.segments.len() - 1)
    &&& forall|i: int|
        0 <= i < st.segments.len() - 1 ==> log_laws::sound(
            d.segments[(#[trigger] st.segments[i]).id],
        )
            && log_laws::seal_ok(d.segments[st.segments[i].id], st.seals[st.segments[i].id])
    &&& forall|id: SegmentId| #[trigger] st.seals.contains_key(id) ==> st.is_live(id)
    &&& st.dead.no_duplicates()
    &&& forall|i: int| 0 <= i < st.dead.len() ==> !st.is_live(#[trigger] st.dead[i])
}

// ── The issues ────────────────────────────────────────────────────────────────

/// What a scan reports of the manifest.
pub open spec fn manifest_issues(d: action::Disk) -> Seq<FileIssue> {
    if frame::tail_status(d.manifest, MAGIC_LEN as int) == ScanStatus::TornTail {
        seq![
            scan::manifest_issue(
                Issue::ManifestTornTail {
                    truncate_to: frame::frontier(d.manifest, MAGIC_LEN as int) as u64,
                },
            ),
        ]
    } else {
        Seq::empty()
    }
}

/// What a scan reports of the active segment.
pub open spec fn active_issues(st: state::StateView, d: action::Disk) -> Seq<FileIssue> {
    let id = st.segments.last().id;
    let data = d.segments[id];
    let part = settled(st, d).segments[id];
    scan::with_segment_issue(
        Seq::empty(),
        id,
        if frame::tail_status(part, MAGIC_LEN as int) == ScanStatus::Clean && part == data {
            None
        } else {
            Some(
                Issue::ActiveSegmentTornTail {
                    truncate_to: frame::frontier(part, MAGIC_LEN as int) as u64,
                },
            )
        },
    )
}

/// What counts of a segment file is a segment file too.
pub proof fn lemma_part_has_magic(st: state::StateView, id: SegmentId, data: Seq<u8>)
    requires
        files::has_magic(data, SEGMENT_MAGIC),
    ensures
        ({
            let part = scan::within(data, scan::size_limit(st, id));
            &&& files::has_magic(part, SEGMENT_MAGIC)
            &&& part.len() <= data.len()
            &&& part == data.take(part.len() as int)
            &&& scan::size_limit(st, id) matches Some(n) ==> part.len() <= n
            &&& scan::size_limit(st, id) matches Some(n) ==> MAGIC_LEN <= n
            &&& part.len() < data.len() ==> scan::size_limit(st, id) == Some(part.len() as u64)
        }),
{
    let part = scan::within(data, scan::size_limit(st, id));
    assert(part =~= data.take(part.len() as int));
    assert(part.take(MAGIC_LEN as int) =~= data.take(MAGIC_LEN as int));
}

/// What a scan reports of a segment that is not sealed.
pub proof fn lemma_live_issue(st: state::StateView, id: SegmentId, data: Seq<u8>)
    requires
        files::has_magic(data, SEGMENT_MAGIC),
        !st.seals.contains_key(id),
    ensures
        ({
            let part = scan::within(data, scan::size_limit(st, id));
            let file = scan::FileView { size: Ok(data.len() as u64), contents: Ok(data) };
            scan::live_scan(st, id, file).1 == if frame::tail_status(part, MAGIC_LEN as int)
                == ScanStatus::Clean && part == data {
                None
            } else {
                Some(
                    Issue::ActiveSegmentTornTail {
                        truncate_to: frame::frontier(part, MAGIC_LEN as int) as u64,
                    },
                )
            }
        }),
{
    let part = scan::within(data, scan::size_limit(st, id));
    lemma_part_has_magic(st, id, data);
    if frame::tail_status(part, MAGIC_LEN as int) == ScanStatus::Clean {
        open_laws::lemma_clean_frontier(part, MAGIC_LEN as int);
    }
}

/// The scan of the first `j` segments, all sealed, finds nothing wrong.
proof fn lemma_sealed_segments_scan(
    st: state::StateView,
    d: action::Disk,
    ids: Seq<SegmentId>,
    j: int,
)
    requires
        recoverable(st, d),
        0 <= j < st.segments.len(),
    ensures
        scan::segment_scans(open_laws::directory_of(d, ids), st, st.segments.take(j)).1
            == Seq::<FileIssue>::empty(),
    decreases j,
{
    if j > 0 {
        let segs = st.segments;
        let dir = open_laws::directory_of(d, ids);
        lemma_sealed_segments_scan(st, d, ids, j - 1);
        assert(segs.take(j).drop_last() =~= segs.take(j - 1));
        assert(segs.take(j).last() == segs[j - 1]);
        let id = segs[j - 1].id;
        assert(d.segments.contains_key(segs[j - 1].id));
        assert(st.seals.contains_key(segs[j - 1].id));
        assert(log_laws::sound(d.segments[segs[j - 1].id]) && log_laws::seal_ok(
            d.segments[segs[j - 1].id],
            st.seals[segs[j - 1].id],
        ));
        let data = d.segments[id];
        assert(
            dir.file(id) == (scan::FileView { size: Ok(data.len() as u64), contents: Ok(data) })
        );
        assert(scan::live_scan(st, id, dir.file(id)).1 is None);
    }
}

/// What a scan of recoverable files reports.
pub proof fn lemma_issues(st: state::StateView, d: action::Disk, ids: Seq<SegmentId>)
    requires
        recoverable(st, d),
    ensures
        scan::scan_of(open_laws::directory_of(d, ids)).issues
            == manifest_issues(d) + scan::orphan_issues(st, ids)
            + scan::missing_dead_issues(st.dead, ids) + active_issues(st, d),
        scan::scan_of(open_laws::directory_of(d, ids)).state == st,
{
    let segs = st.segments;
    let n = segs.len() as int;
    let dir = open_laws::directory_of(d, ids);
    let id = segs[n - 1].id;
    let data = d.segments[id];
    lemma_sealed_segments_scan(st, d, ids, n - 1);
    assert(segs.drop_last() =~= segs.take(n - 1));
    assert(segs.last() == segs[n - 1]);
    assert(d.segments.contains_key(segs[n - 1].id) && files::has_magic(
        d.segments[segs[n - 1].id],
        SEGMENT_MAGIC,
    ));
    assert(!st.seals.contains_key(segs[n - 1].id));
    assert(dir.file(id) == (scan::FileView { size: Ok(data.len() as u64), contents: Ok(data) }));
    lemma_live_issue(st, id, data);
    assert(scan::segment_scans(dir, st, segs).1 == active_issues(st, d));
}

/// Orphans are told apart by their place in the list, and each has a remedy.
pub proof fn lemma_orphan_remedies(st: state::StateView, ids: Seq<SegmentId>)
    ensures
        ({
            let issues = scan::orphan_issues(st, ids);
            &&& all_automatic(issues)
            &&& forall|i: int|
                0 <= i < issues.len() ==> (#[trigger] remedies_of(issues)[i]).phase
                    == FixUpPhase::ManifestAppends
        }),
    decreases ids.len(),
{
    if ids.len() > 0 {
        let front = scan::orphan_issues(st, ids.drop_last());
        lemma_orphan_remedies(st, ids.drop_last());
        let issues = scan::orphan_issues(st, ids);
        assert forall|i: int| 0 <= i < issues.len() implies (recovery::remedy(
            #[trigger] issues[i],
        ) matches Some(f) && !f.approval_required && f.phase == FixUpPhase::ManifestAppends) by {
            if i < front.len() {
                assert(issues[i] == front[i]);
                assert(remedies_of(front)[i].phase == FixUpPhase::ManifestAppends);
            }
        }
    }
}

pub proof fn lemma_missing_remedies(dead: Seq<SegmentId>, ids: Seq<SegmentId>)
    ensures
        ({
            let issues = scan::missing_dead_issues(dead, ids);
            &&& all_automatic(issues)
            &&& forall|i: int|
                0 <= i < issues.len() ==> (#[trigger] remedies_of(issues)[i]).phase
                    == FixUpPhase::ManifestAppends
        }),
    decreases dead.len(),
{
    if dead.len() > 0 {
        let front = scan::missing_dead_issues(dead.drop_last(), ids);
        lemma_missing_remedies(dead.drop_last(), ids);
        let issues = scan::missing_dead_issues(dead, ids);
        assert forall|i: int| 0 <= i < issues.len() implies (recovery::remedy(
            #[trigger] issues[i],
        ) matches Some(f) && !f.approval_required && f.phase == FixUpPhase::ManifestAppends) by {
            if i < front.len() {
                assert(issues[i] == front[i]);
                assert(remedies_of(front)[i].phase == FixUpPhase::ManifestAppends);
            }
        }
    }
}

/// The plan for recoverable files: the manifest is cut off, orphans and missing
/// files are recorded, and the active segment is cut off.
#[verifier::spinoff_prover]
proof fn lemma_plan(st: state::StateView, d: action::Disk, ids: Seq<SegmentId>)
    requires
        recoverable(st, d),
    ensures
        recovery::plan(scan::scan_of(open_laws::directory_of(d, ids)).issues, false)
            == Ok::<_, RecoveryError>(
            remedies_of(
                manifest_issues(d),
            ) + (remedies_of(scan::orphan_issues(st, ids)) + remedies_of(
                scan::missing_dead_issues(st.dead, ids),
            )) + remedies_of(active_issues(st, d)),
        ),
{
    let (a, b, c, e) = (
        manifest_issues(d),
        scan::orphan_issues(st, ids),
        scan::missing_dead_issues(st.dead, ids),
        active_issues(st, d),
    );
    let all = a + b + c + e;
    lemma_issues(st, d, ids);
    lemma_orphan_remedies(st, ids);
    lemma_missing_remedies(st.dead, ids);
    assert forall|i: int| 0 <= i < all.len() implies (recovery::remedy(#[trigger] all[i]) matches Some(f)
        && !f.approval_required) by {
        if i >= a.len() + b.len() + c.len() {
            assert(all[i] == e[i - a.len() - b.len() - c.len()]);
        } else if i >= a.len() + b.len() {
            assert(all[i] == c[i - a.len() - b.len()]);
        } else if i >= a.len() {
            assert(all[i] == b[i - a.len()]);
        } else {
            assert(all[i] == a[i]);
        }
    }
    lemma_remedies_of(all);
    let (ra, rb, rc, re) = (remedies_of(a), remedies_of(b), remedies_of(c), remedies_of(e));
    assert(remedies_of(all) =~= ra + (rb + rc) + re);
    let middle = rb + rc;
    assert forall|i: int| 0 <= i < middle.len() implies (#[trigger] middle[i]).phase
        == FixUpPhase::ManifestAppends by {
        if i < rb.len() {
            assert(middle[i] == rb[i]);
        } else {
            assert(middle[i] == rc[i - rb.len()]);
        }
    }
    lemma_three_phases(ra, middle, re);
}

/// Fix-ups that come phase by phase stay as they are.
pub proof fn lemma_three_phases(a: Seq<FixUp>, b: Seq<FixUp>, c: Seq<FixUp>)
    requires
        forall|i: int|
            0 <= i < a.len() ==> (#[trigger] a[i]).phase == FixUpPhase::ManifestFileClean,
        forall|i: int| 0 <= i < b.len() ==> (#[trigger] b[i]).phase == FixUpPhase::ManifestAppends,
        forall|i: int| 0 <= i < c.len() ==> (#[trigger] c[i]).phase == FixUpPhase::SegmentFileClean,
    ensures
        recovery::by_phase(a + b + c) == a + b + c,
{
    lemma_phase_all(a, FixUpPhase::ManifestFileClean, FixUpPhase::ManifestAppends);
    lemma_phase_all(a, FixUpPhase::ManifestFileClean, FixUpPhase::SegmentFileClean);
    lemma_phase_all(b, FixUpPhase::ManifestAppends, FixUpPhase::ManifestFileClean);
    lemma_phase_all(b, FixUpPhase::ManifestAppends, FixUpPhase::SegmentFileClean);
    lemma_phase_all(c, FixUpPhase::SegmentFileClean, FixUpPhase::ManifestFileClean);
    lemma_phase_all(c, FixUpPhase::SegmentFileClean, FixUpPhase::ManifestAppends);
    lemma_phase_concat(a + b, c, FixUpPhase::ManifestFileClean);
    lemma_phase_concat(a, b, FixUpPhase::ManifestFileClean);
    lemma_phase_concat(a + b, c, FixUpPhase::ManifestAppends);
    lemma_phase_concat(a, b, FixUpPhase::ManifestAppends);
    lemma_phase_concat(a + b, c, FixUpPhase::SegmentFileClean);
    lemma_phase_concat(a, b, FixUpPhase::SegmentFileClean);
    let none = Seq::<FixUp>::empty();
    assert(a + none + none =~= a);
    assert(none + b + none =~= b);
    assert(none + none + c =~= c);
}

// ── Stage by stage ────────────────────────────────────────────────────────────

/// Cut off where its valid frames end, a manifest that replays up to there leads
/// to the same state.
proof fn lemma_replay_cut(s: state::StateView, t: state::StateView, data: Seq<u8>, pos: int)
    requires
        0 <= pos <= data.len(),
        frame::tail_status(data, pos) != ScanStatus::ChecksumCorrupt,
        manifest::replay_from(s, data, pos) == Ok::<_, ReplayError>(
            (t, frame::frontier(data, pos)),
        ),
    ensures
        manifest::replay_from(s, data.take(frame::frontier(data, pos)), pos)
            == Ok::<_, ReplayError>(
            (t, frame::frontier(data, pos)),
        ),
    decreases data.len() - pos,
{
    let end = frame::frontier(data, pos);
    let cut = data.take(end);
    frame_laws::lemma_frontier(data, pos);
    match frame::raw_frame_at(data, pos) {
        frame::RawFrame::Whole(f) => {
            frame_laws::lemma_frontier(data, f.end());
            frame_laws::lemma_frame_survives_cut(data, pos, end);
            match manifest::replay_record(s, f.payload, pos as u64) {
                Ok(u) => lemma_replay_cut(u, t, data, f.end()),
                Err(_) => {},
            }
        },
        _ => {
            assert(frame::raw_frame_at(cut, pos) is End);
        },
    }
}

/// After the first phase the manifest holds the records that lead to the state,
/// and nothing else.
pub proof fn lemma_manifest_mended(st: state::StateView, d: action::Disk)
    requires
        manifest_recoverable(st, d.manifest),
    ensures
        ({
            let e = mend(d, remedies_of(manifest_issues(d)));
            &&& manifest_laws::manifest_ok(st, e.manifest)
            &&& e.manifest.len() <= d.manifest.len()
            &&& e.segments == d.segments
        }),
{
    let start = MAGIC_LEN as int;
    let data = d.manifest;
    let end = frame::frontier(data, start);
    let cut = data.take(end);
    let issues = manifest_issues(d);
    let e = mend(d, remedies_of(issues));
    frame_laws::lemma_frontier(data, start);
    if frame::tail_status(data, start) == ScanStatus::TornTail {
        let fix_up = recovery::remedy(issues[0])->Some_0;
        assert(remedies_of(issues) =~= seq![fix_up]);
        lemma_mend_one(d, fix_up, action::ActionView::TruncateManifest { len: end as u64 });
    } else {
        open_laws::lemma_clean_frontier(data, start);
        assert(remedies_of(issues) =~= Seq::<FixUp>::empty());
        assert(cut =~= data);
    }
    assert(e.manifest == cut);
    frame_laws::law_cut_keeps_prefix(data, start, frame::frames(data, start).len() as int);
    assert(cut.take(start) =~= data.take(start));
    lemma_replay_cut(state::StateView::empty(), st, data, start);
}

proof fn lemma_orphan_op_size(id: SegmentId)
    ensures
        manifest_laws::recordable(state_laws::bare(state::OpView::RecordOrphan { id })),
        store::op_frame(state_laws::bare(state::OpView::RecordOrphan { id })).len() <= 128,
{
    broadcast use crate::bytes::lemma_be_bytes_len;

    op_laws::lemma_bare_record_size(state::OpView::RecordOrphan { id });
}

/// The orphans among the first `j` listed segments are recorded as dead.
#[verifier::spinoff_prover]
pub proof fn lemma_orphans_recorded(
    st: state::StateView,
    d: action::Disk,
    ids: Seq<SegmentId>,
    j: int,
) -> (t:
    state::StateView)
    requires
        manifest_laws::manifest_ok(st, d.manifest),
        st.dead.no_duplicates(),
        0 <= j <= ids.len(),
        d.manifest.len() + 128 * j <= i64::MAX,
    ensures
        ({
            let e = mend(d, remedies_of(scan::orphan_issues(st, ids.take(j))));
            &&& manifest_laws::manifest_ok(t, e.manifest)
            &&& e.manifest.len() <= d.manifest.len() + 128 * j
            &&& e.segments == d.segments
            &&& t == (state::StateView { dead: t.dead, ..st })
            &&& t.dead.no_duplicates()
            &&& forall|x: SegmentId| #[trigger]
                t.dead.contains(x) <==> st.dead.contains(x) || ids.take(j).contains(x)
                    && !scan::is_known(st, x)
        }),
    decreases j,
{
    let issues = scan::orphan_issues(st, ids.take(j));
    if j == 0 {
        assert(remedies_of(issues) =~= Seq::<FixUp>::empty());
        st
    } else {
        let u = lemma_orphans_recorded(st, d, ids, j - 1);
        let before = scan::orphan_issues(st, ids.take(j - 1));
        let id = ids[j - 1];
        assert(ids.take(j).drop_last() =~= ids.take(j - 1));
        assert(ids.take(j).last() == id);
        lemma_take_contains(ids, j);
        if scan::is_known(st, id) {
            assert(issues == before);
            u
        } else {
            let op = state::OpView::RecordOrphan { id };
            let issue = FileIssue {
                file: FileRef::Segment(id),
                issue: Issue::OrphanSegmentFound,
            };
            let fix_up = recovery::remedy(issue)->Some_0;
            assert(issues == before.push(issue));
            assert(remedies_of(issues) =~= remedies_of(before).push(fix_up));
            lemma_mend_appends(d, remedies_of(before), fix_up, op);
            lemma_orphan_op_size(id);
            let t = state::StateView { dead: state::insert_dead(u.dead, id), ..u };
            assert(state::merge_meta(u.meta, state_laws::bare(op).meta) == u.meta);
            assert(state::apply_op(u, state_laws::bare(op)) == Ok::<_, ApplyError>(t));
            manifest_laws::law_manifest_follows_state(
                u,
                mend(d, remedies_of(before)).manifest,
                state_laws::bare(op),
            );
            state_laws::lemma_insert_dead(u.dead, id);
            t
        }
    }
}

proof fn lemma_take_contains(ids: Seq<SegmentId>, j: int)
    requires
        0 < j <= ids.len(),
    ensures
        forall|x: SegmentId| #[trigger]
            ids.take(j).contains(x) <==> ids.take(j - 1).contains(x) || x == ids[j - 1],
{
    let (a, b) = (ids.take(j), ids.take(j - 1));
    assert forall|x: SegmentId| #[trigger] a.contains(x) <==> b.contains(x) || x == ids[j - 1] by {
        if a.contains(x) {
            let i = choose|i: int| 0 <= i < a.len() && a[i] == x;
            if i < j - 1 {
                assert(b[i] == x);
            }
        }
        if b.contains(x) {
            let i = choose|i: int| 0 <= i < b.len() && b[i] == x;
            assert(a[i] == x);
        }
        assert(a[j - 1] == ids[j - 1]);
    }
}

/// The missing ones among the first `j` dead segments are forgotten.
#[verifier::spinoff_prover]
pub proof fn lemma_missing_forgotten(
    st: state::StateView,
    d: action::Disk,
    dead: Seq<SegmentId>,
    ids: Seq<SegmentId>,
    j: int,
) -> (t: state::StateView)
    requires
        manifest_laws::manifest_ok(st, d.manifest),
        st.dead.no_duplicates(),
        dead.no_duplicates(),
        forall|i: int| 0 <= i < dead.len() ==> st.dead.contains(#[trigger] dead[i]),
        0 <= j <= dead.len(),
        d.manifest.len() + 128 * j <= i64::MAX,
    ensures
        ({
            let e = mend(d, remedies_of(scan::missing_dead_issues(dead.take(j), ids)));
            &&& manifest_laws::manifest_ok(t, e.manifest)
            &&& e.manifest.len() <= d.manifest.len() + 128 * j
            &&& e.segments == d.segments
            &&& t == (state::StateView { dead: t.dead, ..st })
            &&& t.dead.no_duplicates()
            &&& forall|x: SegmentId| #[trigger]
                t.dead.contains(x) <==> st.dead.contains(x) && !(dead.take(j).contains(x)
                    && !ids.contains(x))
        }),
    decreases j,
{
    let issues = scan::missing_dead_issues(dead.take(j), ids);
    if j == 0 {
        assert(remedies_of(issues) =~= Seq::<FixUp>::empty());
        st
    } else {
        let u = lemma_missing_forgotten(st, d, dead, ids, j - 1);
        let before = scan::missing_dead_issues(dead.take(j - 1), ids);
        let id = dead[j - 1];
        assert(dead.take(j).drop_last() =~= dead.take(j - 1));
        assert(dead.take(j).last() == id);
        lemma_take_contains(dead, j);
        if ids.contains(id) {
            assert(issues == before);
            u
        } else {
            let op = state::OpView::SegmentDeleted { id };
            let issue = FileIssue {
                file: FileRef::Segment(id),
                issue: Issue::DeadSegmentNotFound,
            };
            let fix_up = recovery::remedy(issue)->Some_0;
            assert(issues == before.push(issue));
            assert(remedies_of(issues) =~= remedies_of(before).push(fix_up));
            lemma_mend_appends(d, remedies_of(before), fix_up, op);
            crate::delete_laws::lemma_deleted_op_size(id);
            assert(u.dead.contains(id)) by {
                assert(st.dead.contains(dead[j - 1]));
                let earlier = dead.take(j - 1);
                if earlier.contains(id) {
                    let i = choose|i: int| 0 <= i < earlier.len() && earlier[i] == id;
                    assert(dead[i] == dead[j - 1]);
                }
            }
            let t = state::StateView { dead: state::without_id(u.dead, id), ..u };
            assert(state::merge_meta(u.meta, state_laws::bare(op).meta) == u.meta);
            assert(state::apply_op(u, state_laws::bare(op)) == Ok::<_, ApplyError>(t));
            manifest_laws::law_manifest_follows_state(
                u,
                mend(d, remedies_of(before)).manifest,
                state_laws::bare(op),
            );
            state_laws::lemma_without_id(u.dead, id);
            t
        }
    }
}

/// Cutting off the active segment where its valid frames end leaves those
/// frames, and nothing else.
#[verifier::spinoff_prover]
proof fn lemma_active_mended(st: state::StateView, d: action::Disk, e: action::Disk)
    requires
        recoverable(st, d),
        e.segments == d.segments,
    ensures
        ({
            let id = st.segments.last().id;
            let f = mend(e, remedies_of(active_issues(st, d)));
            &&& f.manifest == e.manifest
            &&& f.segments.dom() == d.segments.dom()
            &&& forall|x: SegmentId| x != id ==> #[trigger] f.segments[x] == d.segments[x]
            &&& log_laws::sound(f.segments[id])
            &&& log_laws::segment_frames(f, id) == log_laws::segment_frames(settled(st, d), id)
            &&& scan::size_limit(st, id) matches Some(n) ==> f.segments[id].len() <= n
        }),
{
    let segs = st.segments;
    let start = MAGIC_LEN as int;
    let id = segs[segs.len() - 1].id;
    assert(d.segments.contains_key(segs[segs.len() - 1].id));
    let data = d.segments[id];
    let part = settled(st, d).segments[id];
    let end = frame::frontier(part, start);
    let cut = part.take(end);
    let issues = active_issues(st, d);
    let f = mend(e, remedies_of(issues));
    lemma_part_has_magic(st, id, data);
    frame_laws::lemma_frontier(part, start);
    assert(data.take(end) =~= cut);
    if frame::tail_status(part, start) == ScanStatus::Clean && part == data {
        open_laws::lemma_clean_frontier(part, start);
        assert(remedies_of(issues) =~= Seq::<FixUp>::empty());
        assert(cut =~= data);
    } else {
        let fix_up = recovery::remedy(issues[0])->Some_0;
        assert(remedies_of(issues) =~= seq![fix_up]);
        lemma_mend_one(e, fix_up, action::ActionView::TruncateSegment { id, len: end as u64 });
        assert(f.segments.dom() =~= d.segments.dom());
    }
    assert(f.segments[id] == cut);
    let fs = frame::frames(part, start);
    frame_laws::law_cut_keeps_prefix(part, start, fs.len() as int);
    assert(fs.take(fs.len() as int) =~= fs);
    assert(cut.take(start) =~= part.take(start));
}

// ── The law ───────────────────────────────────────────────────────────────────

/// The files match once every stage is done.
#[verifier::spinoff_prover]
proof fn lemma_mended_files_match(
    st: state::StateView,
    t: state::StateView,
    d: action::Disk,
    e: action::Disk,
    ids: Seq<SegmentId>,
)
    requires
        recoverable(st, d),
        open_laws::lists(ids, d),
        t == (state::StateView { dead: t.dead, ..st }),
        t.dead.no_duplicates(),
        forall|x: SegmentId| #[trigger]
            t.dead.contains(x) <==> d.segments.contains_key(x) && !st.is_live(x),
        manifest_laws::manifest_ok(t, e.manifest),
        e.manifest.len() <= i64::MAX,
        e.segments.dom() == d.segments.dom(),
        forall|x: SegmentId|
            x != st.segments.last().id ==> #[trigger] e.segments[x] == d.segments[x],
        log_laws::sound(e.segments[st.segments.last().id]),
        log_laws::cut_off(st, e),
    ensures
        log_laws::files_match(t, e),
{
    let segs = st.segments;
    let n = segs.len() as int;
    assert forall|x: SegmentId| #[trigger] t.is_live(x) == st.is_live(x) by {
        assert(t.segments == st.segments);
    }
    assert forall|x: SegmentId| e.segments.contains_key(x) == #[trigger] d.segments.contains_key(
        x,
    ) by {
        assert(e.segments.dom().contains(x) == d.segments.dom().contains(x));
    }
    assert forall|i: int| 0 <= i < n implies e.segments.contains_key((#[trigger] segs[i]).id)
        && log_laws::sound(e.segments[segs[i].id]) by {
        assert(d.segments.contains_key(segs[i].id));
        if i < n - 1 {
            assert(log_laws::sound(d.segments[segs[i].id]));
            assert(segs[i].id != segs[n - 1].id);
        }
    }
    assert forall|i: int| 0 <= i < n - 1 implies log_laws::seal_ok(
        e.segments[(#[trigger] segs[i]).id],
        t.seals[segs[i].id],
    ) by {
        assert(log_laws::seal_ok(d.segments[segs[i].id], st.seals[segs[i].id]));
        assert(segs[i].id != segs[n - 1].id);
    }
    assert forall|x: SegmentId| #[trigger] t.seals.contains_key(x) implies t.is_live(x) by {
        assert(st.seals.contains_key(x));
    }
    assert forall|x: SegmentId| #[trigger] e.segments.contains_key(x) <==> t.is_live(x)
        || t.dead.contains(x) by {
        assert(e.segments.contains_key(x) == d.segments.contains_key(x));
        if st.is_live(x) {
            let i = choose|i: int| 0 <= i < segs.len() && (#[trigger] segs[i]).id == x;
            assert(d.segments.contains_key(segs[i].id));
        }
    }
    assert forall|i: int| 0 <= i < t.dead.len() implies !t.is_live(#[trigger] t.dead[i]) by {
        assert(t.dead.contains(t.dead[i]));
    }
}

/// The log depends only on the frames of its segments.
proof fn lemma_log_same_frames(
    segments: Seq<crate::state::SegmentEntry>,
    d: action::Disk,
    e: action::Disk,
)
    requires
        forall|i: int|
            0 <= i < segments.len() ==> log_laws::segment_frames(d, (#[trigger] segments[i]).id)
                == log_laws::segment_frames(e, segments[i].id),
    ensures
        log_laws::log_of(segments, d) == log_laws::log_of(segments, e),
    decreases segments.len(),
{
    if segments.len() > 0 {
        let front = segments.drop_last();
        assert forall|i: int| 0 <= i < front.len() implies log_laws::segment_frames(
            d,
            (#[trigger] front[i]).id,
        ) == log_laws::segment_frames(e, front[i].id) by {
            assert(front[i] == segments[i]);
        }
        lemma_log_same_frames(front, d, e);
        assert(segments.last() == segments[segments.len() - 1]);
    }
}

/// Law: what a crash can leave behind is repaired without approval. The issues
/// of such a store have a plan, and once it has run, the files match the state
/// again: the manifest is whole, the active segment ends with its last valid
/// frame, every segment file that was not live is dead on record, and a new scan
/// finds nothing wrong. No entry that counts is lost, and head, metadata and live
/// segments are what they were. A rollback that was not completed is.
#[verifier::spinoff_prover]
pub proof fn law_crash_is_recovered(
    st: state::StateView,
    d: action::Disk,
    ids: Seq<SegmentId>,
    new_ids: Seq<SegmentId>,
)
    requires
        recoverable(st, d),
        open_laws::lists(ids, d),
        d.manifest.len() + 128 * (ids.len() + st.dead.len()) <= i64::MAX,
        ({
            let fix_ups = recovery::plan(
                scan::scan_of(open_laws::directory_of(d, ids)).issues,
                false,
            )->Ok_0;
            open_laws::lists(new_ids, mend(d, fix_ups))
        }),
    ensures
        recovery::plan(scan::scan_of(open_laws::directory_of(d, ids)).issues, false) is Ok,
        ({
            let fix_ups = recovery::plan(
                scan::scan_of(open_laws::directory_of(d, ids)).issues,
                false,
            )->Ok_0;
            let e = mend(d, fix_ups);
            let report = scan::scan_of(open_laws::directory_of(e, new_ids));
            let t = report.state;
            &&& report.issues == Seq::<FileIssue>::empty()
            &&& log_laws::files_match(t, e)
            &&& t == (state::StateView { dead: t.dead, ..st })
            &&& forall|id: SegmentId| #[trigger]
                t.dead.contains(id) <==> d.segments.contains_key(id) && !st.is_live(id)
            &&& log_laws::log_of(st.segments, e) == log_laws::log_of(
                st.segments,
                settled(st, d),
            )
        }),
{
    let segs = st.segments;
    let (a, b, c, f) = (
        remedies_of(manifest_issues(d)),
        remedies_of(scan::orphan_issues(st, ids)),
        remedies_of(scan::missing_dead_issues(st.dead, ids)),
        remedies_of(active_issues(st, d)),
    );
    lemma_plan(st, d, ids);
    lemma_mend_concat(d, a + (b + c), f);
    lemma_mend_concat(d, a, b + c);
    let d1 = mend(d, a);
    lemma_mend_concat(d1, b, c);
    let d2 = mend(d1, b);
    let d3 = mend(d2, c);
    let e = mend(d3, f);
    lemma_manifest_mended(st, d);
    assert(ids.take(ids.len() as int) =~= ids);
    let u = lemma_orphans_recorded(st, d1, ids, ids.len() as int);
    assert(st.dead.take(st.dead.len() as int) =~= st.dead);
    assert forall|i: int| 0 <= i < st.dead.len() implies u.dead.contains(#[trigger] st.dead[i]) by {
        assert(st.dead.contains(st.dead[i]));
    }
    let t = lemma_missing_forgotten(u, d2, st.dead, ids, st.dead.len() as int);
    lemma_active_mended(st, d, d3);
    assert forall|x: SegmentId| #[trigger] t.dead.contains(x) <==> d.segments.contains_key(x)
        && !st.is_live(x) by {
        assert(ids.contains(x) <==> d.segments.contains_key(x));
        if st.dead.contains(x) {
            let i = choose|i: int| 0 <= i < st.dead.len() && st.dead[i] == x;
            assert(!st.is_live(st.dead[i]));
        }
    }
    lemma_mended_files_match(st, t, d, e, ids);
    open_laws::lemma_scan_finds_state(t, e, new_ids);
    let kept = settled(st, d);
    assert forall|i: int| 0 <= i < segs.len() implies log_laws::segment_frames(
        kept,
        (#[trigger] segs[i]).id,
    )
        == log_laws::segment_frames(e, segs[i].id) by {
        if i < segs.len() - 1 {
            assert(segs[i].id != segs[segs.len() - 1].id);
        }
    }
    lemma_log_same_frames(segs, kept, e);
}

// ── Crashes ───────────────────────────────────────────────────────────────────

/// Law: a write of entries that breaks off leaves the entries that were written
/// whole, from the first one on, and at most one torn one behind them, which is
/// never taken for data. `k` counts the whole ones.
#[verifier::spinoff_prover]
pub proof fn law_broken_write_keeps_whole_entries(
    a: Seq<u8>,
    pos: int,
    es: Seq<(u64, Seq<u8>)>,
    cut: int,
) -> (k: int)
    requires
        frame_laws::clean(a, pos),
        log_laws::payloads_fit(es),
        0 <= cut <= log_laws::encode_all(es).len(),
    ensures
        0 <= k <= es.len(),
        cut == log_laws::encode_all(es).len() ==> k == es.len(),
        ({
            let data = a + log_laws::encode_all(es).take(cut);
            &&& frame::tail_status(data, pos) != ScanStatus::ChecksumCorrupt
            &&& log_laws::entries_of(frame::frames(data, pos))
                == log_laws::entries_of(frame::frames(a, pos)) + es.take(k)
        }),
    decreases es.len(),
{
    let bytes = log_laws::encode_all(es);
    let old_fs = frame::frames(a, pos);
    if es.len() == 0 {
        assert(a + bytes.take(cut) =~= a);
        assert(log_laws::entries_of(old_fs) + es.take(0) =~= log_laws::entries_of(old_fs));
        0
    } else {
        let front = es.drop_last();
        let part = log_laws::encode_all(front);
        let (id, payload) = es.last();
        assert forall|i: int| 0 <= i < front.len() implies (#[trigger] front[i]).1.len()
            <= u32::MAX by {
            assert(front[i] == es[i]);
        }
        assert(es[es.len() - 1] == es.last());
        if cut <= part.len() {
            let k = law_broken_write_keeps_whole_entries(a, pos, front, cut);
            assert(bytes.take(cut) =~= part.take(cut));
            assert(front.take(k) =~= es.take(k));
            if cut == bytes.len() {
                assert(frame::encode_frame(id, payload).len() > 0) by {
                    broadcast use crate::bytes::lemma_be_bytes_len;

                }
            }
            k
        } else {
            let frame = frame::encode_frame(id, payload);
            let b = a + part;
            let n = cut - part.len();
            log_laws::lemma_append_entries(a, pos, front);
            assert(a + bytes.take(cut) =~= b + frame.take(n));
            if n < frame.len() {
                frame_laws::law_torn_write_is_detected(b, pos, id, payload, n);
                assert(es.take(front.len() as int) =~= front);
                front.len() as int
            } else {
                frame_laws::law_append_adds_frame(b, pos, id, payload);
                assert(frame.take(n) =~= frame);
                let f = frame::Frame { start: b.len() as int, id, payload };
                let fs = frame::frames(b, pos).push(f);
                assert(
                    log_laws::entries_of(fs) =~= log_laws::entries_of(
                        frame::frames(b, pos),
                    ).push((id, payload))
                );
                assert(log_laws::entries_of(old_fs) + es.take(es.len() as int) =~= (log_laws::entries_of(old_fs)
                    + front).push((id, payload)));
                es.len() as int
            }
        }
    }
}

/// The files after a crash, where they matched a state before: of a record that
/// was being written to the manifest, and of entries that were being written to
/// the active segment, only the first bytes may be there. Files that are not
/// live may have come or gone. Entries follow a rollback only once it is on
/// record that the store goes on.
pub open spec fn crashed(
    st: state::StateView,
    d: action::Disk,
    e: action::Disk,
    record: Seq<u8>,
    es: Seq<(u64, Seq<u8>)>,
    cut: int,
) -> bool {
    let id = st.segments.last().id;
    &&& e.manifest == d.manifest + record
    &&& e.manifest.len() <= i64::MAX
    &&& 0 <= cut <= log_laws::encode_all(es).len()
    &&& es.len() > 0 ==> st.cut_at is None
    &&& e.segments.contains_key(id)
    &&& e.segments[id] == d.segments[id] + log_laws::encode_all(es).take(cut)
    &&& e.segments[id].len() <= i64::MAX
    &&& forall|i: int|
        0 <= i < st.segments.len() - 1 ==> e.segments.contains_key((#[trigger] st.segments[i]).id)
            && e.segments[st.segments[i].id] == d.segments[st.segments[i].id]
}

/// Law: after such a crash the store can be recovered. A record that was not
/// written whole has no effect, the log is what it was, and behind it come the
/// first `k` of the entries that were being written.
#[verifier::spinoff_prover]
pub proof fn law_crash_leaves_recoverable_files(
    st: state::StateView,
    d: action::Disk,
    e: action::Disk,
    op: crate::state::ManifestOpView,
    record_cut: int,
    es: Seq<(u64, Seq<u8>)>,
    cut: int,
) -> (k: int)
    requires
        log_laws::files_match(st, d),
        manifest_laws::recordable(op),
        0 <= record_cut < store::op_frame(op).len(),
        log_laws::payloads_fit(es),
        crashed(st, d, e, store::op_frame(op).take(record_cut), es, cut),
    ensures
        recoverable(st, e),
        0 <= k <= es.len(),
        cut == log_laws::encode_all(es).len() ==> k == es.len(),
        log_laws::log_of(st.segments, settled(st, e)) == log_laws::log_of(st.segments, d)
            + es.take(k),
{
    let segs = st.segments;
    let n = segs.len() as int;
    let start = MAGIC_LEN as int;
    let id = segs[n - 1].id;
    assert(d.segments.contains_key(segs[n - 1].id) && log_laws::sound(d.segments[segs[n - 1].id]));
    let k = law_broken_write_keeps_whole_entries(d.segments[id], start, es, cut);
    let (a, b) = (d.segments[id], log_laws::encode_all(es).take(cut));
    assert((a + b).take(start) =~= a.take(start));
    lemma_torn_manifest(st, d.manifest, op, record_cut);
    assert forall|i: int| 0 <= i < n implies e.segments.contains_key((#[trigger] segs[i]).id)
        && files::has_magic(e.segments[segs[i].id], SEGMENT_MAGIC) && e.segments[segs[i].id].len()
        <= i64::MAX by {
        assert(d.segments.contains_key(segs[i].id) && log_laws::sound(d.segments[segs[i].id]));
    }
    assert forall|i: int| 0 <= i < n - 1 implies log_laws::sound(
        e.segments[(#[trigger] segs[i]).id],
    )
        && log_laws::seal_ok(e.segments[segs[i].id], st.seals[segs[i].id]) by {
        assert(d.segments.contains_key(segs[i].id) && log_laws::sound(d.segments[segs[i].id]));
        assert(log_laws::seal_ok(d.segments[segs[i].id], st.seals[segs[i].id]));
    }
    assert(recoverable(st, e));
    let front = segs.drop_last();
    assert forall|i: int| 0 <= i < front.len() implies d.segments[(#[trigger] front[i]).id]
        == e.segments[front[i].id] by {
        assert(front[i] == segs[i]);
    }
    log_laws::lemma_log_same_files(front, d, e);
    assert(segs.last() == segs[n - 1]);
    assert(log_laws::log_of(segs, e) =~= log_laws::log_of(segs, d) + es.take(k));
    assert(settled(st, e) =~= e) by {
        if es.len() == 0 {
            assert(a + b =~= a);
        }
    }
    k
}

/// A record that breaks off leaves the records before it.
proof fn lemma_torn_manifest(
    st: state::StateView,
    manifest: Seq<u8>,
    op: crate::state::ManifestOpView,
    cut: int,
)
    requires
        manifest_laws::manifest_ok(st, manifest),
        manifest_laws::recordable(op),
        0 <= cut < store::op_frame(op).len(),
    ensures
        ({
            let data = manifest + store::op_frame(op).take(cut);
            &&& files::has_magic(data, MANIFEST_MAGIC)
            &&& frame::tail_status(data, MAGIC_LEN as int) != ScanStatus::ChecksumCorrupt
            &&& frame::frontier(data, MAGIC_LEN as int) == manifest.len()
            &&& manifest::replay_from(state::StateView::empty(), data, MAGIC_LEN as int)
                == Ok::<_, ReplayError>(
                (st, manifest.len() as int),
            )
        }),
{
    let start = MAGIC_LEN as int;
    let data = manifest + store::op_frame(op).take(cut);
    assert(data.take(start) =~= manifest.take(start));
    crate::manifest_laws::law_replay_ignores_torn_record(
        state::StateView::empty(),
        st,
        manifest,
        start,
        op,
        cut,
    );
    if cut == 0 {
        assert(data =~= manifest);
        open_laws::lemma_clean_frontier(manifest, start);
    } else {
        frame_laws::law_torn_write_is_detected(
            manifest,
            start,
            0,
            crate::codec::encode_op(op),
            cut,
        );
    }
}

} // verus!
