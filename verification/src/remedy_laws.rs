//! What is done about each issue, and in what order.

use vstd::prelude::*;

use crate::action;
use crate::format_laws;
use crate::issue::{FileIssue, FileRef, Issue};
use crate::recovery::{self, FixUp, FixUpAction, FixUpPhase, RecoveryError};
use crate::recovery_laws;
use crate::state;
use crate::state_laws;
use crate::store;

verus! {

/// Law: a torn record is cut off the manifest, the orphan or missing file of a
/// segment is put on record, the torn tail of a segment is cut off, each without
/// approval. A missing active segment is created anew with approval. There is no
/// remedy for anything else.
pub proof fn law_each_issue_has_its_remedy(i: FileIssue)
    ensures
        ({
            let fixed = |phase: FixUpPhase, approval_required: bool, action: FixUpAction|
                recovery::remedy(i) == Some(FixUp { phase, approval_required, action });
            match (i.issue, i.file) {
                (Issue::ManifestTornTail { truncate_to }, _) => fixed(
                    FixUpPhase::ManifestFileClean,
                    false,
                    FixUpAction::TruncateManifest(truncate_to),
                ),
                (Issue::OrphanSegmentFound, FileRef::Segment(id)) => fixed(
                    FixUpPhase::ManifestAppends,
                    false,
                    FixUpAction::OrphanFound(id),
                ),
                (Issue::DeadSegmentNotFound, FileRef::Segment(id)) => fixed(
                    FixUpPhase::ManifestAppends,
                    false,
                    FixUpAction::DeadSegmentMissing(id),
                ),
                (Issue::ActiveSegmentTornTail { truncate_to }, FileRef::Segment(id)) => fixed(
                    FixUpPhase::SegmentFileClean,
                    false,
                    FixUpAction::TruncateSegment(id, truncate_to),
                ),
                (Issue::ActiveSegmentMissing, FileRef::Segment(id)) => fixed(
                    FixUpPhase::SegmentFileClean,
                    true,
                    FixUpAction::CreateActiveSegment(id),
                ),
                _ => recovery::remedy(i) is None,
            }
        }),
{
}

/// An issue that stands in the way: it has no remedy, or one that needs an
/// approval which is not given.
pub open spec fn in_the_way(i: FileIssue, approved: bool) -> bool {
    match recovery::remedy(i) {
        None => true,
        Some(f) => f.approval_required && !approved,
    }
}

/// Law: the first issue that stands in the way decides. Recovery is not possible
/// where it has no remedy, and asks for approval where it has one.
pub proof fn law_first_issue_in_the_way_decides(issues: Seq<FileIssue>, approved: bool, i: int)
    requires
        0 <= i < issues.len(),
        in_the_way(issues[i], approved),
        forall|j: int| 0 <= j < i ==> !in_the_way(#[trigger] issues[j], approved),
    ensures
        recovery::plan(issues, approved) == Err::<Seq<FixUp>, _>(
            if recovery::remedy(issues[i]) is None {
                RecoveryError::NotPossible
            } else {
                RecoveryError::ApprovalRequired
            },
        ),
    decreases issues.len(),
{
    let front = issues.drop_last();
    if i < front.len() {
        assert forall|j: int| 0 <= j < i implies !in_the_way(#[trigger] front[j], approved) by {
            assert(front[j] == issues[j]);
        }
        law_first_issue_in_the_way_decides(front, approved, i);
    } else {
        assert forall|j: int| 0 <= j < front.len() implies !in_the_way(
            #[trigger] front[j],
            approved,
        ) by {
            assert(front[j] == issues[j]);
        }
        lemma_nothing_in_the_way(front, approved);
    }
}

proof fn lemma_nothing_in_the_way(issues: Seq<FileIssue>, approved: bool)
    requires
        forall|j: int| 0 <= j < issues.len() ==> !in_the_way(#[trigger] issues[j], approved),
    ensures
        recovery::remedies(issues, approved) == Ok::<_, RecoveryError>(
            issues.map_values(|i: FileIssue| recovery::remedy(i)->Some_0),
        ),
    decreases issues.len(),
{
    let f = |i: FileIssue| recovery::remedy(i)->Some_0;
    if issues.len() > 0 {
        let front = issues.drop_last();
        assert forall|j: int| 0 <= j < front.len() implies !in_the_way(
            #[trigger] front[j],
            approved,
        ) by {
            assert(front[j] == issues[j]);
        }
        lemma_nothing_in_the_way(front, approved);
        assert(!in_the_way(issues[issues.len() - 1], approved));
        assert(issues.map_values(f) =~= front.map_values(f).push(f(issues.last())));
    } else {
        assert(issues.map_values(f) =~= Seq::<FixUp>::empty());
    }
}

proof fn lemma_phase_is_filter(fix_ups: Seq<FixUp>, phase: FixUpPhase)
    ensures
        recovery::of_phase(fix_ups, phase) == fix_ups.filter(|f: FixUp| f.phase == phase),
    decreases fix_ups.len(),
{
    reveal(Seq::filter);
    if fix_ups.len() > 0 {
        lemma_phase_is_filter(fix_ups.drop_last(), phase);
    }
}

/// Law: where nothing stands in the way, the remedy of every issue is carried out,
/// in the order of the issues but for the phases: first the manifest is cleaned,
/// then it is appended to, and then the segments are cleaned.
pub proof fn law_all_remedies_are_carried_out(issues: Seq<FileIssue>, approved: bool)
    requires
        forall|j: int| 0 <= j < issues.len() ==> !in_the_way(#[trigger] issues[j], approved),
    ensures
        ({
            let all = issues.map_values(|i: FileIssue| recovery::remedy(i)->Some_0);
            recovery::plan(issues, approved) == Ok::<_, RecoveryError>(
                all.filter(|f: FixUp| f.phase == FixUpPhase::ManifestFileClean) + all.filter(
                    |f: FixUp| f.phase == FixUpPhase::ManifestAppends,
                ) + all.filter(|f: FixUp| f.phase == FixUpPhase::SegmentFileClean),
            )
        }),
{
    let all = issues.map_values(|i: FileIssue| recovery::remedy(i)->Some_0);
    lemma_nothing_in_the_way(issues, approved);
    lemma_phase_is_filter(all, FixUpPhase::ManifestFileClean);
    lemma_phase_is_filter(all, FixUpPhase::ManifestAppends);
    lemma_phase_is_filter(all, FixUpPhase::SegmentFileClean);
}

/// Law: what the fix-ups do to the files. A cut leaves the first bytes, a segment
/// that is created is empty, and a record is appended to the manifest and synced.
pub proof fn law_fix_ups_do_what_they_say(d: action::Disk, fix_up: FixUp)
    requires
        d.manifest.len() <= i64::MAX,
    ensures
        ({
            let work = recovery::fix_up_actions(fix_up.action, d.manifest.len() as u64);
            let e = recovery_laws::mend(d, seq![fix_up]);
            let recorded = |op: state::OpView|
                {
                    &&& e.manifest == d.manifest + store::op_frame(state_laws::bare(op))
                    &&& e.segments == d.segments
                    &&& work.len() == 2
                    &&& work[1] == action::ActionView::SyncManifest
                };
            match fix_up.action {
                FixUpAction::TruncateManifest(len) => e.manifest == d.manifest.take(len as int)
                    && e.segments == d.segments,
                FixUpAction::TruncateSegment(id, len) => {
                    &&& e.manifest == d.manifest
                    &&& e.segments == d.segments.insert(id, d.segments[id].take(len as int))
                },
                FixUpAction::CreateActiveSegment(id) => {
                    &&& e.manifest == d.manifest
                    &&& e.segments == d.segments.insert(id, e.segments[id])
                    &&& format_laws::begins_as_segment(e.segments[id])
                    &&& e.segments[id].len() == 8
                },
                FixUpAction::DeadSegmentMissing(id) => recorded(
                    state::OpView::SegmentDeleted { id },
                ),
                FixUpAction::OrphanFound(id) => recorded(state::OpView::RecordOrphan { id }),
            }
        }),
{
    let none = Seq::<FixUp>::empty();
    let one = seq![fix_up];
    assert(none.push(fix_up) =~= one);
    match fix_up.action {
        FixUpAction::TruncateManifest(len) => recovery_laws::lemma_mend_one(
            d,
            fix_up,
            action::ActionView::TruncateManifest { len },
        ),
        FixUpAction::TruncateSegment(id, len) => recovery_laws::lemma_mend_one(
            d,
            fix_up,
            action::ActionView::TruncateSegment { id, len },
        ),
        FixUpAction::CreateActiveSegment(id) => {
            recovery_laws::lemma_mend_one(d, fix_up, action::ActionView::CreateSegment(id));
            let data = crate::files::SEGMENT_MAGIC@;
            assert(data.take(8) =~= data);
            format_laws::lemma_magic(data);
        },
        FixUpAction::DeadSegmentMissing(id) => recovery_laws::lemma_mend_appends(
            d,
            none,
            fix_up,
            state::OpView::SegmentDeleted { id },
        ),
        FixUpAction::OrphanFound(id) => recovery_laws::lemma_mend_appends(
            d,
            none,
            fix_up,
            state::OpView::RecordOrphan { id },
        ),
    }
}

} // verus!
