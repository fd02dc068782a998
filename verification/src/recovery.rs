//! What can be done about the issues that a scan found.

use vstd::prelude::*;

use crate::action::{self, Action};
use crate::codec;
use crate::frame::{self, FrameCursor};
use crate::issue::{FileIssue, FileRef, Issue, IssueReport};
use crate::manifest;
use crate::state::{self, ManifestOp, Op};
use crate::{IoFault, SegmentId};

verus! {

/// Why a recovery failed.
#[derive(Debug)]
pub enum RecoveryError {
    /// No automatic recovery path exists for the issues found (e.g. missing
    /// manifest, corrupt sealed segment). Manual intervention is required.
    NotPossible,
    /// Issues were found that require explicit approval but approval was not
    /// given.
    ApprovalRequired,
    /// Recovery ran but issues persisted after all fix-up actions were applied.
    RemainingIssues(IssueReport),
    /// An I/O error occurred while applying a fix-up action.
    IoError(IoFault),
}

/// A fault of the file system in words.
pub open spec fn fault_text(fault: IoFault) -> Seq<char> {
    match fault {
        IoFault::NotFound => "not found"@,
        IoFault::AlreadyExists => "already exists"@,
        IoFault::InvalidData => "invalid data"@,
        IoFault::UnexpectedEof => "unexpected end of file"@,
        IoFault::Other => "other error"@,
    }
}

pub open spec fn recovery_text(e: RecoveryError) -> Seq<char> {
    match e {
        RecoveryError::NotPossible => "recovery not possible"@,
        RecoveryError::ApprovalRequired => "recovery requires approval"@,
        RecoveryError::RemainingIssues(report) => "issues remain after recovery: "@
            + crate::issue::report_text(report@),
        RecoveryError::IoError(fault) => fault_text(fault),
    }
}

impl RecoveryError {
    /// The error in words.
    pub fn message(&self) -> (s: String)
        ensures
            s@ == recovery_text(*self),
    {
        match self {
            RecoveryError::NotPossible => "recovery not possible".to_owned(),
            RecoveryError::ApprovalRequired => "recovery requires approval".to_owned(),
            RecoveryError::RemainingIssues(report) => {
                let text = report.to_string();
                crate::issue::joined("issues remain after recovery: ", text.as_str())
            },
            RecoveryError::IoError(fault) => fault.message(),
        }
    }
}

impl IoFault {
    /// The fault in words.
    pub fn message(&self) -> (s: String)
        ensures
            s@ == fault_text(*self),
    {
        match *self {
            IoFault::NotFound => "not found".to_owned(),
            IoFault::AlreadyExists => "already exists".to_owned(),
            IoFault::InvalidData => "invalid data".to_owned(),
            IoFault::UnexpectedEof => "unexpected end of file".to_owned(),
            IoFault::Other => "other error".to_owned(),
        }
    }
}

/// When a fix-up runs: the manifest is mended before it is appended to, and the
/// segments come last.
#[derive(Debug, Clone, Copy, PartialEq, Eq, Structural)]
pub enum FixUpPhase {
    ManifestFileClean,
    ManifestAppends,
    SegmentFileClean,
}

/// What a fix-up does.
#[derive(Debug, Clone, Copy, PartialEq, Eq, Structural)]
pub enum FixUpAction {
    OrphanFound(SegmentId),
    DeadSegmentMissing(SegmentId),
    TruncateManifest(u64),
    TruncateSegment(SegmentId, u64),
    CreateActiveSegment(SegmentId),
}

/// The remedy for one issue.
#[derive(Debug, Clone, Copy, PartialEq, Eq, Structural)]
pub struct FixUp {
    pub phase: FixUpPhase,
    pub approval_required: bool,
    pub action: FixUpAction,
}

// ── Remedies ──────────────────────────────────────────────────────────────────

/// The segment an issue is about.
pub open spec fn issue_segment(issue: FileIssue) -> Option<SegmentId> {
    match issue.file {
        FileRef::Segment(id) => Some(id),
        _ => None,
    }
}

/// The remedy for an issue, if there is one.
pub open spec fn remedy(issue: FileIssue) -> Option<FixUp> {
    match (issue.issue, issue_segment(issue)) {
        (Issue::ManifestTornTail { truncate_to }, _) => Some(
            FixUp {
                phase: FixUpPhase::ManifestFileClean,
                approval_required: false,
                action: FixUpAction::TruncateManifest(truncate_to),
            },
        ),
        (Issue::DeadSegmentNotFound, Some(id)) => Some(
            FixUp {
                phase: FixUpPhase::ManifestAppends,
                approval_required: false,
                action: FixUpAction::DeadSegmentMissing(id),
            },
        ),
        (Issue::OrphanSegmentFound, Some(id)) => Some(
            FixUp {
                phase: FixUpPhase::ManifestAppends,
                approval_required: false,
                action: FixUpAction::OrphanFound(id),
            },
        ),
        (Issue::ActiveSegmentTornTail { truncate_to }, Some(id)) => Some(
            FixUp {
                phase: FixUpPhase::SegmentFileClean,
                approval_required: false,
                action: FixUpAction::TruncateSegment(id, truncate_to),
            },
        ),
        (Issue::ActiveSegmentMissing, Some(id)) => Some(
            FixUp {
                phase: FixUpPhase::SegmentFileClean,
                approval_required: true,
                action: FixUpAction::CreateActiveSegment(id),
            },
        ),
        _ => None,
    }
}

fn segment_id(issue: &FileIssue) -> (r: Option<SegmentId>)
    ensures
        r == issue_segment(*issue),
{
    match issue.file {
        FileRef::Segment(id) => Some(id),
        _ => None,
    }
}

fn auto(phase: FixUpPhase, action: FixUpAction) -> (r: Option<FixUp>)
    ensures
        r == Some(FixUp { phase, approval_required: false, action }),
{
    Some(FixUp { phase, approval_required: false, action })
}

fn approval(phase: FixUpPhase, action: FixUpAction) -> (r: Option<FixUp>)
    ensures
        r == Some(FixUp { phase, approval_required: true, action }),
{
    Some(FixUp { phase, approval_required: true, action })
}

/// The remedy for an issue, or `None` where manual intervention is required.
pub fn create_fix_up(issue: &FileIssue) -> (r: Option<FixUp>)
    ensures
        r == remedy(*issue),
{
    match issue.issue {
        Issue::DirectoryNotFound => None,
        Issue::DirectoryNotReadable => None,
        Issue::ManifestNotFound => None,
        Issue::ManifestNotReadable => None,
        Issue::ManifestChecksumCorrupt { .. } => None,
        Issue::ManifestEmpty => None,
        Issue::SealedSegmentMissing => None,
        Issue::SealedSegmentSizeMismatch { .. } => None,
        // Cut off, the file would be shorter than its seal says.
        Issue::SealedSegmentChecksumCorrupt { .. } => None,
        Issue::ActiveSegmentMissing => match segment_id(issue) {
            None => None,
            Some(id) => approval(
                FixUpPhase::SegmentFileClean,
                FixUpAction::CreateActiveSegment(id),
            ),
        },
        Issue::DeadSegmentNotFound => match segment_id(issue) {
            None => None,
            Some(id) => auto(FixUpPhase::ManifestAppends, FixUpAction::DeadSegmentMissing(id)),
        },
        Issue::OrphanSegmentFound => match segment_id(issue) {
            None => None,
            Some(id) => auto(FixUpPhase::ManifestAppends, FixUpAction::OrphanFound(id)),
        },
        Issue::ManifestTornTail { truncate_to } => auto(
            FixUpPhase::ManifestFileClean,
            FixUpAction::TruncateManifest(truncate_to),
        ),
        Issue::ActiveSegmentTornTail { truncate_to } => match segment_id(issue) {
            None => None,
            Some(id) => auto(
                FixUpPhase::SegmentFileClean,
                FixUpAction::TruncateSegment(id, truncate_to),
            ),
        },
    }
}

// ── Plan ──────────────────────────────────────────────────────────────────────

/// The remedies for all issues, in the order of the issues. The first issue
/// that has none, or one that needs an approval not given, decides.
pub open spec fn remedies(issues: Seq<FileIssue>, approved: bool) -> Result<
    Seq<FixUp>,
    RecoveryError,
>
    decreases issues.len(),
{
    if issues.len() == 0 {
        Ok(Seq::empty())
    } else {
        match remedies(issues.drop_last(), approved) {
            Err(e) => Err(e),
            Ok(fix_ups) => match remedy(issues.last()) {
                None => Err(RecoveryError::NotPossible),
                Some(fix_up) => if fix_up.approval_required && !approved {
                    Err(RecoveryError::ApprovalRequired)
                } else {
                    Ok(fix_ups.push(fix_up))
                },
            },
        }
    }
}

/// The fix-ups of one phase, in order.
pub open spec fn of_phase(fix_ups: Seq<FixUp>, phase: FixUpPhase) -> Seq<FixUp>
    decreases fix_ups.len(),
{
    if fix_ups.len() == 0 {
        Seq::empty()
    } else {
        let before = of_phase(fix_ups.drop_last(), phase);
        if fix_ups.last().phase == phase {
            before.push(fix_ups.last())
        } else {
            before
        }
    }
}

/// The fix-ups phase by phase, those of one phase in order.
pub open spec fn by_phase(fix_ups: Seq<FixUp>) -> Seq<FixUp> {
    of_phase(fix_ups, FixUpPhase::ManifestFileClean) + of_phase(
        fix_ups,
        FixUpPhase::ManifestAppends,
    ) + of_phase(fix_ups, FixUpPhase::SegmentFileClean)
}

/// The fix-ups to run for a list of issues.
pub open spec fn plan(issues: Seq<FileIssue>, approved: bool) -> Result<
    Seq<FixUp>,
    RecoveryError,
> {
    match remedies(issues, approved) {
        Err(e) => Err(e),
        Ok(fix_ups) => Ok(by_phase(fix_ups)),
    }
}

proof fn lemma_remedies_prefix(issues: Seq<FileIssue>, approved: bool, n: int)
    requires
        0 <= n <= issues.len(),
        remedies(issues.take(n), approved) is Err,
    ensures
        remedies(issues, approved) == remedies(issues.take(n), approved),
    decreases issues.len() - n,
{
    if n < issues.len() {
        assert(issues.take(n + 1).drop_last() =~= issues.take(n));
        lemma_remedies_prefix(issues, approved, n + 1);
    } else {
        assert(issues.take(n) =~= issues);
    }
}

fn push_phase(fix_ups: &Vec<FixUp>, phase: FixUpPhase, out: &mut Vec<FixUp>)
    ensures
        final(out)@ == old(out)@ + of_phase(fix_ups@, phase),
{
    let ghost before = out@;
    let mut i: usize = 0;
    assert(fix_ups@.take(0) =~= Seq::<FixUp>::empty());
    assert(before + of_phase(fix_ups@.take(0), phase) =~= before);
    while i < fix_ups.len()
        invariant
            i <= fix_ups@.len(),
            out@ == before + of_phase(fix_ups@.take(i as int), phase),
        decreases fix_ups@.len() - i,
    {
        assert(fix_ups@.take(i + 1).drop_last() =~= fix_ups@.take(i as int));
        if fix_ups[i].phase == phase {
            out.push(fix_ups[i]);
        }
        i = i + 1;
        assert(out@ =~= before + of_phase(fix_ups@.take(i as int), phase));
    }
    assert(fix_ups@.take(i as int) =~= fix_ups@);
}

/// Decide what to do about the issues of a scan: the fix-ups to run, in order.
pub fn attempt_recovery(issues: &IssueReport, approved: bool) -> (r: Result<
    Vec<FixUp>,
    RecoveryError,
>)
    ensures
        match plan(issues@, approved) {
            Ok(fix_ups) => r matches Ok(v) && v@ == fix_ups,
            Err(e) => r == Err::<Vec<FixUp>, _>(e),
        },
{
    let all = issues.issues();
    let mut fix_ups: Vec<FixUp> = Vec::new();
    let mut i: usize = 0;
    assert(all@.take(0) =~= Seq::<FileIssue>::empty());
    while i < all.len()
        invariant
            i <= all@.len(),
            all@ == issues@,
            remedies(all@.take(i as int), approved) == Ok::<_, RecoveryError>(fix_ups@),
        decreases all@.len() - i,
    {
        proof {
            assert(all@.take(i + 1).drop_last() =~= all@.take(i as int));
            if remedies(all@.take(i + 1), approved) is Err {
                lemma_remedies_prefix(all@, approved, i + 1);
            }
        }
        match create_fix_up(&all[i]) {
            None => return Err(RecoveryError::NotPossible),
            Some(fix_up) => {
                if fix_up.approval_required && !approved {
                    return Err(RecoveryError::ApprovalRequired);
                }
                fix_ups.push(fix_up);
            },
        }
        i = i + 1;
    }
    assert(all@.take(i as int) =~= all@);
    let mut sorted: Vec<FixUp> = Vec::new();
    push_phase(&fix_ups, FixUpPhase::ManifestFileClean, &mut sorted);
    push_phase(&fix_ups, FixUpPhase::ManifestAppends, &mut sorted);
    push_phase(&fix_ups, FixUpPhase::SegmentFileClean, &mut sorted);
    assert(sorted@ =~= by_phase(fix_ups@));
    Ok(sorted)
}

// ── Actions ───────────────────────────────────────────────────────────────────

/// The work of appending a bare record to a manifest of `manifest_len` bytes.
pub open spec fn append_actions(op: state::OpView, manifest_len: u64) -> Seq<action::ActionView> {
    seq![
        action::ActionView::WriteManifest {
            offset: manifest_len,
            bytes: frame::encode_frame(0, codec::encode_op(crate::state_laws::bare(op))),
        },
        action::ActionView::SyncManifest,
    ]
}

/// The work of a fix-up on a store whose manifest has `manifest_len` bytes.
pub open spec fn fix_up_actions(action: FixUpAction, manifest_len: u64) -> Seq<action::ActionView> {
    match action {
        FixUpAction::TruncateManifest(len) => seq![action::ActionView::TruncateManifest { len }],
        FixUpAction::TruncateSegment(id, len) => seq![action::ActionView::TruncateSegment { id, len }],
        FixUpAction::CreateActiveSegment(id) => seq![action::ActionView::CreateSegment(id)],
        FixUpAction::DeadSegmentMissing(id) => append_actions(
            state::OpView::SegmentDeleted { id },
            manifest_len,
        ),
        FixUpAction::OrphanFound(id) => append_actions(
            state::OpView::RecordOrphan { id },
            manifest_len,
        ),
    }
}

/// Actions as plain values.
pub open spec fn actions_view(actions: Seq<Action>) -> Seq<action::ActionView> {
    Seq::new(actions.len(), |i: int| actions[i]@)
}

/// Append `op` to a manifest of `manifest_len` bytes.
fn append_manifest_op(op: Op, manifest_len: u64) -> (r: Vec<Action>)
    requires
        crate::codec::encodable(crate::state_laws::bare(op@)),
    ensures
        actions_view(r@) == append_actions(op@, manifest_len),
{
    let mut cursor = FrameCursor::new(manifest_len);
    manifest::write_op(&mut cursor, &ManifestOp::bare(op));
    let bytes = vstd::slice::slice_to_vec(cursor.pending());
    let mut actions: Vec<Action> = Vec::new();
    actions.push(Action::WriteManifest { offset: cursor.position(), bytes });
    actions.push(Action::SyncManifest);
    assert(bytes@ =~= frame::encode_frame(0, codec::encode_op(crate::state_laws::bare(op@))));
    assert(actions_view(actions@) =~= append_actions(op@, manifest_len));
    actions
}

impl FixUpAction {
    /// The work of this fix-up, on a store whose manifest has `manifest_len`
    /// bytes at the time.
    pub fn apply(&self, manifest_len: u64) -> (r: Vec<Action>)
        ensures
            actions_view(r@) == fix_up_actions(*self, manifest_len),
    {
        let mut actions: Vec<Action> = Vec::new();
        match *self {
            FixUpAction::TruncateManifest(len) => {
                actions.push(Action::TruncateManifest { len });
            },
            FixUpAction::TruncateSegment(id, len) => {
                actions.push(Action::TruncateSegment { id, len });
            },
            FixUpAction::CreateActiveSegment(id) => {
                actions.push(Action::CreateSegment(id));
            },
            FixUpAction::DeadSegmentMissing(id) => {
                return append_manifest_op(Op::SegmentDeleted { id }, manifest_len);
            },
            FixUpAction::OrphanFound(id) => {
                return append_manifest_op(Op::RecordOrphan { id }, manifest_len);
            },
        }
        assert(actions_view(actions@) =~= fix_up_actions(*self, manifest_len));
        actions
    }
}

} // verus!
