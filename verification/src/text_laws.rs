//! What issues and errors read like.

use vstd::prelude::*;

use crate::frame::{self, ScanError};
use crate::issue::{self, FileIssue, FileRef, Issue};
use crate::recovery::{self, RecoveryError};
use crate::text;
use crate::{files, IoFault};

verus! {

/// Law: an issue in words says what is wrong, and where it has an offset or sizes,
/// gives them in decimal.
pub proof fn law_issue_in_words(i: Issue)
    ensures
        ({
            let t = issue::issue_text(i);
            let n = |x: u64| text::decimal(x as nat);
            match i {
                Issue::DirectoryNotFound => t == "directory not found"@,
                Issue::DirectoryNotReadable => t == "directory not readable"@,
                Issue::ManifestNotFound => t == "manifest not found"@,
                Issue::ManifestNotReadable => t == "manifest not readable"@,
                Issue::ManifestChecksumCorrupt { offset } => t
                    == "manifest checksum corrupt at offset "@ + n(offset),
                Issue::ManifestEmpty => t == "manifest is empty (no segments recorded)"@,
                Issue::SealedSegmentMissing => t == "sealed segment file missing"@,
                Issue::SealedSegmentSizeMismatch { expected, actual } => t
                    == "sealed segment size mismatch: expected "@ + n(expected) + ", actual "@ + n(
                    actual,
                ),
                Issue::ActiveSegmentMissing => t == "active segment file missing"@,
                Issue::SealedSegmentChecksumCorrupt { corrupt_at } => t
                    == "sealed segment checksum corrupt at offset "@ + n(corrupt_at),
                Issue::DeadSegmentNotFound => t == "dead segment file not found on disk"@,
                Issue::OrphanSegmentFound => t
                    == "orphan segment found on disk with no manifest record"@,
                Issue::ManifestTornTail { truncate_to } => t
                    == "manifest has torn tail; truncatable to "@ + n(truncate_to),
                Issue::ActiveSegmentTornTail { truncate_to } => t
                    == "active segment has torn tail; truncatable to "@ + n(truncate_to),
            }
        }),
{
}

/// Law: an issue is followed by the name of its file in brackets.
pub proof fn law_issue_names_its_file(i: FileIssue)
    ensures
        issue::file_issue_text(i) == issue::issue_text(i.issue) + " ["@ + (match i.file {
            FileRef::Directory => "directory"@,
            FileRef::Manifest => "manifest"@,
            FileRef::Segment(id) => files::segment_name(id),
        }) + "]"@,
{
}

/// Law: a report counts its issues and gives each a line of its own, in order.
pub proof fn law_report_has_a_line_per_issue(issues: Seq<FileIssue>, i: FileIssue)
    ensures
        issue::report_text(Seq::empty()) == text::decimal(0) + " issue(s):"@,
        exists|lines: Seq<char>|
            issue::report_text(issues) == text::decimal(issues.len()) + " issue(s):"@ + lines
                && issue::report_text(issues.push(i)) == #[trigger] (text::decimal(issues.len() + 1)
                + " issue(s):"@ + (lines + "\n  "@ + issue::file_issue_text(i))),
{
    let all = issues.push(i);
    assert(all.drop_last() =~= issues);
    let lines = issue::issue_lines(issues);
    assert(issue::report_text(all) == text::decimal(issues.len() + 1) + " issue(s):"@ + (lines
        + "\n  "@ + issue::file_issue_text(i)));
    let none = Seq::<FileIssue>::empty();
    assert(issue::report_text(none) =~= text::decimal(0) + " issue(s):"@);
}

/// Law: errors in words.
pub proof fn law_errors_in_words(scan: ScanError, recovery: RecoveryError, fault: IoFault)
    ensures
        match scan {
            ScanError::ChecksumMismatch { offset } => frame::scan_error_text(scan)
                == "checksum mismatch at offset "@ + text::decimal(offset as nat),
            ScanError::Truncated { offset } => frame::scan_error_text(scan)
                == "truncated frame at offset "@ + text::decimal(offset as nat),
        },
        match recovery {
            RecoveryError::NotPossible => recovery::recovery_text(recovery)
                == "recovery not possible"@,
            RecoveryError::ApprovalRequired => recovery::recovery_text(recovery)
                == "recovery requires approval"@,
            RecoveryError::RemainingIssues(report) => recovery::recovery_text(recovery)
                == "issues remain after recovery: "@ + issue::report_text(report@),
            RecoveryError::IoError(f) => recovery::recovery_text(recovery)
                == recovery::fault_text(f),
        },
        recovery::fault_text(fault) == (match fault {
            IoFault::NotFound => "not found"@,
            IoFault::AlreadyExists => "already exists"@,
            IoFault::InvalidData => "invalid data"@,
            IoFault::UnexpectedEof => "unexpected end of file"@,
            IoFault::Other => "other error"@,
        }),
{
}

} // verus!
