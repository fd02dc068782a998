//! What can be wrong with a store.

use vstd::prelude::*;
use vstd::string::StringExecFns;

use crate::text::{push_decimal, push_hex};
use crate::SegmentId;

verus! {

/// The file an issue is about.
#[derive(Debug, Clone, Copy, PartialEq, Eq, Structural)]
pub enum FileRef {
    Directory,
    Manifest,
    Segment(SegmentId),
}

/// What is wrong. Fatal issues have no remedy; of the others some are repaired
/// only with approval, and some automatically.
#[derive(Debug, Clone, Copy, PartialEq, Eq, Structural)]
pub enum Issue {
    // ── Fatal ─────────────────────────────────────────────────────────────
    DirectoryNotFound,
    DirectoryNotReadable,
    ManifestNotFound,
    ManifestNotReadable,
    ManifestChecksumCorrupt { offset: u64 },
    ManifestEmpty,
    SealedSegmentMissing,
    SealedSegmentSizeMismatch { expected: u64, actual: u64 },
    SealedSegmentChecksumCorrupt { corrupt_at: u64 },
    // ── Approval ──────────────────────────────────────────────────────────
    ActiveSegmentMissing,
    // ── Auto ──────────────────────────────────────────────────────────────
    DeadSegmentNotFound,
    OrphanSegmentFound,
    ManifestTornTail { truncate_to: u64 },
    ActiveSegmentTornTail { truncate_to: u64 },
}

/// What is wrong, and where.
#[derive(Debug, Clone, Copy, PartialEq, Eq, Structural)]
pub struct FileIssue {
    pub file: FileRef,
    pub issue: Issue,
}

// ── Messages ──────────────────────────────────────────────────────────────────

pub open spec fn file_text(file: FileRef) -> Seq<char> {
    match file {
        FileRef::Directory => "directory"@,
        FileRef::Manifest => "manifest"@,
        FileRef::Segment(id) => crate::text::hex(id.0 as nat, 8) + ".seg"@,
    }
}

pub open spec fn issue_text(issue: Issue) -> Seq<char> {
    match issue {
        Issue::DirectoryNotFound => "directory not found"@,
        Issue::DirectoryNotReadable => "directory not readable"@,
        Issue::ManifestNotFound => "manifest not found"@,
        Issue::ManifestNotReadable => "manifest not readable"@,
        Issue::ManifestChecksumCorrupt { offset } => "manifest checksum corrupt at offset "@
            + crate::text::decimal(offset as nat),
        Issue::ManifestEmpty => "manifest is empty (no segments recorded)"@,
        Issue::SealedSegmentMissing => "sealed segment file missing"@,
        Issue::SealedSegmentSizeMismatch { expected, actual } =>
            "sealed segment size mismatch: expected "@ + crate::text::decimal(expected as nat)
            + ", actual "@ + crate::text::decimal(actual as nat),
        Issue::ActiveSegmentMissing => "active segment file missing"@,
        Issue::SealedSegmentChecksumCorrupt { corrupt_at } =>
            "sealed segment checksum corrupt at offset "@ + crate::text::decimal(
            corrupt_at as nat,
        ),
        Issue::DeadSegmentNotFound => "dead segment file not found on disk"@,
        Issue::OrphanSegmentFound => "orphan segment found on disk with no manifest record"@,
        Issue::ManifestTornTail { truncate_to } => "manifest has torn tail; truncatable to "@
            + crate::text::decimal(truncate_to as nat),
        Issue::ActiveSegmentTornTail { truncate_to } =>
            "active segment has torn tail; truncatable to "@ + crate::text::decimal(
            truncate_to as nat,
        ),
    }
}

pub open spec fn file_issue_text(i: FileIssue) -> Seq<char> {
    issue_text(i.issue) + " ["@ + file_text(i.file) + "]"@
}

/// One line per issue.
pub open spec fn issue_lines(issues: Seq<FileIssue>) -> Seq<char>
    decreases issues.len(),
{
    if issues.len() == 0 {
        Seq::empty()
    } else {
        issue_lines(issues.drop_last()) + "\n  "@ + file_issue_text(issues.last())
    }
}

pub open spec fn report_text(issues: Seq<FileIssue>) -> Seq<char> {
    crate::text::decimal(issues.len()) + " issue(s):"@ + issue_lines(issues)
}

impl FileRef {
    /// The name of the file, for a human reader.
    pub fn to_string(&self) -> (s: String)
        ensures
            s@ == file_text(*self),
    {
        match *self {
            FileRef::Directory => "directory".to_owned(),
            FileRef::Manifest => "manifest".to_owned(),
            FileRef::Segment(id) => {
                let mut s = String::new();
                push_hex(&mut s, id.0, 8);
                s.append(".seg");
                assert(s@ =~= file_text(*self));
                s
            },
        }
    }
}

/// `head`, then `tail`.
pub fn joined(head: &str, tail: &str) -> (s: String)
    ensures
        s@ == head@ + tail@,
{
    let mut s = head.to_owned();
    s.append(tail);
    s
}

/// `head`, then `n` in decimal.
pub fn with_number(head: &str, n: u64) -> (s: String)
    ensures
        s@ == head@ + crate::text::decimal(n as nat),
{
    let mut s = head.to_owned();
    push_decimal(&mut s, n);
    s
}

impl Issue {
    /// The issue in words.
    pub fn to_string(&self) -> (s: String)
        ensures
            s@ == issue_text(*self),
    {
        match *self {
            Issue::DirectoryNotFound => "directory not found".to_owned(),
            Issue::DirectoryNotReadable => "directory not readable".to_owned(),
            Issue::ManifestNotFound => "manifest not found".to_owned(),
            Issue::ManifestNotReadable => "manifest not readable".to_owned(),
            Issue::ManifestChecksumCorrupt { offset } => with_number(
                "manifest checksum corrupt at offset ",
                offset,
            ),
            Issue::ManifestEmpty => "manifest is empty (no segments recorded)".to_owned(),
            Issue::SealedSegmentMissing => "sealed segment file missing".to_owned(),
            Issue::SealedSegmentSizeMismatch { expected, actual } => {
                let mut s = with_number("sealed segment size mismatch: expected ", expected);
                s.append(", actual ");
                push_decimal(&mut s, actual);
                s
            },
            Issue::ActiveSegmentMissing => "active segment file missing".to_owned(),
            Issue::SealedSegmentChecksumCorrupt { corrupt_at } => with_number(
                "sealed segment checksum corrupt at offset ",
                corrupt_at,
            ),
            Issue::DeadSegmentNotFound => "dead segment file not found on disk".to_owned(),
            Issue::OrphanSegmentFound =>
            "orphan segment found on disk with no manifest record".to_owned(),
            Issue::ManifestTornTail { truncate_to } => with_number(
                "manifest has torn tail; truncatable to ",
                truncate_to,
            ),
            Issue::ActiveSegmentTornTail { truncate_to } => with_number(
                "active segment has torn tail; truncatable to ",
                truncate_to,
            ),
        }
    }
}

impl FileIssue {
    /// The issue and the file in words.
    pub fn to_string(&self) -> (s: String)
        ensures
            s@ == file_issue_text(*self),
    {
        let mut s = self.issue.to_string();
        s.append(" [");
        let file = self.file.to_string();
        s.append(file.as_str());
        s.append("]");
        s
    }
}

// ── IssueReport ───────────────────────────────────────────────────────────────

/// A diagnostic snapshot of issues found during a store scan, in the order in
/// which they were found.
#[derive(Debug)]
pub struct IssueReport {
    issues: Vec<FileIssue>,
}

impl View for IssueReport {
    type V = Seq<FileIssue>;

    closed spec fn view(&self) -> Seq<FileIssue> {
        self.issues@
    }
}

impl IssueReport {
    pub fn new() -> (r: Self)
        ensures
            r@ == Seq::<FileIssue>::empty(),
    {
        Self { issues: Vec::new() }
    }

    pub fn push(&mut self, file: FileRef, issue: Issue)
        ensures
            final(self)@ == old(self)@.push(FileIssue { file, issue }),
    {
        self.issues.push(FileIssue { file, issue });
    }

    /// The issues, in order.
    pub fn issues(&self) -> (r: &[FileIssue])
        ensures
            r@ == self@,
    {
        self.issues.as_slice()
    }

    /// An iterator over the issues, in order.
    pub fn iter(&self) -> (it: std::slice::Iter<'_, FileIssue>)
        ensures
            vstd::std_specs::iter::IteratorSpec::remaining(&it).unref() == self@,
    {
        self.issues.as_slice().iter()
    }

    pub fn is_empty(&self) -> (b: bool)
        ensures
            b == (self@.len() == 0),
    {
        self.issues.len() == 0
    }

    /// A human-readable list.
    pub fn to_string(&self) -> (s: String)
        ensures
            s@ == report_text(self@),
    {
        let mut s = String::new();
        push_decimal(&mut s, self.issues.len() as u64);
        s.append(" issue(s):");
        let ghost head = crate::text::decimal(self@.len()) + " issue(s):"@;
        let mut i: usize = 0;
        assert(self@.take(0) =~= Seq::<FileIssue>::empty());
        assert(s@ =~= head + issue_lines(self@.take(0)));
        while i < self.issues.len()
            invariant
                i <= self@.len(),
                self@ == self.issues@,
                s@ == head + issue_lines(self@.take(i as int)),
            decreases self@.len() - i,
        {
            let line = self.issues[i].to_string();
            s.append("\n  ");
            s.append(line.as_str());
            assert(self@.take(i + 1).drop_last() =~= self@.take(i as int));
            i = i + 1;
            assert(s@ =~= head + issue_lines(self@.take(i as int)));
        }
        assert(self@.take(i as int) =~= self@);
        s
    }
}

} // verus!
