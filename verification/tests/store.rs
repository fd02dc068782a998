use std::collections::BTreeMap;

use woodshed::action::{Action, Event};
use woodshed::files;
use woodshed::frame::{FrameCursor, ScanError};
use woodshed::issue::{FileIssue, FileRef, Issue, IssueReport};
use woodshed::manifest::{replay, write_op, ReplayError};
use woodshed::open::OpenStep;
use woodshed::recovery::{attempt_recovery, FixUp, RecoveryError};
use woodshed::scan::{scan, scan_segment, Directory, ScanReport, SegmentFile, SegmentReport};
use woodshed::state::{ManifestOp, Op};
use woodshed::store::{Commit, OpenError, Outcome, Progress, Store, StoreError};
use woodshed::{EntryId, IoFault, SegmentId, StoreCfg};

// ── a store directory in memory ───────────────────────────────────────────────

struct Mem {
    manifest: Option<Vec<u8>>,
    segments: BTreeMap<u32, Vec<u8>>,
}

fn write_at(file: &mut Vec<u8>, offset: usize, bytes: &[u8]) {
    if file.len() < offset + bytes.len() {
        file.resize(offset + bytes.len(), 0);
    }
    file[offset..offset + bytes.len()].copy_from_slice(bytes);
}

impl Mem {
    fn new() -> Mem {
        Mem { manifest: None, segments: BTreeMap::new() }
    }

    fn names(&self) -> Vec<String> {
        let mut names: Vec<String> =
            self.segments.keys().rev().map(|id| files::segment_file_name(SegmentId(*id))).collect();
        if self.manifest.is_some() {
            names.push(files::MANIFEST_FILE_NAME.to_string());
        }
        names
    }

    fn directory(&self) -> Directory {
        Directory {
            exists: true,
            manifest: self.manifest.clone().ok_or(IoFault::NotFound),
            ids: Ok(files::collect_segment_ids(&self.names())),
            segments: self
                .segments
                .iter()
                .map(|(id, data)| SegmentFile {
                    id: SegmentId(*id),
                    size: Ok(data.len() as u64),
                    contents: Ok(data.clone()),
                })
                .collect(),
        }
    }

    fn scan(&self) -> ScanReport {
        scan(&self.directory())
    }

    fn read(&self, id: SegmentId) -> Result<Vec<u8>, IoFault> {
        self.segments.get(&id.0).cloned().ok_or(IoFault::NotFound)
    }

    fn perform(&mut self, action: Action) -> Event {
        match action {
            Action::CreateManifest => {
                if self.manifest.is_some() {
                    return Event::Failed(IoFault::AlreadyExists);
                }
                self.manifest = Some(files::MANIFEST_MAGIC.to_vec());
            }
            Action::CreateSegment(id) => {
                if self.segments.contains_key(&id.0) {
                    return Event::Failed(IoFault::AlreadyExists);
                }
                self.segments.insert(id.0, files::SEGMENT_MAGIC.to_vec());
            }
            Action::ReadSegment(id) => {
                return match self.read(id) {
                    Ok(data) => Event::Contents(data),
                    Err(e) => Event::Failed(e),
                };
            }
            Action::WriteManifest { offset, bytes } => {
                write_at(self.manifest.as_mut().unwrap(), offset as usize, &bytes);
            }
            Action::SyncManifest => {}
            Action::TruncateManifest { len } => self.manifest.as_mut().unwrap().truncate(len as usize),
            Action::WriteSegment { id, offset, bytes } => match self.segments.get_mut(&id.0) {
                Some(file) => write_at(file, offset as usize, &bytes),
                None => return Event::Failed(IoFault::NotFound),
            },
            Action::SyncSegment(_) => {}
            Action::TruncateSegment { id, len } => {
                self.segments.get_mut(&id.0).unwrap().truncate(len as usize);
            }
            Action::DeleteSegment(id) => {
                let removed = match self.segments.remove(&id.0) {
                    Some(_) => Ok(()),
                    None => Err(IoFault::NotFound),
                };
                if let Err(e) = files::delete_segment(removed) {
                    return Event::Failed(e);
                }
            }
        }
        Event::Done
    }

    fn drive(&mut self, store: &mut Store, mut progress: Progress) -> Result<Outcome, StoreError> {
        loop {
            match progress {
                Progress::Finished(outcome) => return Ok(outcome),
                Progress::Failed(e) => return Err(e),
                Progress::Next(task, action) => {
                    assert!(store.is_consistent() && store.is_within_limits());
                    let event = self.perform(action);
                    progress = store.resume(task, event);
                }
            }
        }
    }

    fn apply(&mut self, fix_ups: Vec<FixUp>) -> Result<(), RecoveryError> {
        for fix_up in fix_ups {
            let len = self.manifest.as_ref().map_or(0, |m| m.len() as u64);
            for action in fix_up.action.apply(len) {
                if let Event::Failed(e) = self.perform(action) {
                    return Err(RecoveryError::IoError(e));
                }
            }
        }
        Ok(())
    }

    fn recover(&mut self, approved: bool) -> Result<(), RecoveryError> {
        let fix_ups = attempt_recovery(&self.scan().issues, approved)?;
        self.apply(fix_ups)
    }

    fn is_clean(&self) -> bool {
        self.scan().issues.is_empty()
    }

    fn open(&mut self, cfg: StoreCfg) -> Result<Store, OpenError> {
        match Store::open(cfg, self.scan()) {
            OpenStep::Ready(store) => Ok(store),
            OpenStep::Failed(e) => Err(e),
            OpenStep::Repair(cfg, fix_ups) => {
                self.apply(fix_ups).map_err(OpenError::RecoveryFailed)?;
                Store::open_repaired(cfg, self.scan())
            }
        }
    }

    fn open_or_create(&mut self, cfg: StoreCfg) -> Result<Store, OpenError> {
        for action in Store::open_or_create(self.manifest.is_some()) {
            assert_eq!(self.perform(action), Event::Done);
        }
        self.open(cfg)
    }

    fn write(&mut self, store: &mut Store, entries: &[(u64, &[u8])]) -> Commit {
        let mut w = store.writer();
        for (id, payload) in entries {
            w.push(*id, payload);
        }
        let progress = w.write();
        match self.drive(store, progress) {
            Ok(Outcome::Written(commit)) => commit,
            other => panic!("{other:?}"),
        }
    }

    fn write_metadata(&mut self, store: &mut Store, pairs: Vec<(u8, Vec<u8>)>) {
        let progress = store.write_metadata(pairs);
        assert_eq!(self.drive(store, progress), Ok(Outcome::Done));
    }

    fn truncate_start(&mut self, store: &mut Store, first: u64) -> Result<Outcome, StoreError> {
        let progress = store.truncate_start(first, vec![]);
        self.drive(store, progress)
    }

    fn truncate_end(&mut self, store: &mut Store, last: u64) -> Result<Outcome, StoreError> {
        let progress = store.truncate_end(last);
        self.drive(store, progress)
    }

    fn delete_dead_segments(&mut self, store: &mut Store) -> usize {
        let progress = store.delete_dead_segments();
        match self.drive(store, progress) {
            Ok(Outcome::Deleted(n)) => n,
            other => panic!("{other:?}"),
        }
    }

    fn collect(&self, store: &Store, from: u64) -> Vec<(u64, Vec<u8>)> {
        let mut out = Vec::new();
        let mut r = store.scan(from);
        loop {
            while let Some(id) = r.needs() {
                r.supply(self.read(id)).unwrap();
            }
            match r.next() {
                None => return out,
                Some(item) => {
                    let (id, mut reader) = item.unwrap();
                    let mut buf = Vec::new();
                    reader.read_to_end(&mut buf).unwrap();
                    out.push((id, buf));
                }
            }
        }
    }

    fn append_op(&mut self, op: Op) {
        let len = self.manifest.as_ref().unwrap().len() as u64;
        let mut cursor = FrameCursor::new(len);
        write_op(&mut cursor, &ManifestOp::bare(op));
        self.flush_manifest(&mut cursor);
    }

    fn flush_manifest(&mut self, cursor: &mut FrameCursor) {
        write_at(self.manifest.as_mut().unwrap(), cursor.position() as usize, cursor.pending());
        cursor.flush();
    }

    fn write_frames(&mut self, id: SegmentId, base_entry: EntryId, count: usize) {
        let file = self.segments.get_mut(&id.0).unwrap();
        let mut cursor = FrameCursor::new(files::MAGIC_LEN as u64);
        for i in 0..count {
            cursor.write(EntryId(base_entry.0 + i as u64), format!("entry-{i}").as_bytes());
        }
        write_at(file, cursor.position() as usize, cursor.pending());
        cursor.flush();
    }
}

fn cfg() -> StoreCfg {
    StoreCfg { base_dir: "mem".to_string(), segment_rollover_trigger_bytes: 64 * 1024 * 1024 }
}

fn rolling() -> StoreCfg {
    StoreCfg { base_dir: "mem".to_string(), segment_rollover_trigger_bytes: 0 }
}

fn seg(n: u32) -> SegmentId {
    SegmentId(n)
}

fn entry(n: u64) -> EntryId {
    EntryId(n)
}

fn create_manifest(mem: &mut Mem) -> u64 {
    assert_eq!(mem.perform(Action::CreateManifest), Event::Done);
    files::MAGIC_LEN as u64
}

fn create_segment(mem: &mut Mem, id: SegmentId) {
    assert_eq!(mem.perform(Action::CreateSegment(id)), Event::Done);
}

/// A manifest with a first segment, and its file.
fn format() -> Mem {
    let mut mem = Mem::new();
    create_manifest(&mut mem);
    mem.append_op(Op::CreateSegment { id: seg(1), first_entry: entry(0) });
    create_segment(&mut mem, seg(1));
    mem
}

fn roll(final_size: u64) -> Op {
    Op::RollSegment {
        sealed_id: seg(1),
        first_entry: entry(0),
        last_entry: entry(99),
        entry_count: 100,
        final_size,
        new_id: seg(2),
        new_first_entry: entry(100),
    }
}

fn has_issue<F: Fn(&FileIssue) -> bool>(report: &ScanReport, pred: F) -> bool {
    report.issues.iter().any(|fi| pred(fi))
}

// ── files ─────────────────────────────────────────────────────────────────────

#[test]
fn manifest_create_and_open() {
    let mut mem = Mem::new();
    assert!(mem.manifest.is_none());
    create_manifest(&mut mem);
    assert!(mem.manifest.is_some());
    assert_eq!(files::open_manifest(Ok(mem.manifest.clone().unwrap())).unwrap().1, 8);
}

#[test]
fn manifest_create_fails_if_exists() {
    let mut mem = Mem::new();
    create_manifest(&mut mem);
    assert!(matches!(mem.perform(Action::CreateManifest), Event::Failed(_)));
}

#[test]
fn manifest_bad_magic() {
    assert!(files::open_manifest(Ok(b"garbage!".to_vec())).is_err());
}

#[test]
fn segment_create_and_open() {
    let mut mem = Mem::new();
    create_segment(&mut mem, seg(1));
    files::open_segment(mem.read(seg(1))).unwrap();
}

#[test]
fn segment_create_fails_if_exists() {
    let mut mem = Mem::new();
    create_segment(&mut mem, seg(1));
    assert!(matches!(mem.perform(Action::CreateSegment(seg(1))), Event::Failed(_)));
}

#[test]
fn segment_bad_magic() {
    assert!(files::open_segment(Ok(b"garbage!".to_vec())).is_err());
}

#[test]
fn delete_segment_idempotent() {
    let mut mem = Mem::new();
    create_segment(&mut mem, seg(5));
    assert_eq!(mem.perform(Action::DeleteSegment(seg(5))), Event::Done);
    assert_eq!(mem.perform(Action::DeleteSegment(seg(5))), Event::Done); // not found is ok
}

#[test]
fn collect_segment_ids_sorted() {
    let names: Vec<String> =
        [3, 1, 2].iter().map(|n| files::segment_file_name(SegmentId(*n))).collect();
    assert_eq!(
        files::collect_segment_ids(&names),
        vec![SegmentId(1), SegmentId(2), SegmentId(3)]
    );
}

#[test]
fn collect_segment_ids_ignores_other_files() {
    let mut mem = Mem::new();
    create_manifest(&mut mem);
    create_segment(&mut mem, SegmentId(1));
    assert_eq!(files::collect_segment_ids(&mem.names()), vec![SegmentId(1)]);
}

#[test]
fn segment_names_are_eight_hex_digits() {
    assert_eq!(files::segment_file_name(seg(1)), "00000001.seg");
    assert_eq!(files::segment_file_name(seg(0xdeadbeef)), "deadbeef.seg");
    for n in [0, 1, 15, 16, 255, 4096, u32::MAX] {
        let name = files::segment_file_name(seg(n));
        assert_eq!(files::parse_segment_name(&name), Some(seg(n)));
    }
}

#[test]
fn segment_names_are_parsed_as_hex_numbers() {
    let parse = files::parse_segment_name;
    assert_eq!(parse("1.seg"), Some(seg(1)));
    assert_eq!(parse("FF.seg"), Some(seg(255)));
    assert_eq!(parse("+a.seg"), Some(seg(10)));
    assert_eq!(parse("000000000001.seg"), Some(seg(1)));
    assert_eq!(parse("100000000.seg"), None);
    assert_eq!(parse(".seg"), None);
    assert_eq!(parse("+.seg"), None);
    assert_eq!(parse("-1.seg"), None);
    assert_eq!(parse("1.2.seg"), None);
    assert_eq!(parse("00000001.SEG"), None);
    assert_eq!(parse("00000001"), None);
    assert_eq!(parse("MANIFEST"), None);
    assert_eq!(parse("0000000g.seg"), None);
    assert_eq!(parse("é.seg"), None);
}

#[test]
fn magic_is_checked() {
    assert_eq!(&files::SEGMENT_MAGIC, b"\xffWDSEGM\x01");
    assert_eq!(&files::MANIFEST_MAGIC, b"\xffWDMNFT\x01");
    assert_eq!(files::check_magic(b"\xffWDSEGM\x01rest", &files::SEGMENT_MAGIC), Ok(()));
    assert_eq!(files::check_magic(b"\xffWDSEGM", &files::SEGMENT_MAGIC), Err(IoFault::InvalidData));
    assert_eq!(files::open_segment(Err(IoFault::Other)), Err(IoFault::Other));
    assert_eq!(files::delete_segment(Err(IoFault::Other)), Err(IoFault::Other));
}

// ── manifest ──────────────────────────────────────────────────────────────────

#[test]
fn empty_manifest_replays_to_empty_state() {
    let mut mem = Mem::new();
    let offset = create_manifest(&mut mem);
    let result = replay(mem.manifest.unwrap(), offset).ok().unwrap();
    assert!(result.state.is_empty());
    assert_eq!(result.next_offset, offset);
}

#[test]
fn write_and_replay_single_op() {
    let mut mem = Mem::new();
    let offset = create_manifest(&mut mem);
    let mut cursor = FrameCursor::new(offset);
    write_op(&mut cursor, &ManifestOp::bare(Op::CreateSegment { id: seg(1), first_entry: entry(0) }));
    mem.flush_manifest(&mut cursor);

    let result = replay(mem.manifest.unwrap(), offset).ok().unwrap();
    assert_eq!(result.state.segments().len(), 1);
    assert_eq!(result.state.active_segment_id(), Some(seg(1)));
}

#[test]
fn write_and_replay_multiple_ops() {
    let mut mem = Mem::new();
    let offset = create_manifest(&mut mem);
    let mut cursor = FrameCursor::new(offset);
    write_op(&mut cursor, &ManifestOp::bare(Op::CreateSegment { id: seg(1), first_entry: entry(0) }));
    mem.flush_manifest(&mut cursor);
    write_op(&mut cursor, &ManifestOp::bare(roll(4096)));
    mem.flush_manifest(&mut cursor);

    let result = replay(mem.manifest.unwrap(), offset).ok().unwrap();
    assert_eq!(result.state.segments().len(), 2);
    assert_eq!(result.state.active_segment_id(), Some(seg(2)));
    assert_eq!(result.state.seal(seg(1)).unwrap().first_entry, entry(0));
    assert_eq!(result.state.seal(seg(1)).unwrap().last_entry, entry(99));
}

#[test]
fn truncated_tail_frame_replays_partial() {
    let mut mem = Mem::new();
    let offset = create_manifest(&mut mem);
    let mut cursor = FrameCursor::new(offset);
    write_op(&mut cursor, &ManifestOp::bare(Op::CreateSegment { id: seg(1), first_entry: entry(0) }));
    mem.flush_manifest(&mut cursor);

    // Write a partial frame at the tail — simulates a torn write.
    write_at(mem.manifest.as_mut().unwrap(), cursor.position() as usize, &[0x01, 0x00, 0x00]);

    let result = replay(mem.manifest.unwrap(), offset).ok().unwrap();
    // Torn tail is treated as EOF; already-replayed ops are preserved.
    assert_eq!(result.state.segments().len(), 1);
}

#[test]
fn next_offset_advances_past_each_op() {
    let mut mem = Mem::new();
    let offset = create_manifest(&mut mem);
    let mut cursor = FrameCursor::new(offset);
    write_op(&mut cursor, &ManifestOp::bare(Op::CreateSegment { id: seg(1), first_entry: entry(0) }));
    mem.flush_manifest(&mut cursor);

    let result = replay(mem.manifest.unwrap(), offset).ok().unwrap();
    assert_eq!(result.next_offset, cursor.position());
}

#[test]
fn torn_payload_of_a_record_is_the_end() {
    let mut mem = format();
    let whole = mem.manifest.clone().unwrap();
    mem.append_op(Op::RecordOrphan { id: seg(9) });
    let mut torn = mem.manifest.unwrap();
    torn.pop();
    let result = replay(torn, 8).ok().unwrap();
    assert_eq!(result.next_offset, whole.len() as u64);
    assert!(result.state.dead().is_empty());
}

#[test]
fn replay_reports_bad_records() {
    let mut mem = format();
    let end = mem.manifest.as_ref().unwrap().len() as u64;
    let mut cursor = FrameCursor::new(end);
    cursor.write(EntryId(0), b"not a record");
    mem.flush_manifest(&mut cursor);
    assert!(matches!(
        replay(mem.manifest.clone().unwrap(), 8),
        Err(ReplayError::InvalidOp { offset, .. }) if offset == end
    ));

    let mut mem = format();
    mem.append_op(Op::CreateSegment { id: seg(2), first_entry: entry(0) });
    assert!(matches!(
        replay(mem.manifest.clone().unwrap(), 8),
        Err(ReplayError::ApplyFailed { offset, .. }) if offset == end
    ));
    let report = mem.scan();
    assert!(has_issue(&report, |fi| fi.issue == Issue::ManifestChecksumCorrupt { offset: end }));
}

// ── scan_segment ──────────────────────────────────────────────────────────────

fn issues_for_segment(
    mem: &Mem,
    id: SegmentId,
    expected_len: Option<u64>,
) -> (SegmentReport, IssueReport) {
    let mut issues = IssueReport::new();
    let size = mem.read(id).map(|data| data.len() as u64);
    let report = scan_segment(id, expected_len, size, mem.read(id), &mut issues);
    (report, issues)
}

#[test]
fn scan_segment_empty_returns_zero_entries() {
    let mut mem = Mem::new();
    create_segment(&mut mem, seg(1));
    let (r, issues) = issues_for_segment(&mem, seg(1), None);
    assert_eq!(r.num_entries, 0);
    assert!(r.index.is_empty());
    assert!(issues.is_empty());
}

#[test]
fn scan_segment_records_first_checkpoint_and_stride() {
    let mut mem = Mem::new();
    create_segment(&mut mem, seg(1));
    // Write 130 frames starting at external id 10.
    mem.write_frames(seg(1), entry(10), 130);

    let (r, issues) = issues_for_segment(&mem, seg(1), None);
    assert_eq!(r.num_entries, 130);
    // Checkpoints at frame 0 (id=10), 64 (id=74), 128 (id=138).
    assert_eq!(r.index.len(), 3);
    assert_eq!(r.index.checkpoint(0).unwrap().0, entry(10));
    assert_eq!(r.index.checkpoint(1).unwrap().0, entry(74));
    assert_eq!(r.index.checkpoint(2).unwrap().0, entry(138));
    assert!(issues.is_empty());
}

#[test]
fn scan_segment_size_mismatch_pushes_issue() {
    let mut mem = Mem::new();
    create_segment(&mut mem, seg(1));
    let (_, issues) = issues_for_segment(&mem, seg(1), Some(9999));
    assert!(issues.iter().any(|fi| matches!(fi.issue, Issue::SealedSegmentSizeMismatch { .. })));
}

#[test]
fn scan_segment_missing_pushes_issue() {
    let mem = Mem::new();
    let (_, issues) = issues_for_segment(&mem, seg(1), None);
    assert!(issues.iter().any(|fi| matches!(fi.issue, Issue::ActiveSegmentMissing)));
}

#[test]
fn scan_segment_torn_tail_returns_partial_results() {
    let mut mem = Mem::new();
    create_segment(&mut mem, seg(1));
    mem.write_frames(seg(1), entry(0), 3);
    mem.segments.get_mut(&1).unwrap().extend_from_slice(&[0x00, 0x01]);

    let (r, issues) = issues_for_segment(&mem, seg(1), None);
    assert_eq!(r.num_entries, 3);
    assert_eq!(r.index.len(), 1);
    assert!(issues.iter().any(|fi| matches!(fi.issue, Issue::ActiveSegmentTornTail { .. })));
}

#[test]
fn scan_segment_sealed_issues() {
    let mut mem = Mem::new();
    let (_, issues) = issues_for_segment(&mem, seg(1), Some(8));
    assert!(has(&issues, Issue::SealedSegmentMissing));
    create_segment(&mut mem, seg(1));
    mem.segments.get_mut(&1).unwrap().extend_from_slice(&[0x00, 0x01]);
    let (r, issues) = issues_for_segment(&mem, seg(1), Some(10));
    assert!(has(&issues, Issue::SealedSegmentChecksumCorrupt { corrupt_at: 8 }));
    assert_eq!(r.write_offset, 0);
}

fn has(issues: &IssueReport, issue: Issue) -> bool {
    issues.iter().any(|fi| fi.issue == issue)
}

// ── scan ──────────────────────────────────────────────────────────────────────

#[test]
fn missing_directory_reported() {
    let cfg = StoreCfg {
        base_dir: "/tmp/woodshed_nonexistent_dir_abc123".into(),
        segment_rollover_trigger_bytes: 64 * 1024 * 1024,
    };
    let report = scan(&Directory {
        exists: std::path::Path::new(&cfg.base_dir).exists(),
        manifest: Err(IoFault::NotFound),
        ids: Err(IoFault::NotFound),
        segments: vec![],
    });
    assert!(report.issues.iter().any(|fi| matches!(fi.issue, Issue::DirectoryNotFound)));
}

#[test]
fn clean_store_no_issues() {
    let report = format().scan();
    assert!(report.issues.is_empty());
    assert_eq!(report.segments.len(), 1);
}

#[test]
fn missing_active_segment_reported() {
    let mut mem = Mem::new();
    create_manifest(&mut mem);
    mem.append_op(Op::CreateSegment { id: seg(1), first_entry: entry(0) });
    let report = mem.scan();
    assert!(has_issue(&report, |fi| matches!(fi.issue, Issue::ActiveSegmentMissing)));
}

#[test]
fn torn_active_segment_tail_reported() {
    let mut mem = format();
    let mut cursor = FrameCursor::new(files::MAGIC_LEN as u64);
    // MAGIC_LEN(8) + HEADER_LEN(20) + payload(8) = 36
    cursor.write(EntryId(1), b"complete");
    let file = mem.segments.get_mut(&1).unwrap();
    write_at(file, cursor.position() as usize, cursor.pending());
    cursor.flush();
    write_at(file, cursor.position() as usize, &[0x00, 0x01]);

    let report = mem.scan();
    assert!(has_issue(&report, |fi| matches!(
        fi.issue,
        Issue::ActiveSegmentTornTail { truncate_to: 36 }
    )));
}

#[test]
fn manifest_torn_tail_reported() {
    let mut mem = format();
    mem.manifest.as_mut().unwrap().extend_from_slice(&[0x00, 0x01]);

    let report = mem.scan();
    assert!(has_issue(&report, |fi| matches!(fi.issue, Issue::ManifestTornTail { .. })));
}

#[test]
fn sealed_segment_exact_size_no_issue() {
    let mut mem = format();
    let seg_size = mem.read(seg(1)).unwrap().len() as u64;
    mem.append_op(roll(seg_size));
    create_segment(&mut mem, seg(2));

    let report = mem.scan();
    assert!(report.issues.is_empty());
}

#[test]
fn sealed_segment_size_mismatch_reported() {
    let mut mem = format();
    mem.append_op(roll(9999));
    create_segment(&mut mem, seg(2));

    let report = mem.scan();
    assert!(has_issue(&report, |fi| matches!(fi.issue, Issue::SealedSegmentSizeMismatch { .. })));
}

#[test]
fn missing_dead_segment_reported() {
    let mut mem = format();
    mem.append_op(roll(8));
    create_segment(&mut mem, seg(2));
    mem.append_op(Op::TruncateStart { first_entry: entry(100), drop: vec![seg(1)] });
    mem.perform(Action::DeleteSegment(seg(1)));

    let report = mem.scan();
    assert!(has_issue(&report, |fi| matches!(fi.issue, Issue::DeadSegmentNotFound)
        && matches!(fi.file, FileRef::Segment(id) if id == seg(1))));
    assert!(!has_issue(&report, |fi| matches!(fi.issue, Issue::OrphanSegmentFound)));
}

#[test]
fn orphan_below_live_range_found() {
    let mut mem = Mem::new();
    create_manifest(&mut mem);
    mem.append_op(Op::CreateSegment { id: seg(5), first_entry: entry(0) });
    create_segment(&mut mem, seg(5));
    create_segment(&mut mem, seg(2));

    let report = mem.scan();
    assert!(has_issue(&report, |fi| matches!(fi.issue, Issue::OrphanSegmentFound)
        && matches!(fi.file, FileRef::Segment(id) if id == seg(2))));
}

#[test]
fn orphan_above_live_range_found() {
    let mut mem = format();
    create_segment(&mut mem, seg(9));

    let report = mem.scan();
    assert!(has_issue(&report, |fi| matches!(fi.issue, Issue::OrphanSegmentFound)
        && matches!(fi.file, FileRef::Segment(id) if id == seg(9))));
}

#[test]
fn unreadable_files_are_reported() {
    let mut d = format().directory();
    d.manifest = Err(IoFault::Other);
    assert!(has(&scan(&d).issues, Issue::ManifestNotReadable));
    d.manifest = Ok(b"garbage!".to_vec());
    assert!(has(&scan(&d).issues, Issue::ManifestNotReadable));
    d.manifest = Err(IoFault::NotFound);
    assert!(has(&scan(&d).issues, Issue::ManifestNotFound));

    let mut d = format().directory();
    d.ids = Err(IoFault::Other);
    assert!(has(&scan(&d).issues, Issue::DirectoryNotReadable));
    d.ids = Err(IoFault::NotFound);
    assert!(has(&scan(&d).issues, Issue::DirectoryNotFound));

    let mut mem = format();
    let last = mem.manifest.as_ref().unwrap().len() - 1;
    mem.manifest.as_mut().unwrap()[last] ^= 0xff;
    assert!(has(&mem.scan().issues, Issue::ManifestChecksumCorrupt { offset: 8 }));
}

// ── issues in words ───────────────────────────────────────────────────────────

#[test]
fn issues_read_as_text() {
    let mut report = IssueReport::new();
    assert_eq!(report.to_string(), "0 issue(s):");
    report.push(FileRef::Manifest, Issue::ManifestTornTail { truncate_to: 120 });
    report.push(
        FileRef::Segment(seg(0x2a)),
        Issue::SealedSegmentSizeMismatch { expected: 10, actual: 9 },
    );
    report.push(FileRef::Directory, Issue::DirectoryNotFound);
    assert_eq!(
        report.to_string(),
        "3 issue(s):\n  manifest has torn tail; truncatable to 120 [manifest]\n  \
         sealed segment size mismatch: expected 10, actual 9 [0000002a.seg]\n  \
         directory not found [directory]"
    );
    let e = OpenError::RecoveryFailed(RecoveryError::RemainingIssues(report));
    assert!(e.message().starts_with("recovery failed: issues remain after recovery: 3 issue(s):"));
    assert_eq!(RecoveryError::NotPossible.message(), "recovery not possible");
    assert_eq!(RecoveryError::ApprovalRequired.message(), "recovery requires approval");
    assert_eq!(RecoveryError::IoError(IoFault::NotFound).message(), "not found");
}

// ── recovery ──────────────────────────────────────────────────────────────────

const GARBAGE: [u8; 4] = [0xde, 0xad, 0xbe, 0xef];

#[test]
fn manifest_torn_tail_auto_recovers() {
    let mut mem = format();
    mem.manifest.as_mut().unwrap().extend_from_slice(&GARBAGE);

    assert!(matches!(mem.recover(false), Ok(())));
    assert!(mem.is_clean());
}

#[test]
fn active_segment_torn_tail_auto_recovers() {
    let mut mem = format();
    mem.segments.get_mut(&1).unwrap().extend_from_slice(&GARBAGE);

    assert!(matches!(mem.recover(false), Ok(())));
    assert!(mem.is_clean());
}

#[test]
fn dead_segment_not_found_auto_recovers() {
    let mut mem = format();
    // RecordOrphan puts seg(2) in the dead set; no file exists for it
    mem.append_op(Op::RecordOrphan { id: seg(2) });

    assert!(matches!(mem.recover(false), Ok(())));
    assert!(mem.is_clean());
}

#[test]
fn orphan_segment_auto_recovers() {
    let mut mem = format();
    create_segment(&mut mem, seg(9));

    assert!(matches!(mem.recover(false), Ok(())));
    assert!(mem.is_clean());
    // file remains — dead-segment cleanup is not recovery's job
    assert!(mem.segments.contains_key(&9));
}

#[test]
fn active_segment_missing_requires_approval() {
    let mut mem = format();
    mem.perform(Action::DeleteSegment(seg(1)));

    assert!(matches!(mem.recover(false), Err(RecoveryError::ApprovalRequired)));
    assert!(matches!(mem.recover(true), Ok(())));
    assert!(mem.is_clean());
}

#[test]
fn fatal_issue_returns_not_possible() {
    let mut mem = Mem::new();
    // No manifest — ManifestNotFound is unrecoverable
    assert!(matches!(mem.recover(false), Err(RecoveryError::NotPossible)));
}

#[test]
fn torn_manifest_and_orphan_both_fixed() {
    let mut mem = format();
    mem.manifest.as_mut().unwrap().extend_from_slice(&GARBAGE);
    create_segment(&mut mem, seg(9));

    assert!(matches!(mem.recover(false), Ok(())));
    assert!(mem.is_clean());
    assert!(mem.segments.contains_key(&9));
}

#[test]
fn fix_ups_run_phase_by_phase() {
    let mut issues = IssueReport::new();
    issues.push(FileRef::Segment(seg(1)), Issue::ActiveSegmentTornTail { truncate_to: 8 });
    issues.push(FileRef::Segment(seg(4)), Issue::OrphanSegmentFound);
    issues.push(FileRef::Manifest, Issue::ManifestTornTail { truncate_to: 50 });
    issues.push(FileRef::Segment(seg(3)), Issue::DeadSegmentNotFound);
    let fix_ups = attempt_recovery(&issues, false).unwrap();
    let actions: Vec<Vec<Action>> = fix_ups.iter().map(|f| f.action.apply(50)).collect();
    assert_eq!(actions[0], vec![Action::TruncateManifest { len: 50 }]);
    assert!(matches!(actions[1][0], Action::WriteManifest { offset: 50, .. }));
    assert_eq!(actions[1][1], Action::SyncManifest);
    assert!(matches!(actions[2][0], Action::WriteManifest { offset: 50, .. }));
    assert_eq!(actions[3], vec![Action::TruncateSegment { id: seg(1), len: 8 }]);
}

#[test]
fn first_troublesome_issue_decides() {
    let mut issues = IssueReport::new();
    issues.push(FileRef::Segment(seg(1)), Issue::ActiveSegmentMissing);
    issues.push(FileRef::Segment(seg(2)), Issue::SealedSegmentMissing);
    assert!(matches!(attempt_recovery(&issues, false), Err(RecoveryError::ApprovalRequired)));
    assert!(matches!(attempt_recovery(&issues, true), Err(RecoveryError::NotPossible)));
}

// ── store ─────────────────────────────────────────────────────────────────────

#[test]
fn open_clean_store_succeeds() {
    assert!(format().open(cfg()).is_ok());
}

#[test]
fn open_missing_manifest_is_fatal() {
    assert!(matches!(Mem::new().open(cfg()), Err(_)));
}

#[test]
fn open_empty_manifest_is_fatal() {
    let mut mem = Mem::new();
    create_manifest(&mut mem);
    assert!(matches!(mem.open(cfg()), Err(_)));
}

#[test]
fn open_torn_active_segment_auto_recovers() {
    let mut mem = format();
    mem.segments.get_mut(&1).unwrap().extend_from_slice(&[0x00, 0x01]);
    assert!(matches!(mem.open(cfg()), Ok(_)));
}

#[test]
fn open_errors_carry_the_issues() {
    let mut mem = format();
    mem.perform(Action::DeleteSegment(seg(1)));
    match mem.open(cfg()) {
        Err(OpenError::ApprovedRecoveredRequired(report)) => {
            assert!(has(&report, Issue::ActiveSegmentMissing));
        }
        _ => panic!("approval expected"),
    }
    assert!(mem.recover(true).is_ok());
    assert!(mem.open(cfg()).is_ok());

    let report = Mem::new().scan();
    match Store::open_repaired(cfg(), report) {
        Err(OpenError::RecoveryFailed(RecoveryError::RemainingIssues(report))) => {
            assert!(has(&report, Issue::ManifestNotFound));
        }
        _ => panic!("remaining issues expected"),
    }
}

#[test]
fn writer_commit_persists_entries() {
    let mut mem = format();
    let mut store = mem.open(cfg()).unwrap();
    let pos_before = store.write_position();

    let commit = mem.write(&mut store, &[(1, b"hello"), (2, b"world")]);
    assert_eq!(commit.sync(), Some(Action::SyncSegment(seg(1))));

    assert!(store.write_position() > pos_before);
}

#[test]
fn scan_empty_store_yields_nothing() {
    let mut mem = format();
    let store = mem.open(cfg()).unwrap();
    assert_eq!(mem.collect(&store, 1).len(), 0);
}

#[test]
fn scan_reads_written_entries() {
    let mut mem = format();
    let mut store = mem.open(cfg()).unwrap();
    let _ = mem.write(&mut store, &[(1, b"hello"), (2, b"world")]);

    let entries = mem.collect(&store, 1);
    assert_eq!(entries.len(), 2);
    assert_eq!(entries[0], (1, b"hello".to_vec()));
    assert_eq!(entries[1], (2, b"world".to_vec()));
}

#[test]
fn scan_from_mid_range() {
    let mut mem = format();
    let mut store = mem.open(cfg()).unwrap();
    let _ = mem.write(&mut store, &[(1, b"a"), (2, b"b"), (3, b"c")]);

    let entries = mem.collect(&store, 2);
    assert_eq!(entries.len(), 2);
    assert_eq!(entries[0], (2, b"b".to_vec()));
    assert_eq!(entries[1], (3, b"c".to_vec()));
}

#[test]
fn scan_from_beyond_last_entry_yields_nothing() {
    let mut mem = format();
    let mut store = mem.open(cfg()).unwrap();
    let _ = mem.write(&mut store, &[(1, b"x")]);
    assert_eq!(mem.collect(&store, 99).len(), 0);
}

#[test]
fn scan_across_rollover() {
    let mut mem = format();
    let mut store = mem.open(rolling()).unwrap();

    // First commit lands in seg(1); rollover deferred.
    let _ = mem.write(&mut store, &[(1, b"first")]);
    // Second commit triggers deferred rollover, then lands in seg(2).
    let _ = mem.write(&mut store, &[(2, b"second")]);

    let entries = mem.collect(&store, 1);
    assert_eq!(entries.len(), 2);
    assert_eq!(entries[0], (1, b"first".to_vec()));
    assert_eq!(entries[1], (2, b"second".to_vec()));
}

#[test]
fn writer_commit_rolls_over_at_threshold() {
    let mut mem = format();
    let mut store = mem.open(rolling()).unwrap();
    assert_eq!(store.active_id(), seg(1));

    // First commit: write to seg1, rollover deferred.
    let _ = mem.write(&mut store, &[(1, b"a")]);
    assert_eq!(store.active_id(), seg(1));
    assert!(store.rollover_pending());

    // Second commit: rollover fires, now on seg2.
    let _ = mem.write(&mut store, &[(2, b"b")]);
    assert_eq!(store.active_id(), seg(2));
    // With threshold=0, rollover_pending is set again immediately after each
    // commit — that's correct; the next commit will roll again.
}

#[test]
fn last_entry_id_tracks_writes() {
    let mut mem = format();
    let mut store = mem.open(cfg()).unwrap();
    assert_eq!(store.last_entry_id(), None);

    let _ = mem.write(&mut store, &[(5, b"a"), (10, b"b")]);
    assert_eq!(store.last_entry_id(), Some(10));
}

#[test]
fn scan_with_gappy_ids() {
    let mut mem = format();
    let mut store = mem.open(cfg()).unwrap();
    let _ = mem.write(&mut store, &[(1, b"a"), (5, b"b"), (100, b"c")]);

    // Seek to id=5 should skip id=1.
    let entries = mem.collect(&store, 5);
    assert_eq!(entries.len(), 2);
    assert_eq!(entries[0], (5, b"b".to_vec()));
    assert_eq!(entries[1], (100, b"c".to_vec()));
}

// A new node receives a snapshot covering indices 1..N, then must accept
// AppendEntries for N+1 onward. The log store starts fresh, gets
// truncate_start(N+1) before any entries are written, then entries arrive
// with IDs starting at N+1.

#[test]
fn truncate_start_on_fresh_store_then_append_and_scan() {
    let mut mem = Mem::new();
    let mut store = mem.open_or_create(cfg()).unwrap();

    // Purge to snapshot index 10; no entries have been written yet.
    mem.truncate_start(&mut store, 11).unwrap();
    assert_eq!(store.first_entry_id(), 11);
    assert_eq!(store.last_entry_id(), None);

    // Append entries starting at the post-snapshot index.
    let _ = mem.write(&mut store, &[(11, b"a"), (12, b"b"), (13, b"c")]);
    assert_eq!(store.last_entry_id(), Some(13));

    let entries = mem.collect(&store, 11);
    assert_eq!(entries.len(), 3);
    assert_eq!(entries[0], (11, b"a".to_vec()));
    assert_eq!(entries[1], (12, b"b".to_vec()));
    assert_eq!(entries[2], (13, b"c".to_vec()));
}

#[test]
fn scan_from_high_id_after_purge() {
    let mut mem = Mem::new();
    let mut store = mem.open_or_create(cfg()).unwrap();
    mem.truncate_start(&mut store, 11).unwrap();
    let _ = mem.write(&mut store, &[(11, b"a"), (12, b"b"), (13, b"c")]);

    // Scanning from the last id only — matches what get_log_state does.
    let entries = mem.collect(&store, 13);
    assert_eq!(entries.len(), 1);
    assert_eq!(entries[0], (13, b"c".to_vec()));

    // Scanning from mid-range.
    let entries = mem.collect(&store, 12);
    assert_eq!(entries.len(), 2);
    assert_eq!(entries[0], (12, b"b".to_vec()));
}

#[test]
fn first_entry_id_after_truncate_start() {
    let mut mem = Mem::new();
    let mut store = mem.open_or_create(cfg()).unwrap();
    assert_eq!(store.first_entry_id(), 0);
    mem.truncate_start(&mut store, 7).unwrap();
    assert_eq!(store.first_entry_id(), 7);
}

#[test]
fn truncate_start_evicts_sealed_segments() {
    let mut mem = Mem::new();
    let mut store = mem.open_or_create(rolling()).unwrap();

    // Commit 1 → seg1, rollover deferred.
    let _ = mem.write(&mut store, &[(1, b"a")]);
    // Commit 2 → triggers rollover: seals seg1 (last_entry=1), opens seg2.
    let _ = mem.write(&mut store, &[(2, b"b")]);
    assert_eq!(store.active_id(), seg(2));

    // Purge: seg1 (last_entry=1) is fully behind first_entry=2 → evicted.
    mem.truncate_start(&mut store, 2).unwrap();
    assert_eq!(mem.delete_dead_segments(&mut store), 1);

    assert!(!mem.segments.contains_key(&1));

    // seg2 is still readable.
    let entries = mem.collect(&store, 2);
    assert_eq!(entries.len(), 1);
    assert_eq!(entries[0], (2, b"b".to_vec()));
}

#[test]
fn truncate_end_removes_tail_entries() {
    let mut mem = Mem::new();
    let mut store = mem.open_or_create(cfg()).unwrap();
    let _ = mem.write(&mut store, &[(1, b"a"), (2, b"b"), (3, b"c")]);

    mem.truncate_end(&mut store, 2).unwrap();
    assert_eq!(store.last_entry_id(), Some(2));

    let entries = mem.collect(&store, 1);
    assert_eq!(entries.len(), 2);
    assert_eq!(entries[0], (1, b"a".to_vec()));
    assert_eq!(entries[1], (2, b"b".to_vec()));
}

#[test]
fn truncate_end_noop_when_at_or_beyond_last() {
    let mut mem = Mem::new();
    let mut store = mem.open_or_create(cfg()).unwrap();
    let _ = mem.write(&mut store, &[(1, b"a"), (2, b"b")]);

    mem.truncate_end(&mut store, 2).unwrap();
    assert_eq!(store.last_entry_id(), Some(2));

    mem.truncate_end(&mut store, 99).unwrap();
    assert_eq!(store.last_entry_id(), Some(2));
}

#[test]
fn metadata_write_and_read() {
    let mut mem = Mem::new();
    let mut store = mem.open_or_create(cfg()).unwrap();
    assert!(store.metadata().is_empty());

    mem.write_metadata(&mut store, vec![(1u8, b"vote".to_vec()), (2u8, b"committed".to_vec())]);

    let meta = store.metadata();
    assert_eq!(
        meta.iter().find(|(k, _)| *k == 1).map(|(_, v)| v.as_slice()),
        Some(b"vote".as_slice())
    );
    assert_eq!(
        meta.iter().find(|(k, _)| *k == 2).map(|(_, v)| v.as_slice()),
        Some(b"committed".as_slice())
    );
}

#[test]
fn metadata_persists_across_reopen() {
    let mut mem = Mem::new();
    {
        let mut store = mem.open_or_create(cfg()).unwrap();
        mem.write_metadata(&mut store, vec![(1u8, b"vote-bytes".to_vec())]);
    }
    let store = mem.open_or_create(cfg()).unwrap();
    let has_key = store.metadata().iter().any(|(k, v)| *k == 1 && v == b"vote-bytes");
    assert!(has_key);
}

#[test]
fn metadata_last_write_wins() {
    let mut mem = Mem::new();
    let mut store = mem.open_or_create(cfg()).unwrap();
    mem.write_metadata(&mut store, vec![(1u8, b"first".to_vec())]);
    mem.write_metadata(&mut store, vec![(1u8, b"second".to_vec())]);

    let val = store.metadata().iter().find(|(k, _)| *k == 1).map(|(_, v)| v.as_slice());
    assert_eq!(val, Some(b"second".as_slice()));
}

// ── further cases ─────────────────────────────────────────────────────────────

fn many(range: std::ops::RangeInclusive<u64>) -> Vec<(u64, Vec<u8>)> {
    range.map(|id| (id, format!("payload {id}").into_bytes())).collect()
}

fn write_many(mem: &mut Mem, store: &mut Store, entries: &[(u64, Vec<u8>)]) {
    let borrowed: Vec<(u64, &[u8])> = entries.iter().map(|(id, p)| (*id, p.as_slice())).collect();
    let _ = mem.write(store, &borrowed);
}

#[test]
fn empty_write_commits_nothing() {
    let mut mem = Mem::new();
    let mut store = mem.open_or_create(cfg()).unwrap();
    let commit = mem.write(&mut store, &[]);
    assert_eq!(commit, Commit(None));
    assert_eq!(commit.sync(), None);
}

#[test]
fn reopen_gives_the_same_log() {
    let mut mem = Mem::new();
    let mut store = mem.open_or_create(StoreCfg { segment_rollover_trigger_bytes: 400, ..cfg() }).unwrap();
    let entries = many(1..=300);
    for batch in entries.chunks(7) {
        write_many(&mut mem, &mut store, batch);
    }
    assert!(mem.segments.len() > 3);
    assert_eq!(mem.collect(&store, 0), entries);

    let again = mem.open(cfg()).unwrap();
    for from in [0, 1, 63, 64, 65, 100, 299, 300, 301] {
        let expected: Vec<_> = entries.iter().filter(|(id, _)| *id >= from).cloned().collect();
        assert_eq!(mem.collect(&store, from), expected);
        assert_eq!(mem.collect(&again, from), expected);
    }
    assert_eq!(again.last_entry_id(), Some(300));
    assert_eq!(again.write_position(), store.write_position());
    assert_eq!(again.active_id(), store.active_id());
}

#[test]
fn truncate_end_behind_a_checkpoint() {
    let mut mem = Mem::new();
    let mut store = mem.open_or_create(cfg()).unwrap();
    let entries = many(1..=200);
    write_many(&mut mem, &mut store, &entries);
    // The index of the reopened store has checkpoints at 1, 65, 129 and 193.
    let mut store = mem.open(cfg()).unwrap();
    mem.truncate_end(&mut store, 150).unwrap();
    assert_eq!(store.last_entry_id(), Some(150));
    assert_eq!(mem.collect(&store, 0), entries[..150].to_vec());
    write_many(&mut mem, &mut store, &many(151..=160));
    assert_eq!(mem.collect(&store, 0), many(1..=160));
    let store = mem.open(cfg()).unwrap();
    assert_eq!(mem.collect(&store, 0), many(1..=160));
}

#[test]
fn truncate_end_into_a_sealed_segment() {
    let mut mem = Mem::new();
    let mut store = mem.open_or_create(rolling()).unwrap();
    for id in 1..=5u64 {
        write_many(&mut mem, &mut store, &many(id..=id));
    }
    assert_eq!(store.active_id(), seg(5));
    mem.truncate_end(&mut store, 2).unwrap();
    assert_eq!(store.active_id(), seg(2));
    assert_eq!(store.state().dead(), &vec![seg(3), seg(4), seg(5)]);
    assert_eq!(mem.collect(&store, 0), many(1..=2));
    assert!(!store.rollover_pending());
    assert_eq!(mem.delete_dead_segments(&mut store), 3);
    assert!(mem.is_clean());
    write_many(&mut mem, &mut store, &many(3..=3));
    assert_eq!(store.active_id(), seg(2));
    write_many(&mut mem, &mut store, &many(4..=4));
    assert_eq!(store.active_id(), seg(6));
    assert_eq!(mem.collect(&store, 0), many(1..=4));
    let store = mem.open(cfg()).unwrap();
    assert_eq!(mem.collect(&store, 0), many(1..=4));
}

#[test]
fn truncate_end_to_an_unknown_id_fails() {
    let mut mem = Mem::new();
    let mut store = mem.open_or_create(cfg()).unwrap();
    let _ = mem.write(&mut store, &[(10, b"a"), (20, b"b")]);
    assert!(matches!(mem.truncate_end(&mut store, 15), Err(StoreError::Scan(_))));
    assert_eq!(mem.collect(&store, 0).len(), 2);
}

#[test]
fn truncate_start_hides_earlier_entries() {
    let mut mem = Mem::new();
    let mut store = mem.open_or_create(cfg()).unwrap();
    write_many(&mut mem, &mut store, &many(1..=100));
    mem.truncate_start(&mut store, 50).unwrap();
    assert_eq!(mem.collect(&store, 0), many(50..=100));
    assert_eq!(mem.collect(&store, 70), many(70..=100));
    let store = mem.open(cfg()).unwrap();
    assert_eq!(store.first_entry_id(), 50);
    assert_eq!(mem.collect(&store, 0), many(50..=100));
}

#[test]
fn truncate_start_before_the_head_is_refused() {
    let mut mem = Mem::new();
    let mut store = mem.open_or_create(cfg()).unwrap();
    mem.truncate_start(&mut store, 50).unwrap();
    let before = mem.manifest.clone();
    assert_eq!(mem.truncate_start(&mut store, 49), Err(StoreError::BeforeHead));
    assert_eq!(mem.manifest, before);
    assert_eq!(store.first_entry_id(), 50);
}

#[test]
fn truncate_start_carries_metadata() {
    let mut mem = Mem::new();
    let mut store = mem.open_or_create(cfg()).unwrap();
    let progress = store.truncate_start(10, vec![(7, b"ten".to_vec())]);
    assert_eq!(mem.drive(&mut store, progress), Ok(Outcome::Done));
    let store = mem.open(cfg()).unwrap();
    assert_eq!(store.first_entry_id(), 10);
    assert_eq!(store.metadata(), &[(7, b"ten".to_vec())]);
}

#[test]
fn torn_write_loses_only_the_torn_entry() {
    let mut mem = Mem::new();
    let mut store = mem.open_or_create(cfg()).unwrap();
    let _ = mem.write(&mut store, &[(1, b"one"), (2, b"two"), (3, b"three")]);
    let file = mem.segments.get_mut(&1).unwrap();
    let cut = file.len() - 1;
    file.truncate(cut);
    let store = mem.open(cfg()).unwrap();
    assert_eq!(
        mem.collect(&store, 0),
        vec![(1, b"one".to_vec()), (2, b"two".to_vec())]
    );
    assert_eq!(store.last_entry_id(), Some(2));
}

#[test]
fn crash_between_rollover_steps_leaves_an_orphan() {
    let mut mem = Mem::new();
    let mut store = mem.open_or_create(rolling()).unwrap();
    let _ = mem.write(&mut store, &[(1, b"a")]);
    let mut w = store.writer();
    w.push(2, b"b");
    let Progress::Next(_, action) = w.write() else { panic!("work expected") };
    assert_eq!(action, Action::CreateSegment(seg(2)));
    mem.perform(action);
    // The process stops here.
    let store = mem.open(rolling()).unwrap();
    assert_eq!(store.state().dead(), &vec![seg(2)]);
    assert_eq!(mem.collect(&store, 0), vec![(1, b"a".to_vec())]);
}

#[test]
fn failures_are_handed_on() {
    let mut mem = Mem::new();
    let mut store = mem.open_or_create(cfg()).unwrap();
    let mut w = store.writer();
    w.push(1, b"a");
    let Progress::Next(task, _) = w.write() else { panic!("work expected") };
    assert!(matches!(
        store.resume(task, Event::Failed(IoFault::Other)),
        Progress::Failed(StoreError::Io(IoFault::Other))
    ));
    assert_eq!(store.last_entry_id(), None);
    // The buffered entry goes out with the next write.
    let _ = mem.write(&mut store, &[(2, b"b")]);
    assert_eq!(mem.collect(&store, 0).len(), 2);

    let Progress::Next(task, _) = store.truncate_end(1) else { panic!("work expected") };
    assert!(matches!(
        store.resume(task, Event::Contents(b"garbage!".to_vec())),
        Progress::Failed(StoreError::Io(IoFault::InvalidData))
    ));
    let Progress::Next(task, _) = store.truncate_end(1) else { panic!("work expected") };
    assert!(matches!(store.resume(task, Event::Done), Progress::Failed(StoreError::Io(_))));
}

#[test]
fn later_segment_that_cannot_be_read_is_an_error() {
    let mut mem = Mem::new();
    let mut store = mem.open_or_create(rolling()).unwrap();
    let _ = mem.write(&mut store, &[(1, b"a")]);
    let _ = mem.write(&mut store, &[(2, b"b")]);
    let mut r = store.scan(1);
    assert_eq!(r.needs(), Some(seg(1)));
    assert_eq!(r.supply(mem.read(seg(1))), Ok(()));
    assert_eq!(r.needs(), None);
    assert!(matches!(r.next(), Some(Ok((1, _)))));
    assert_eq!(r.needs(), Some(seg(2)));
    assert_eq!(r.supply(Err(IoFault::Other)), Err(StoreError::Io(IoFault::Other)));
    assert_eq!(r.needs(), None);
    assert!(r.next().is_none());

    // A first segment that cannot be read gives nothing.
    let mut r = store.scan(1);
    assert_eq!(r.needs(), Some(seg(1)));
    assert_eq!(r.supply(Err(IoFault::Other)), Ok(()));
    assert!(r.next().is_none());
}

#[test]
fn scan_skips_smaller_ids_in_every_segment() {
    let mut mem = Mem::new();
    let mut store = mem.open_or_create(rolling()).unwrap();
    let _ = mem.write(&mut store, &[(1, b"a")]);
    let _ = mem.write(&mut store, &[(2, b"b"), (3, b"c"), (4, b"d")]);
    assert_eq!(mem.collect(&store, 3), vec![(3, b"c".to_vec()), (4, b"d".to_vec())]);
}

#[test]
fn new_store_is_empty() {
    let mut mem = Mem::new();
    let store = mem.open_or_create(cfg()).unwrap();
    assert!(mem.is_clean());
    assert_eq!(store.active_id(), seg(1));
    assert_eq!(store.first_entry_id(), 0);
    assert_eq!(store.last_entry_id(), None);
    assert_eq!(mem.collect(&store, 0), vec![]);
    assert_eq!(mem.segments[&1], files::SEGMENT_MAGIC.to_vec());
}

#[test]
fn every_broken_write_keeps_a_prefix_of_its_batch() {
    let mut mem = Mem::new();
    let mut store = mem.open_or_create(cfg()).unwrap();
    write_many(&mut mem, &mut store, &many(1..=2));
    let before = mem.segments[&1].len();
    write_many(&mut mem, &mut store, &many(3..=5));
    let whole = mem.segments[&1].clone();
    let mut kept = 2;
    for cut in before..=whole.len() {
        mem.segments.insert(1, whole[..cut].to_vec());
        let store = mem.open(cfg()).unwrap();
        let entries = mem.collect(&store, 0);
        assert!(entries.len() == kept || entries.len() == kept + 1);
        kept = entries.len();
        assert_eq!(entries, many(1..=kept as u64));
        assert!(mem.is_clean());
    }
    assert_eq!(kept, 5);
}

#[test]
fn every_broken_record_has_no_effect() {
    let mut mem = Mem::new();
    let mut store = mem.open_or_create(cfg()).unwrap();
    mem.write_metadata(&mut store, vec![(1, b"old".to_vec())]);
    let before = mem.manifest.clone().unwrap().len();
    mem.write_metadata(&mut store, vec![(1, b"new".to_vec())]);
    let whole = mem.manifest.clone().unwrap();
    for cut in before..whole.len() {
        mem.manifest = Some(whole[..cut].to_vec());
        let store = mem.open(cfg()).unwrap();
        assert_eq!(store.metadata(), &[(1, b"old".to_vec())]);
        assert_eq!(mem.manifest.as_ref().unwrap().len(), before);
    }
    mem.manifest = Some(whole);
    assert_eq!(mem.open(cfg()).unwrap().metadata(), &[(1, b"new".to_vec())]);
}

#[test]
fn all_that_a_crash_leaves_is_recovered_at_once() {
    let mut mem = Mem::new();
    let mut store = mem.open_or_create(rolling()).unwrap();
    for id in 1..=4u64 {
        write_many(&mut mem, &mut store, &many(id..=id));
    }
    mem.truncate_start(&mut store, 3).unwrap();
    assert_eq!(store.state().dead(), &vec![seg(1), seg(2)]);

    mem.segments.remove(&2);
    mem.segments.insert(9, files::SEGMENT_MAGIC.to_vec());
    mem.manifest.as_mut().unwrap().extend_from_slice(&[1, 2, 3]);
    mem.segments.get_mut(&4).unwrap().extend_from_slice(&[4, 5, 6]);

    let store = mem.open(cfg()).unwrap();
    assert!(mem.is_clean());
    assert_eq!(store.state().dead(), &vec![seg(1), seg(9)]);
    assert_eq!(store.first_entry_id(), 3);
    assert_eq!(mem.collect(&store, 0), many(3..=4));
}

/// Two segments: entries 1 to 3, sealed, and entry 4.
fn two_segments() -> (Mem, Store) {
    let mut mem = Mem::new();
    let cfg = StoreCfg { segment_rollover_trigger_bytes: 60, ..cfg() };
    let mut store = mem.open_or_create(cfg).unwrap();
    write_many(&mut mem, &mut store, &many(1..=3));
    write_many(&mut mem, &mut store, &many(4..=4));
    assert_eq!(store.active_id(), seg(2));
    (mem, store)
}

/// Roll back to `last`, but stop after `steps` actions. Gives the action that
/// would have been next.
fn stop_rollback(mem: &mut Mem, store: &mut Store, last: u64, steps: usize) -> Option<Action> {
    let mut progress = store.truncate_end(last);
    for _ in 0..steps {
        progress = match progress {
            Progress::Next(task, action) => {
                let event = mem.perform(action);
                store.resume(task, event)
            }
            other => other,
        };
    }
    match progress {
        Progress::Next(_, action) => Some(action),
        _ => None,
    }
}

#[test]
fn rollback_records_before_it_cuts() {
    let (mut mem, mut store) = two_segments();
    let whole = mem.segments[&1].len();
    assert_eq!(stop_rollback(&mut mem, &mut store, 2, 0), Some(Action::ReadSegment(seg(1))));
    let (mut mem, mut store) = two_segments();
    let next = stop_rollback(&mut mem, &mut store, 2, 1);
    assert!(matches!(next, Some(Action::WriteManifest { .. })));
    let (mut mem, mut store) = two_segments();
    assert_eq!(stop_rollback(&mut mem, &mut store, 2, 2), Some(Action::SyncManifest));
    assert_eq!(mem.segments[&1].len(), whole);
    let (mut mem, mut store) = two_segments();
    // Frames of 20 + 9 bytes behind the magic prefix.
    assert_eq!(
        stop_rollback(&mut mem, &mut store, 2, 3),
        Some(Action::TruncateSegment { id: seg(1), len: 8 + 2 * 29 })
    );
    assert_eq!(mem.segments[&1].len(), whole);
    let (mut mem, mut store) = two_segments();
    assert_eq!(stop_rollback(&mut mem, &mut store, 2, 4), None);
    assert_eq!(mem.segments[&1].len(), 8 + 2 * 29);
}

#[test]
fn every_broken_rollback_into_a_sealed_segment_is_recovered() {
    for steps in 0..=4 {
        let (mut mem, mut store) = two_segments();
        stop_rollback(&mut mem, &mut store, 2, steps);
        // The process stops here.
        let mut store = mem.open(cfg()).unwrap();
        assert!(mem.is_clean());
        let expected = if steps < 2 { many(1..=4) } else { many(1..=2) };
        assert_eq!(mem.collect(&store, 0), expected);
        assert_eq!(store.active_id(), if steps < 2 { seg(2) } else { seg(1) });
        // Asked for again, the rollback is completed.
        assert_eq!(mem.truncate_end(&mut store, 2), Ok(Outcome::Done));
        assert_eq!(mem.collect(&store, 0), many(1..=2));
        let store = mem.open(cfg()).unwrap();
        assert_eq!(mem.collect(&store, 0), many(1..=2));
    }
}

#[test]
fn every_broken_record_of_a_rollback_has_no_effect() {
    let (mut mem, mut store) = two_segments();
    let Some(Action::WriteManifest { offset, bytes }) = stop_rollback(&mut mem, &mut store, 2, 1)
    else {
        panic!("a record is expected")
    };
    let before = mem.manifest.clone().unwrap();
    assert_eq!(offset, before.len() as u64);
    for cut in 0..bytes.len() {
        mem.manifest = Some([&before[..], &bytes[..cut]].concat());
        let store = mem.open(cfg()).unwrap();
        assert_eq!(mem.manifest.as_ref(), Some(&before));
        assert_eq!(mem.collect(&store, 0), many(1..=4));
    }
    mem.manifest = Some([&before[..], &bytes[..]].concat());
    assert!(has(&mem.scan().issues, Issue::ActiveSegmentTornTail { truncate_to: 8 + 2 * 29 }));
    let store = mem.open(cfg()).unwrap();
    assert_eq!(mem.collect(&store, 0), many(1..=2));
    assert_eq!(store.state().dead(), &vec![seg(2)]);
    assert_eq!(mem.segments[&1].len(), 8 + 2 * 29);
}

#[test]
fn recovery_of_a_rollback_can_break_off_too() {
    let (mut mem, mut store) = two_segments();
    stop_rollback(&mut mem, &mut store, 2, 3);
    mem.segments.insert(9, files::SEGMENT_MAGIC.to_vec());
    mem.segments.remove(&2);
    let OpenStep::Repair(_, fix_ups) = Store::open(cfg(), mem.scan()) else {
        panic!("a repair is expected")
    };
    assert_eq!(fix_ups.len(), 3);
    // The records are written, and the process stops before the cut.
    mem.apply(fix_ups[..2].to_vec()).unwrap();
    assert!(mem.segments[&1].len() > 8 + 2 * 29);
    let store = mem.open(cfg()).unwrap();
    assert!(mem.is_clean());
    assert_eq!(mem.collect(&store, 0), many(1..=2));
    assert_eq!(store.state().dead(), &vec![seg(9)]);
}

#[test]
fn first_write_after_a_rollback_is_announced() {
    let (mut mem, mut store) = two_segments();
    mem.truncate_end(&mut store, 2).unwrap();
    let end = mem.segments[&1].len() as u64;
    assert_eq!(store.state().cut_at(), Some(end));
    // The same after a reopen.
    let mut store = mem.open(cfg()).unwrap();
    assert_eq!(store.state().cut_at(), Some(end));
    let at = mem.manifest.as_ref().unwrap().len() as u64;
    let mut w = store.writer();
    w.push(7, b"seven");
    let Progress::Next(task, action) = w.write() else { panic!("work expected") };
    let mut cursor = FrameCursor::new(at);
    write_op(&mut cursor, &ManifestOp::bare(Op::Metadata));
    assert_eq!(
        action,
        Action::WriteManifest { offset: at, bytes: cursor.pending().to_vec() }
    );
    let event = mem.perform(action);
    let Progress::Next(task, action) = store.resume(task, event) else { panic!("work expected") };
    assert_eq!(action, Action::SyncManifest);
    let event = mem.perform(action);
    let Progress::Next(task, action) = store.resume(task, event) else { panic!("work expected") };
    assert_eq!(store.state().cut_at(), None);
    assert!(matches!(action, Action::WriteSegment { id: SegmentId(1), offset, .. } if offset == end));
    let event = mem.perform(action);
    assert!(matches!(
        store.resume(task, event),
        Progress::Finished(Outcome::Written(Commit(Some(SegmentId(1)))))
    ));
    // The next write needs no record.
    let mut w = store.writer();
    w.push(8, b"eight");
    assert!(matches!(w.write(), Progress::Next(_, Action::WriteSegment { .. })));
}

#[test]
fn broken_rollback_in_the_active_segment_has_two_outcomes() {
    for steps in 0..=4 {
        let mut mem = Mem::new();
        let mut store = mem.open_or_create(cfg()).unwrap();
        write_many(&mut mem, &mut store, &many(1..=5));
        stop_rollback(&mut mem, &mut store, 3, steps);
        let store = mem.open(cfg()).unwrap();
        let expected = if steps < 2 { many(1..=5) } else { many(1..=3) };
        assert_eq!(mem.collect(&store, 0), expected);
    }
}

#[test]
fn rollback_whose_cut_fails_can_be_tried_again() {
    let (mut mem, mut store) = two_segments();
    let mut progress = store.truncate_end(2);
    for _ in 0..3 {
        let Progress::Next(task, action) = progress else { panic!("work expected") };
        let event = mem.perform(action);
        progress = store.resume(task, event);
    }
    let Progress::Next(task, Action::TruncateSegment { .. }) = progress else {
        panic!("a cut is expected")
    };
    assert!(matches!(
        store.resume(task, Event::Failed(IoFault::Other)),
        Progress::Failed(StoreError::Io(IoFault::Other))
    ));
    assert_eq!(store.last_entry_id(), Some(3));
    assert_eq!(mem.collect(&store, 0), many(1..=3));
    write_many(&mut mem, &mut store, &[(4, b"other".to_vec())]);
    // What was written after the failure is there to stay.
    let mut copy = Mem { manifest: mem.manifest.clone(), segments: mem.segments.clone() };
    let reopened = copy.open(cfg()).unwrap();
    assert_eq!(copy.collect(&reopened, 0).len(), 4);
    assert_eq!(mem.truncate_end(&mut store, 2), Ok(Outcome::Done));
    assert_eq!(store.last_entry_id(), Some(2));
    assert_eq!(mem.collect(&store, 0), many(1..=2));
    let store = mem.open(cfg()).unwrap();
    assert_eq!(mem.collect(&store, 0), many(1..=2));
}

#[test]
fn synced_entries_survive_any_crash() {
    let mut mem = Mem::new();
    let mut store = mem.open_or_create(rolling()).unwrap();
    // Entries 1 and 2, each in a segment of its own, and synced.
    for id in 1..=2u64 {
        write_many(&mut mem, &mut store, &many(id..=id));
    }
    assert_eq!(Commit(Some(store.active_id())).sync(), Some(Action::SyncSegment(seg(2))));
    mem.write_metadata(&mut store, vec![(1, b"kept".to_vec())]);
    let kept = mem.segments[&2].len();
    // Entries that are written to the same segment and not synced.
    let mut cursor = FrameCursor::new(kept as u64);
    for (id, payload) in many(3..=5) {
        cursor.write(entry(id), &payload);
    }
    let bytes = cursor.pending().to_vec();
    mem.perform(Action::WriteSegment { id: seg(2), offset: kept as u64, bytes });
    let seen = mem.segments[&2].clone();
    for size in kept..=seen.len() {
        mem.segments.insert(2, seen[..size].to_vec());
        let store = mem.open(cfg()).unwrap();
        let entries = mem.collect(&store, 0);
        assert!(entries.len() >= 2);
        assert_eq!(entries, many(1..=entries.len() as u64));
        assert_eq!(store.metadata(), &[(1, b"kept".to_vec())]);
    }
}

#[test]
fn entries_written_after_a_rollback_survive_a_reopen() {
    let (mut mem, mut store) = two_segments();
    mem.truncate_end(&mut store, 2).unwrap();
    write_many(&mut mem, &mut store, &many(3..=9));
    let store = mem.open(cfg()).unwrap();
    assert_eq!(store.active_id(), seg(1));
    assert_eq!(mem.collect(&store, 0), many(1..=9));
}

#[test]
fn seal_counts_the_frames_that_a_rollback_kept() {
    let (mut mem, mut store) = two_segments();
    assert_eq!(store.state().seal(seg(1)).unwrap().entry_count, 3);
    mem.truncate_end(&mut store, 2).unwrap();
    assert!(store.state().seal(seg(1)).is_none());
    // Three frames more, and the next write seals the segment.
    write_many(&mut mem, &mut store, &many(5..=7));
    write_many(&mut mem, &mut store, &many(8..=8));
    let seal = store.state().seal(seg(1)).unwrap();
    assert_eq!(seal.entry_count, 5);
    assert_eq!(seal.last_entry, entry(7));
    assert_eq!(seal.final_size, mem.segments[&1].len() as u64);
    // The same in a store that was opened in between.
    let (mut mem, mut store) = two_segments();
    mem.truncate_end(&mut store, 2).unwrap();
    let mut store = mem.open(rolling()).unwrap();
    write_many(&mut mem, &mut store, &many(5..=7));
    write_many(&mut mem, &mut store, &many(8..=8));
    assert_eq!(store.state().seal(seg(1)).unwrap().entry_count, 5);
}

#[test]
fn corrupt_sealed_segment_cannot_be_recovered() {
    let (mut mem, _) = two_segments();
    let file = mem.segments.get_mut(&1).unwrap();
    let end = file.len() - 1;
    file[end] ^= 0xff;
    let before = mem.segments.clone();
    assert!(has(
        &mem.scan().issues,
        Issue::SealedSegmentChecksumCorrupt { corrupt_at: 8 + 2 * 29 }
    ));
    assert!(matches!(mem.open(cfg()), Err(OpenError::RecoveryNotPossible(_))));
    assert!(matches!(mem.recover(true), Err(RecoveryError::NotPossible)));
    assert_eq!(mem.segments, before);
}

#[test]
fn approved_recovery_lets_the_store_open() {
    let (mut mem, _) = two_segments();
    mem.segments.remove(&2);
    mem.segments.insert(7, files::SEGMENT_MAGIC.to_vec());
    mem.manifest.as_mut().unwrap().extend_from_slice(&[1, 2, 3]);
    assert!(matches!(mem.open(cfg()), Err(OpenError::ApprovedRecoveredRequired(_))));
    assert!(mem.recover(true).is_ok());
    assert!(mem.is_clean());
    let store = mem.open(cfg()).unwrap();
    assert_eq!(mem.collect(&store, 0), many(1..=3));
    assert_eq!(store.active_id(), seg(2));
    assert_eq!(store.state().dead(), &vec![seg(7)]);
    assert_eq!(store.last_entry_id(), Some(3));
}

#[test]
fn errors_read_as_text() {
    assert_eq!(
        StoreError::BeforeHead.message(),
        "truncate_start: first_entry is before the current log head"
    );
    assert_eq!(
        StoreError::Scan(ScanError::Truncated { offset: 36 }).message(),
        "truncated frame at offset 36"
    );
    assert_eq!(
        ScanError::ChecksumMismatch { offset: 8 }.message(),
        "checksum mismatch at offset 8"
    );
    assert_eq!(StoreError::Io(IoFault::NotFound).message(), "not found");
    assert_eq!(IoFault::UnexpectedEof.message(), "unexpected end of file");
}
