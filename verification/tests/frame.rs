use woodshed::frame::{
    checksum, FrameBuffer, FrameCursor, FrameScanner, ScanError, ScanStatus, HEADER_LEN,
};
use woodshed::{EntryId, IoFault};

fn write_to_file(frames: &[(u64, &[u8])]) -> Vec<u8> {
    let mut w = FrameBuffer::new();
    for (id, payload) in frames {
        w.write(EntryId(*id), payload);
    }
    w.pending().to_vec()
}

// ── read() tests ──────────────────────────────────────────────────────────

#[test]
fn roundtrip_single_frame() {
    let file = write_to_file(&[(1, b"hello")]);
    let mut scanner = FrameScanner::new(file, 0);
    let mut reader = scanner.read().unwrap().unwrap();
    let id = reader.id();
    let offset = reader.frame_start();
    let mut payload = Vec::new();
    reader.read_to_end(&mut payload).unwrap();
    drop(reader);
    assert_eq!(id, EntryId(1));
    assert_eq!(offset, 0);
    assert_eq!(payload, b"hello");
    assert!(scanner.read().unwrap().is_none());
}

#[test]
fn roundtrip_multiple_frames() {
    let frames: &[(u64, &[u8])] = &[(1, b"foo"), (2, b"bar"), (3, b"baz")];
    let file = write_to_file(frames);
    let mut scanner = FrameScanner::new(file, 0);
    for &(id, expected) in frames {
        let mut payload = Vec::new();
        {
            let mut reader = scanner.read().unwrap().unwrap();
            assert_eq!(reader.id(), EntryId(id));
            reader.read_to_end(&mut payload).unwrap();
        }
        assert_eq!(payload, expected);
    }
    assert!(scanner.read().unwrap().is_none());
}

#[test]
fn empty_file_returns_none() {
    let file: Vec<u8> = Vec::new();
    let mut scanner = FrameScanner::new(file, 0);
    assert!(scanner.read().unwrap().is_none());
}

#[test]
fn truncated_header_returns_error() {
    let mut file: Vec<u8> = Vec::new();
    file.extend_from_slice(&[0x00, 0x00]);

    let mut scanner = FrameScanner::new(file, 0);
    assert!(matches!(scanner.read(), Err(ScanError::Truncated { .. })));
}

// ── check() tests ─────────────────────────────────────────────────────────

#[test]
fn check_succeeds_on_valid_frame() {
    let file = write_to_file(&[(42, b"hello")]);
    let mut scanner = FrameScanner::new(file, 0);
    assert_eq!(scanner.check().unwrap(), Some((EntryId(42), 0)));
    assert!(scanner.check().unwrap().is_none());
}

#[test]
fn check_detects_checksum_mismatch() {
    let mut file: Vec<u8> = Vec::new();
    let mut w = FrameBuffer::new();
    w.write(EntryId(1), b"good payload");
    let mut pending = w.pending().to_vec();
    let last = pending.len() - 1;
    pending[last] ^= 0xff;
    file.extend_from_slice(&pending);

    let mut scanner = FrameScanner::new(file, 0);
    assert!(matches!(scanner.check(), Err(ScanError::ChecksumMismatch { .. })));
}

#[test]
fn check_detects_truncated_payload() {
    let mut file: Vec<u8> = Vec::new();
    let mut w = FrameBuffer::new();
    w.write(EntryId(1), b"hello");
    let pending = w.pending();
    // Write only the header + 2 bytes of payload
    file.extend_from_slice(&pending[..HEADER_LEN + 2]);

    let mut scanner = FrameScanner::new(file, 0);
    assert!(matches!(scanner.check(), Err(ScanError::Truncated { .. })));
}

// ── scan_all() tests ──────────────────────────────────────────────────────

#[test]
fn scan_all_clean_returns_count_and_checkpoints() {
    let file = write_to_file(&[(1, b"a"), (2, b"b"), (3, b"c")]);
    let mut scanner = FrameScanner::new(file, 0);
    let summary = scanner.scan_all(1);
    assert_eq!(summary.count, 3);
    assert_eq!(summary.checkpoints.len(), 3);
    assert_eq!(summary.checkpoints[0].0, EntryId(1));
    assert_eq!(summary.checkpoints[1].0, EntryId(2));
    assert_eq!(summary.checkpoints[2].0, EntryId(3));
    assert_eq!(summary.status, ScanStatus::Clean);
}

#[test]
fn scan_all_stride_filters_checkpoints() {
    let file = write_to_file(&[(1, b"a"), (2, b"b"), (3, b"c"), (4, b"d")]);
    let mut scanner = FrameScanner::new(file, 0);
    let summary = scanner.scan_all(2);
    assert_eq!(summary.count, 4);
    assert_eq!(summary.checkpoints.len(), 2); // frames 0 and 2
    assert_eq!(summary.checkpoints[0].0, EntryId(1));
    assert_eq!(summary.checkpoints[1].0, EntryId(3));
}

#[test]
fn scan_all_torn_tail() {
    let mut file: Vec<u8> = Vec::new();
    let mut w = FrameBuffer::new();
    w.write(EntryId(1), b"good");
    file.extend_from_slice(w.pending());
    file.extend_from_slice(&[0x00, 0x01]); // partial frame

    let mut scanner = FrameScanner::new(file, 0);
    let summary = scanner.scan_all(1);
    assert_eq!(summary.count, 1);
    assert_eq!(summary.status, ScanStatus::TornTail);
}

#[test]
fn scan_all_checksum_corrupt() {
    let mut file: Vec<u8> = Vec::new();
    let mut w = FrameBuffer::new();
    w.write(EntryId(1), b"good payload");
    let mut pending = w.pending().to_vec();
    let last = pending.len() - 1;
    pending[last] ^= 0xff;
    file.extend_from_slice(&pending);

    let mut scanner = FrameScanner::new(file, 0);
    let summary = scanner.scan_all(1);
    assert_eq!(summary.count, 0);
    assert_eq!(summary.status, ScanStatus::ChecksumCorrupt);
}

// ── skip() tests ──────────────────────────────────────────────────────────

#[test]
fn skip_advances_past_frame() {
    let file = write_to_file(&[(1, b"skip me"), (2, b"read me")]);
    let mut scanner = FrameScanner::new(file, 0);
    assert!(scanner.skip().unwrap());
    let mut payload = Vec::new();
    {
        let mut reader = scanner.read().unwrap().unwrap();
        assert_eq!(reader.id(), EntryId(2));
        reader.read_to_end(&mut payload).unwrap();
    }
    assert_eq!(payload, b"read me");
    assert!(scanner.read().unwrap().is_none());
}

#[test]
fn skip_at_eof_returns_false() {
    let file = write_to_file(&[(1, b"only")]);
    let mut scanner = FrameScanner::new(file, 0);
    assert!(scanner.skip().unwrap());
    assert!(!scanner.skip().unwrap());
}

#[test]
fn skip_n_skips_exact_count() {
    let file = write_to_file(&[(1, b"a"), (2, b"b"), (3, b"c"), (4, b"d")]);
    let mut scanner = FrameScanner::new(file, 0);
    assert_eq!(scanner.skip_n(2).unwrap(), 2);
    let mut payload = Vec::new();
    {
        let mut reader = scanner.read().unwrap().unwrap();
        assert_eq!(reader.id(), EntryId(3));
        reader.read_to_end(&mut payload).unwrap();
    }
    assert_eq!(payload, b"c");
}

#[test]
fn skip_n_stops_at_eof() {
    let file = write_to_file(&[(1, b"a"), (2, b"b")]);
    let mut scanner = FrameScanner::new(file, 0);
    assert_eq!(scanner.skip_n(10).unwrap(), 2);
}

// ── seek_to_id() tests ────────────────────────────────────────────────────

#[test]
fn seek_to_id_skips_before_target() {
    let file = write_to_file(&[(10, b"a"), (20, b"b"), (30, b"c")]);
    let mut scanner = FrameScanner::new(file, 0);
    scanner.seek_to_id(EntryId(20)).unwrap();
    let mut reader = scanner.read().unwrap().unwrap();
    assert_eq!(reader.id(), EntryId(20));
    let mut buf = Vec::new();
    reader.read_to_end(&mut buf).unwrap();
    assert_eq!(buf, b"b");
}

#[test]
fn seek_to_id_already_at_target() {
    let file = write_to_file(&[(5, b"hello")]);
    let mut scanner = FrameScanner::new(file, 0);
    scanner.seek_to_id(EntryId(5)).unwrap();
    let mut reader = scanner.read().unwrap().unwrap();
    assert_eq!(reader.id(), EntryId(5));
}

#[test]
fn seek_to_id_past_all_frames_yields_none() {
    let file = write_to_file(&[(1, b"a"), (2, b"b")]);
    let mut scanner = FrameScanner::new(file, 0);
    scanner.seek_to_id(EntryId(99)).unwrap();
    assert!(scanner.read().unwrap().is_none());
}

#[test]
fn seek_to_id_stops_at_first_frame_with_id_gte_target() {
    // Gappy IDs: 1, 5, 10 — seek to 4 should land on id=5
    let file = write_to_file(&[(1, b"a"), (5, b"b"), (10, b"c")]);
    let mut scanner = FrameScanner::new(file, 0);
    scanner.seek_to_id(EntryId(4)).unwrap();
    let mut reader = scanner.read().unwrap().unwrap();
    assert_eq!(reader.id(), EntryId(5));
}

// ── scan_to_after() tests ─────────────────────────────────────────────────

#[test]
fn scan_to_after_returns_offset_past_target() {
    let file = write_to_file(&[(1, b"a"), (2, b"b"), (3, b"c")]);
    let mut scanner = FrameScanner::new(file, 0);
    let after = scanner.scan_to_after(EntryId(2)).unwrap();
    // After scanning past id=2, the scanner is positioned at the start of id=3.
    let mut reader = scanner.read().unwrap().unwrap();
    assert_eq!(reader.id(), EntryId(3));
    // `after` equals two frames of size HEADER_LEN + 1 byte payload each.
    assert_eq!(after, 2 * (HEADER_LEN as u64 + 1));
}

// ── writer_len_tracking ───────────────────────────────────────────────────

#[test]
fn writer_len_tracking() {
    let mut w = FrameBuffer::new();
    assert_eq!(w.len(), 0);
    w.write(EntryId(1), b"ab");
    assert_eq!(w.len(), HEADER_LEN + 2);
    w.write(EntryId(2), b"cdef");
    assert_eq!(w.len(), 2 * HEADER_LEN + 6);
    w.clear();
    assert_eq!(w.len(), 0);
}

// ── further cases ─────────────────────────────────────────────────────────────

#[test]
fn checksum_is_xxhash64_of_id_and_payload() {
    // xxHash-64 with seed 0 over eight zero bytes, and over the bytes of "\0..\x01hello".
    assert_eq!(checksum(EntryId(0), b""), xxhash_rust::xxh64::xxh64(&[0u8; 8], 0));
    let mut input = vec![0, 0, 0, 0, 0, 0, 0, 1];
    input.extend_from_slice(b"hello");
    assert_eq!(checksum(EntryId(1), b"hello"), xxhash_rust::xxh64::xxh64(&input, 0));
    assert_ne!(checksum(EntryId(1), b"hello"), checksum(EntryId(2), b"hello"));
}

#[test]
fn frame_layout_is_big_endian() {
    let mut w = FrameBuffer::new();
    w.write(EntryId(0x0102030405060708), b"ab");
    let bytes = w.pending();
    assert_eq!(&bytes[..8], &[1, 2, 3, 4, 5, 6, 7, 8]);
    assert_eq!(&bytes[8..12], &[0, 0, 0, 2]);
    assert_eq!(&bytes[12..20], &checksum(EntryId(0x0102030405060708), b"ab").to_be_bytes());
    assert_eq!(&bytes[20..], b"ab");
}

#[test]
fn cursor_advances_when_flushed() {
    let mut c = FrameCursor::new(8);
    c.write(EntryId(1), b"abc");
    assert_eq!(c.position(), 8);
    assert_eq!(c.pending().len(), HEADER_LEN + 3);
    c.flush();
    assert_eq!(c.position(), 8 + HEADER_LEN as u64 + 3);
    assert!(c.pending().is_empty());
    c.set_position(8);
    assert_eq!(c.position(), 8);
}

#[test]
fn empty_payloads_are_passed_over() {
    let file = write_to_file(&[(1, b""), (2, b"b"), (3, b"")]);
    let mut scanner = FrameScanner::new(file.clone(), 0);
    for id in [1u64, 2, 3] {
        let reader = scanner.read().unwrap().unwrap();
        assert_eq!(reader.id(), EntryId(id));
    }
    assert!(scanner.read().unwrap().is_none());
    assert_eq!(scanner.position(), file.len() as u64);
}

#[test]
fn scanning_starts_at_the_offset() {
    let file = write_to_file(&[(1, b"a"), (2, b"b")]);
    let mut scanner = FrameScanner::new(file, HEADER_LEN as u64 + 1);
    assert_eq!(scanner.position(), 21);
    assert_eq!(scanner.check().unwrap(), Some((EntryId(2), 21)));
}

#[test]
fn scan_to_after_unknown_id_is_an_error() {
    let file = write_to_file(&[(1, b"a")]);
    let mut scanner = FrameScanner::new(file, 0);
    assert_eq!(scanner.scan_to_after(EntryId(7)), Err(ScanError::Truncated { offset: 21 }));
}

#[test]
fn payload_is_read_in_pieces() {
    let file = write_to_file(&[(1, b"hello")]);
    let mut scanner = FrameScanner::new(file, 0);
    let mut reader = scanner.read().unwrap().unwrap();
    let mut buf = [0u8; 3];
    assert_eq!(reader.read(&mut buf), Ok(3));
    assert_eq!(&buf, b"hel");
    assert_eq!(reader.read(&mut buf), Ok(2));
    assert_eq!(&buf, b"lol");
    assert_eq!(reader.read(&mut buf), Ok(0));
}

#[test]
fn short_payload_is_an_unexpected_end() {
    let mut file = write_to_file(&[(1, b"hello")]);
    file.truncate(HEADER_LEN + 2);
    let mut scanner = FrameScanner::new(file, 0);
    let mut reader = scanner.read().unwrap().unwrap();
    let mut out = Vec::new();
    assert_eq!(reader.read_to_end(&mut out), Err(IoFault::UnexpectedEof));
    assert_eq!(out, b"he");
}

#[test]
fn every_proper_prefix_of_a_frame_is_a_torn_tail() {
    let whole = write_to_file(&[(1, b"first")]);
    let second = write_to_file(&[(2, b"second")]);
    for cut in 1..second.len() {
        let mut file = whole.clone();
        file.extend_from_slice(&second[..cut]);
        let summary = FrameScanner::new(file, 0).scan_all(1);
        assert_eq!(summary.status, ScanStatus::TornTail);
        assert_eq!(summary.count, 1);
        assert_eq!(summary.next_offset, whole.len() as u64);
        assert_eq!(summary.last_id, Some(EntryId(1)));
    }
}

#[test]
fn cutting_at_the_frontier_leaves_a_clean_file() {
    let mut file = write_to_file(&[(1, b"a"), (2, b"b")]);
    file.extend_from_slice(&[9, 9, 9]);
    let torn = FrameScanner::new(file.clone(), 0).scan_all(1);
    file.truncate(torn.next_offset as usize);
    let summary = FrameScanner::new(file, 0).scan_all(1);
    assert_eq!(summary.status, ScanStatus::Clean);
    assert_eq!(summary.count, torn.count);
    assert_eq!(summary.checkpoints, torn.checkpoints);
}

#[test]
fn scan_all_leaves_the_scanner_behind_what_it_read() {
    let whole = write_to_file(&[(1, b"a"), (2, b"b")]);
    let len = whole.len() as u64;

    let mut scanner = FrameScanner::new(whole.clone(), 0);
    assert_eq!(scanner.scan_all(1).next_offset, len);
    assert_eq!(scanner.position(), len);

    // A torn frame is used up, and the position stays at the frontier.
    let mut scanner = FrameScanner::new(whole[..whole.len() - 1].to_vec(), 0);
    assert_eq!(scanner.scan_all(1).next_offset, len / 2);
    assert_eq!(scanner.position(), len / 2);
    assert!(scanner.at_end());

    // A corrupt frame is passed over.
    let mut corrupt = whole.clone();
    corrupt[HEADER_LEN] ^= 0xff;
    let mut scanner = FrameScanner::new(corrupt, 0);
    assert_eq!(scanner.scan_all(1).next_offset, 0);
    assert_eq!(scanner.position(), len / 2);
    assert!(scanner.read().unwrap().is_some());
}
