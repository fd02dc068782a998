use std::collections::HashSet;

use woodshed::codec::{DecodeError, OP_META, TAG_META, TAG_META_KEY, TAG_META_VALUE, TAG_OP_TYPE};
use woodshed::state::{ApplyError, ManifestOp, Op, SealInfo, StoreState};
use woodshed::{EntryId, SegmentId};
use yatlv::{FrameBuilder, FrameBuilderLike};

fn dead_set(s: &StoreState) -> HashSet<SegmentId> {
    s.dead().iter().copied().collect()
}


fn seg(n: u32) -> SegmentId { SegmentId(n) }
fn entry(n: u64) -> EntryId { EntryId(n) }

fn apply(s: &mut StoreState, op: Op) -> Result<(), ApplyError> {
    s.apply(ManifestOp::bare(op))
}

fn state_with_one_segment() -> StoreState {
    let mut s = StoreState::empty();
    apply(&mut s, Op::CreateSegment { id: seg(1), first_entry: entry(0) }).unwrap();
    s
}

fn roll(s: &mut StoreState, sealed: u32, first: u64, last: u64, count: u32, size: u64, new: u32, new_first: u64) {
    apply(s, Op::RollSegment {
        sealed_id: seg(sealed), first_entry: entry(first), last_entry: entry(last),
        entry_count: count, final_size: size,
        new_id: seg(new), new_first_entry: entry(new_first),
    }).unwrap();
}

// ── state machine ─────────────────────────────────────────────────────────

#[test]
fn create_segment_initialises_state() {
    let s = state_with_one_segment();
    assert_eq!(s.first_entry(), entry(0));
    assert_eq!(s.segments().len(), 1);
    assert_eq!(s.active_segment_id(), Some(seg(1)));
    assert!(s.seal(seg(1)).is_none());
}

#[test]
fn create_segment_fails_if_not_empty() {
    let mut s = state_with_one_segment();
    assert!(matches!(
        apply(&mut s, Op::CreateSegment { id: seg(2), first_entry: entry(0) }),
        Err(ApplyError::StoreNotEmpty)
    ));
}

#[test]
fn roll_segment_seals_and_opens_next() {
    let mut s = state_with_one_segment();
    roll(&mut s, 1, 0, 99, 100, 1024, 2, 100);
    assert_eq!(s.segments().len(), 2);
    assert_eq!(s.seal(seg(1)), Some(&SealInfo {
        first_entry: entry(0), last_entry: entry(99), entry_count: 100, final_size: 1024,
    }));
    assert_eq!(s.active_segment_id(), Some(seg(2)));
    assert!(s.seal(seg(2)).is_none());
}

#[test]
fn roll_segment_wrong_id_fails() {
    let mut s = state_with_one_segment();
    assert!(matches!(
        apply(&mut s, Op::RollSegment {
            sealed_id: seg(99), first_entry: entry(0), last_entry: entry(99),
            entry_count: 100, final_size: 0,
            new_id: seg(2), new_first_entry: entry(100),
        }),
        Err(ApplyError::NotActiveSegment(_))
    ));
}

#[test]
fn truncate_start_moves_segments_to_dead() {
    let mut s = state_with_one_segment();
    roll(&mut s, 1, 0, 99, 100, 1024, 2, 100);
    roll(&mut s, 2, 100, 199, 100, 1024, 3, 200);
    apply(&mut s, Op::TruncateStart { first_entry: entry(150), drop: vec![seg(1)] }).unwrap();
    assert_eq!(s.first_entry(), entry(150));
    assert_eq!(s.segments().len(), 2);
    assert_eq!(s.segments()[0].id, seg(2));
    assert_eq!(dead_set(&s), HashSet::from([seg(1)]));
    assert!(s.seal(seg(1)).is_none());
}

#[test]
fn truncate_start_before_first_fails() {
    let mut s = state_with_one_segment();
    apply(&mut s, Op::TruncateStart { first_entry: entry(50), drop: vec![] }).unwrap();
    assert!(matches!(
        apply(&mut s, Op::TruncateStart { first_entry: entry(10), drop: vec![] }),
        Err(ApplyError::TruncateStartBeforeFirst(_))
    ));
}

#[test]
fn truncate_end_moves_segments_to_dead_and_reactivates() {
    let mut s = state_with_one_segment();
    roll(&mut s, 1, 0, 99, 100, 1024, 2, 100);
    roll(&mut s, 2, 100, 199, 100, 1024, 3, 200);
    apply(&mut s, Op::TruncateEnd {
        new_active_id: seg(1), byte_offset: 512, drop: vec![seg(2), seg(3)],
    }).unwrap();
    assert_eq!(s.segments().len(), 1);
    assert_eq!(s.active_segment_id(), Some(seg(1)));
    assert!(s.seal(seg(1)).is_none());
    assert_eq!(dead_set(&s), HashSet::from([seg(2), seg(3)]));
}

#[test]
fn truncate_end_unknown_segment_fails() {
    let mut s = state_with_one_segment();
    assert!(matches!(
        apply(&mut s, Op::TruncateEnd { new_active_id: seg(99), byte_offset: 0, drop: vec![] }),
        Err(ApplyError::SegmentNotFound(_))
    ));
}

#[test]
fn segment_deleted_removes_from_dead_set() {
    let mut s = state_with_one_segment();
    roll(&mut s, 1, 0, 99, 100, 1024, 2, 100);
    apply(&mut s, Op::TruncateStart { first_entry: entry(100), drop: vec![seg(1)] }).unwrap();
    apply(&mut s, Op::SegmentDeleted { id: seg(1) }).unwrap();
    assert!(!s.dead().contains(&seg(1)));
}

#[test]
fn segment_deleted_on_live_segment_fails() {
    let mut s = state_with_one_segment();
    assert!(matches!(
        apply(&mut s, Op::SegmentDeleted { id: seg(1) }),
        Err(ApplyError::SegmentNotDead(_))
    ));
}

#[test]
fn record_orphan_adds_to_dead_set() {
    let mut s = state_with_one_segment();
    apply(&mut s, Op::RecordOrphan { id: seg(99) }).unwrap();
    assert!(s.dead().contains(&seg(99)));
    assert_eq!(s.segments().len(), 1);
}

#[test]
fn record_orphan_idempotent() {
    let mut s = state_with_one_segment();
    apply(&mut s, Op::RecordOrphan { id: seg(99) }).unwrap();
    apply(&mut s, Op::RecordOrphan { id: seg(99) }).unwrap();
    assert!(s.dead().contains(&seg(99)));
}

// ── metadata ─────────────────────────────────────────────────────────────

#[test]
fn noop_applies_meta_pairs() {
    let mut s = state_with_one_segment();
    s.apply(ManifestOp::with_meta(Op::Metadata, vec![(1, b"val1".to_vec()), (2, b"val2".to_vec())])).unwrap();
    let meta = s.metadata();
    assert_eq!(meta.iter().find(|(k, _)| *k == 1).map(|(_, v)| v.as_slice()), Some(b"val1".as_ref()));
    assert_eq!(meta.iter().find(|(k, _)| *k == 2).map(|(_, v)| v.as_slice()), Some(b"val2".as_ref()));
}

#[test]
fn meta_last_write_wins() {
    let mut s = state_with_one_segment();
    s.apply(ManifestOp::with_meta(Op::Metadata, vec![(1, b"first".to_vec())])).unwrap();
    s.apply(ManifestOp::with_meta(Op::Metadata, vec![(1, b"second".to_vec())])).unwrap();
    let meta = s.metadata();
    assert_eq!(meta.iter().find(|(k, _)| *k == 1).map(|(_, v)| v.as_slice()), Some(b"second".as_ref()));
    assert_eq!(meta.len(), 1);
}

#[test]
fn structural_op_carries_meta() {
    let mut s = state_with_one_segment();
    s.apply(ManifestOp::with_meta(
        Op::RollSegment {
            sealed_id: seg(1), first_entry: entry(0), last_entry: entry(9),
            entry_count: 10, final_size: 512,
            new_id: seg(2), new_first_entry: entry(10),
        },
        vec![(42, b"data".to_vec())],
    )).unwrap();
    assert_eq!(s.active_segment_id(), Some(seg(2)));
    assert_eq!(s.metadata().iter().find(|(k, _)| *k == 42).map(|(_, v)| v.as_slice()), Some(b"data".as_ref()));
}

// ── codec roundtrips ──────────────────────────────────────────────────────

fn roundtrip(e: ManifestOp) -> ManifestOp {
    ManifestOp::decode(&e.encode()).unwrap()
}

#[test]
fn codec_create_segment() {
    let e = ManifestOp::bare(Op::CreateSegment { id: seg(7), first_entry: entry(42) });
    assert_eq!(roundtrip(e.clone()), e);
}

#[test]
fn codec_roll_segment() {
    let e = ManifestOp::bare(Op::RollSegment {
        sealed_id: seg(1), first_entry: entry(0), last_entry: entry(99),
        entry_count: 100, final_size: 65536,
        new_id: seg(2), new_first_entry: entry(100),
    });
    assert_eq!(roundtrip(e.clone()), e);
}

#[test]
fn codec_truncate_start() {
    let e = ManifestOp::bare(Op::TruncateStart { first_entry: entry(500), drop: vec![seg(1), seg(2)] });
    assert_eq!(roundtrip(e.clone()), e);
}

#[test]
fn codec_truncate_end() {
    let e = ManifestOp::bare(Op::TruncateEnd {
        new_active_id: seg(2), byte_offset: 1024, drop: vec![seg(3), seg(4)],
    });
    assert_eq!(roundtrip(e.clone()), e);
}

#[test]
fn codec_segment_deleted() {
    let e = ManifestOp::bare(Op::SegmentDeleted { id: seg(9) });
    assert_eq!(roundtrip(e.clone()), e);
}

#[test]
fn codec_record_orphan() {
    let e = ManifestOp::bare(Op::RecordOrphan { id: seg(42) });
    assert_eq!(roundtrip(e.clone()), e);
}

#[test]
fn codec_noop() {
    let e = ManifestOp::bare(Op::Metadata);
    assert_eq!(roundtrip(e.clone()), e);
}

#[test]
fn codec_with_meta() {
    let e = ManifestOp::with_meta(Op::Metadata, vec![(1u8, b"hello".to_vec()), (255u8, vec![0xde, 0xad])]);
    assert_eq!(roundtrip(e.clone()), e);
}

#[test]
fn codec_unknown_op_type() {
    let mut buf = Vec::new();
    { let mut f = FrameBuilder::new(&mut buf); f.add_u8(TAG_OP_TYPE, 0xff); }
    assert!(matches!(ManifestOp::decode(&buf), Err(DecodeError::UnknownOpType(0xff))));
}

#[test]
fn codec_empty_payload() {
    assert!(matches!(ManifestOp::decode(&[]), Err(DecodeError::Format(_))));
}

#[test]
fn codec_truncated_create_segment() {
    let encoded = ManifestOp::bare(Op::CreateSegment { id: seg(1), first_entry: entry(0) }).encode();
    assert!(matches!(ManifestOp::decode(&encoded[..5]), Err(DecodeError::Format(_))));
}

#[test]
fn metadata_pairs_are_nested_frames() {
    let e = ManifestOp::with_meta(Op::Metadata, vec![(7u8, vec![0xde, 0xad])]);
    let mut nested = Vec::new();
    {
        let mut f = FrameBuilder::new(&mut nested);
        f.add_u8(TAG_META_KEY, 7);
        f.add_data(TAG_META_VALUE, &[0xde, 0xad]);
    }
    assert_eq!(nested.len(), 5 + 7 + 8);
    let mut expected = Vec::new();
    {
        let mut f = FrameBuilder::new(&mut expected);
        f.add_u8(TAG_OP_TYPE, OP_META);
        f.add_data(TAG_META, &nested);
    }
    // Two fields.
    assert_eq!(&expected[..5], &[1, 0, 0, 0, 2]);
    assert_eq!(e.encode(), expected);
}

// ── what every record keeps ───────────────────────────────────────────────────

/// Distinct live ids, the active segment last, exactly the others sealed.
fn in_order(s: &StoreState) -> bool {
    let ids: Vec<SegmentId> = s.segments().iter().map(|x| x.id).collect();
    let distinct: HashSet<SegmentId> = ids.iter().copied().collect();
    distinct.len() == ids.len()
        && s.active_segment_id() == ids.last().copied()
        && ids.iter().all(|id| s.seal(*id).is_some() == (Some(*id) != s.active_segment_id()))
}

#[test]
fn state_stays_in_order_and_forgets_no_segment() {
    let mut s = StoreState::empty();
    assert!(in_order(&s));
    apply(&mut s, Op::CreateSegment { id: seg(1), first_entry: entry(0) }).unwrap();
    for n in 1..5u32 {
        let (first, new_first) = (100 * (n as u64 - 1), 100 * n as u64);
        roll(&mut s, n, first, new_first - 1, 100, 1024, n + 1, new_first);
        assert!(in_order(&s));
    }
    apply(&mut s, Op::TruncateStart { first_entry: entry(150), drop: vec![seg(1)] }).unwrap();
    assert!(in_order(&s));
    apply(&mut s, Op::TruncateEnd {
        new_active_id: seg(3), byte_offset: 64, drop: vec![seg(4), seg(5)],
    }).unwrap();
    assert!(in_order(&s));
    assert_eq!(s.first_entry(), entry(150));
    let live: Vec<(SegmentId, EntryId)> = s.segments().iter().map(|x| (x.id, x.first_entry)).collect();
    assert_eq!(live, vec![(seg(2), entry(100)), (seg(3), entry(200))]);
    assert_eq!(dead_set(&s), HashSet::from([seg(1), seg(4), seg(5)]));
    apply(&mut s, Op::SegmentDeleted { id: seg(4) }).unwrap();
    apply(&mut s, Op::RecordOrphan { id: seg(9) }).unwrap();
    assert!(in_order(&s));
    assert_eq!(dead_set(&s), HashSet::from([seg(1), seg(5), seg(9)]));
}
