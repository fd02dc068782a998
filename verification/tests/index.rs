use woodshed::index::{EntryIndex, IndexPosition, SegmentIndex};
use woodshed::{EntryId, SegmentId};


fn seg(n: u32) -> SegmentId { SegmentId(n) }
fn entry(n: u64) -> EntryId { EntryId(n) }

// ── SegmentIndex ──────────────────────────────────────────────────────────

/// Two checkpoints: entry(0) at offset 8, entry(64) at offset 1024.
fn seg_index() -> SegmentIndex {
    SegmentIndex::new(vec![(entry(0), 8), (entry(64), 1024)])
}

#[test]
fn seg_find_exact_match() {
    assert_eq!(seg_index().find(entry(64)), Some((entry(64), 1024)));
}

#[test]
fn seg_find_floor() {
    assert_eq!(seg_index().find(entry(100)), Some((entry(64), 1024)));
}

#[test]
fn seg_find_before_first_checkpoint_returns_none() {
    let s = SegmentIndex::new(vec![(entry(50), 8)]);
    assert!(s.find(entry(10)).is_none());
}

#[test]
fn seg_find_on_empty_returns_none() {
    assert!(SegmentIndex::new(vec![]).find(entry(0)).is_none());
}

#[test]
fn seg_truncate_start_removes_earlier_checkpoints() {
    let mut s = seg_index();
    s.truncate_start(entry(64));
    assert!(s.find(entry(0)).is_none());
    assert_eq!(s.find(entry(64)), Some((entry(64), 1024)));
}

#[test]
fn seg_truncate_end_removes_later_checkpoints() {
    let mut s = seg_index();
    s.truncate_end(entry(63));
    assert_eq!(s.find(entry(0)), Some((entry(0), 8)));
    // entry(64) checkpoint removed; floor falls back to entry(0)
    assert_eq!(s.find(entry(64)), Some((entry(0), 8)));
}

#[test]
fn seg_truncate_end_on_boundary_keeps_that_checkpoint() {
    let mut s = seg_index();
    s.truncate_end(entry(64));
    assert_eq!(s.find(entry(64)), Some((entry(64), 1024)));
}

#[test]
fn seg_checkpoint_accessor() {
    let s = seg_index();
    assert_eq!(s.checkpoint(0), Some((entry(0), 8)));
    assert_eq!(s.checkpoint(1), Some((entry(64), 1024)));
    assert!(s.checkpoint(2).is_none());
}

// ── gappy ids ─────────────────────────────────────────────────────────────

#[test]
fn seg_find_with_gappy_ids() {
    // checkpoints at 1, 100, 500 — large gaps between ids
    let s = SegmentIndex::new(vec![(entry(1), 8), (entry(100), 500), (entry(500), 9000)]);
    assert_eq!(s.find(entry(1)),   Some((entry(1), 8)));
    assert_eq!(s.find(entry(50)),  Some((entry(1), 8)));
    assert_eq!(s.find(entry(100)), Some((entry(100), 500)));
    assert_eq!(s.find(entry(300)), Some((entry(100), 500)));
    assert_eq!(s.find(entry(500)), Some((entry(500), 9000)));
    assert_eq!(s.find(entry(999)), Some((entry(500), 9000)));
    assert!(s.find(entry(0)).is_none());
}

// ── EntryIndex ────────────────────────────────────────────────────────────

fn populated() -> EntryIndex {
    let mut idx = EntryIndex::new();
    // seg(1): checkpoints at entry(0) and entry(64)
    idx.add_segment(seg(1), SegmentIndex::new(vec![(entry(0), 8), (entry(64), 1024)]));
    // seg(2): checkpoints at entry(128) and entry(192)
    idx.add_segment(seg(2), SegmentIndex::new(vec![(entry(128), 8), (entry(192), 1024)]));
    idx
}

#[test]
fn find_exact_match() {
    assert_eq!(
        populated().find(entry(64)),
        Some(IndexPosition { segment: seg(1), checkpoint: entry(64), byte_offset: 1024 })
    );
}

#[test]
fn find_between_points_returns_floor() {
    assert_eq!(
        populated().find(entry(100)),
        Some(IndexPosition { segment: seg(1), checkpoint: entry(64), byte_offset: 1024 })
    );
}

#[test]
fn find_before_all_segments_returns_none() {
    let mut idx = EntryIndex::new();
    idx.add_segment(seg(1), SegmentIndex::new(vec![(entry(50), 8)]));
    assert!(idx.find(entry(10)).is_none());
}

#[test]
fn find_on_empty_index_returns_none() {
    assert!(EntryIndex::new().find(entry(0)).is_none());
}

#[test]
fn find_last_point() {
    assert_eq!(
        populated().find(entry(999)),
        Some(IndexPosition { segment: seg(2), checkpoint: entry(192), byte_offset: 1024 })
    );
}

#[test]
fn truncate_start_drops_earlier_segment() {
    let mut idx = populated();
    idx.truncate_start(entry(128));
    assert!(idx.find(entry(64)).is_none());
    assert_eq!(
        idx.find(entry(128)),
        Some(IndexPosition { segment: seg(2), checkpoint: entry(128), byte_offset: 8 })
    );
}

#[test]
fn truncate_start_at_first_entry_keeps_all() {
    let mut idx = populated();
    idx.truncate_start(entry(0));
    assert_eq!(
        idx.find(entry(0)),
        Some(IndexPosition { segment: seg(1), checkpoint: entry(0), byte_offset: 8 })
    );
}

#[test]
fn truncate_end_drops_later_segment() {
    let mut idx = populated();
    idx.truncate_end(entry(127));
    assert_eq!(
        idx.find(entry(64)),
        Some(IndexPosition { segment: seg(1), checkpoint: entry(64), byte_offset: 1024 })
    );
    // seg2 gone; entry 128 now floors to seg1's last checkpoint
    assert_eq!(
        idx.find(entry(128)),
        Some(IndexPosition { segment: seg(1), checkpoint: entry(64), byte_offset: 1024 })
    );
}

#[test]
fn truncate_end_on_exact_boundary_keeps_that_point() {
    let mut idx = populated();
    idx.truncate_end(entry(128));
    assert_eq!(
        idx.find(entry(128)),
        Some(IndexPosition { segment: seg(2), checkpoint: entry(128), byte_offset: 8 })
    );
    // entry(192) checkpoint trimmed; floors to entry(128)
    assert_eq!(
        idx.find(entry(192)),
        Some(IndexPosition { segment: seg(2), checkpoint: entry(128), byte_offset: 8 })
    );
}

#[test]
fn truncate_end_mid_segment() {
    let mut idx = populated();
    idx.truncate_end(entry(191));
    assert_eq!(
        idx.find(entry(128)),
        Some(IndexPosition { segment: seg(2), checkpoint: entry(128), byte_offset: 8 })
    );
    assert_eq!(
        idx.find(entry(192)),
        Some(IndexPosition { segment: seg(2), checkpoint: entry(128), byte_offset: 8 })
    );
}

// ── lookups across segments ───────────────────────────────────────────────────

#[test]
fn index_finds_the_nearest_checkpoint_at_or_below() {
    let idx = populated();
    let ids = [0u64, 64, 128, 192];
    for target in 0..200 {
        let nearest = ids.iter().copied().filter(|id| *id <= target).max().unwrap();
        assert_eq!(idx.find(entry(target)).unwrap().checkpoint, entry(nearest));
    }
}

#[test]
fn index_after_truncation_finds_what_is_left() {
    for bound in 0..200 {
        let mut idx = populated();
        idx.truncate_end(entry(bound));
        for target in 0..200 {
            assert_eq!(idx.find(entry(target)), populated().find(entry(target.min(bound))));
        }
        let mut idx = populated();
        idx.truncate_start(entry(bound));
        for target in 0..200 {
            let kept = populated().find(entry(target)).filter(|p| p.checkpoint.0 >= bound);
            assert_eq!(idx.find(entry(target)), kept);
        }
    }
}
