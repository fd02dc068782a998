//! The state of a store, and the operations that change it.

use std::collections::HashMap;

use vstd::prelude::*;

use crate::{EntryId, SegmentId};

verus! {

broadcast use vstd::std_specs::hash::group_hash_axioms;

// ── ManifestOp ────────────────────────────────────────────────────────────────

/// A structural change of the store.
#[derive(Debug, Clone, PartialEq)]
pub enum Op {
    /// Create the first segment. Only valid on an empty store.
    CreateSegment { id: SegmentId, first_entry: EntryId },
    /// Seal the active segment and open the next. Single atomic operation.
    RollSegment {
        sealed_id: SegmentId,
        first_entry: EntryId,
        last_entry: EntryId,
        entry_count: u32,
        final_size: u64,
        new_id: SegmentId,
        new_first_entry: EntryId,
    },
    /// Advance the log head. Listed segments move to dead; first_entry is the
    /// new log head.
    TruncateStart { first_entry: EntryId, drop: Vec<SegmentId> },
    /// Roll back the log tail. Listed segments move to dead; new_active_id is
    /// re-activated, with its write frontier at byte_offset.
    TruncateEnd { new_active_id: SegmentId, byte_offset: u64, drop: Vec<SegmentId> },
    /// Record that a dead segment's file has been deleted. Removes it from the
    /// dead set.
    SegmentDeleted { id: SegmentId },
    /// Record a segment file found on disk with no manifest history. Added to
    /// the dead set, so that routine cleanup deletes it and no new segment
    /// takes its id.
    RecordOrphan { id: SegmentId },
    /// No structural effect. Exists to carry metadata pairs to disk, and to
    /// record that a store goes on after a rollback.
    Metadata,
}

/// What an [`Op`] says.
pub ghost enum OpView {
    CreateSegment { id: SegmentId, first_entry: EntryId },
    RollSegment { sealed_id: SegmentId, seal: SealInfo, new_id: SegmentId, new_first_entry: EntryId },
    TruncateStart { first_entry: EntryId, drop: Seq<SegmentId> },
    TruncateEnd { new_active_id: SegmentId, byte_offset: u64, drop: Seq<SegmentId> },
    SegmentDeleted { id: SegmentId },
    RecordOrphan { id: SegmentId },
    Metadata,
}

impl View for Op {
    type V = OpView;

    open spec fn view(&self) -> OpView {
        match *self {
            Op::CreateSegment { id, first_entry } => OpView::CreateSegment { id, first_entry },
            Op::RollSegment {
                sealed_id,
                first_entry,
                last_entry,
                entry_count,
                final_size,
                new_id,
                new_first_entry,
            } => OpView::RollSegment {
                sealed_id,
                seal: SealInfo { first_entry, last_entry, entry_count, final_size },
                new_id,
                new_first_entry,
            },
            Op::TruncateStart { first_entry, drop } => OpView::TruncateStart {
                first_entry,
                drop: drop@,
            },
            Op::TruncateEnd { new_active_id, byte_offset, drop } => OpView::TruncateEnd {
                new_active_id,
                byte_offset,
                drop: drop@,
            },
            Op::SegmentDeleted { id } => OpView::SegmentDeleted { id },
            Op::RecordOrphan { id } => OpView::RecordOrphan { id },
            Op::Metadata => OpView::Metadata,
        }
    }
}

/// A manifest record: a structural [`Op`] paired with zero or more metadata
/// key-value pairs.
///
/// On replay each pair overwrites the corresponding key in the metadata of the
/// [`StoreState`], so repeated writes to the same key are last-write-wins.
#[derive(Debug, Clone, PartialEq)]
pub struct ManifestOp {
    pub op: Op,
    pub meta: Vec<(u8, Vec<u8>)>,
}

/// What a [`ManifestOp`] says.
#[verifier::ext_equal]
pub ghost struct ManifestOpView {
    pub op: OpView,
    pub meta: Seq<(u8, Seq<u8>)>,
}

/// Metadata pairs as plain values.
pub open spec fn meta_view(meta: Seq<(u8, Vec<u8>)>) -> Seq<(u8, Seq<u8>)> {
    Seq::new(meta.len(), |i: int| (meta[i].0, meta[i].1@))
}

impl View for ManifestOp {
    type V = ManifestOpView;

    open spec fn view(&self) -> ManifestOpView {
        ManifestOpView { op: self.op@, meta: meta_view(self.meta@) }
    }
}

impl ManifestOp {
    /// Wrap a structural op with no metadata.
    pub fn bare(op: Op) -> (e: Self)
        ensures
            e@ == (ManifestOpView { op: op@, meta: Seq::<(u8, Seq<u8>)>::empty() }),
    {
        let e = Self { op, meta: Vec::new() };
        assert(e@.meta =~= Seq::<(u8, Seq<u8>)>::empty());
        e
    }

    /// Wrap a structural op with metadata pairs.
    pub fn with_meta(op: Op, meta: Vec<(u8, Vec<u8>)>) -> (e: Self)
        ensures
            e.op == op,
            e.meta == meta,
    {
        Self { op, meta }
    }
}

// ── State ─────────────────────────────────────────────────────────────────────

/// A live segment and the id of the first entry it may hold.
#[derive(Debug, Clone, Copy, PartialEq, Eq, Structural)]
pub struct SegmentEntry {
    pub id: SegmentId,
    pub first_entry: EntryId,
}

/// What was recorded when a segment was sealed.
#[derive(Debug, Clone, Copy, PartialEq, Eq, Structural)]
pub struct SealInfo {
    pub first_entry: EntryId,
    pub last_entry: EntryId,
    pub entry_count: u32,
    pub final_size: u64,
}

/// What a [`StoreState`] holds: the live segments in order, the seals, the
/// segment that is written to, the dead segments in the order in which they
/// died, the oldest accessible entry, and the metadata.
///
/// After a rollback `cut_at` is where the active segment ends, whatever its file
/// holds, until a record tells that the store has gone on.
#[verifier::ext_equal]
pub ghost struct StateView {
    pub segments: Seq<SegmentEntry>,
    pub seals: Map<SegmentId, SealInfo>,
    pub active: Option<SegmentId>,
    pub dead: Seq<SegmentId>,
    pub first_entry: EntryId,
    pub meta: Seq<(u8, Seq<u8>)>,
    pub cut_at: Option<u64>,
}

impl StateView {
    /// The state of a store without segments.
    pub open spec fn empty() -> StateView {
        StateView {
            segments: Seq::empty(),
            seals: Map::empty(),
            active: None,
            dead: Seq::empty(),
            first_entry: EntryId(0),
            meta: Seq::empty(),
            cut_at: None,
        }
    }

    /// `id` is the id of a live segment.
    pub open spec fn is_live(self, id: SegmentId) -> bool {
        exists|i: int| 0 <= i < self.segments.len() && (#[trigger] self.segments[i]).id == id
    }
}

/// The first of `segments` with `id`.
pub open spec fn find_segment(segments: Seq<SegmentEntry>, id: SegmentId) -> Option<SegmentEntry>
    decreases segments.len(),
{
    if segments.len() == 0 {
        None
    } else if segments[0].id == id {
        Some(segments[0])
    } else {
        find_segment(segments.skip(1), id)
    }
}

/// The dead segments once `id` is among them.
pub open spec fn insert_dead(dead: Seq<SegmentId>, id: SegmentId) -> Seq<SegmentId> {
    if dead.contains(id) {
        dead
    } else {
        dead.push(id)
    }
}

/// The segments but those with `id`.
pub open spec fn without_segment(segments: Seq<SegmentEntry>, id: SegmentId) -> Seq<SegmentEntry>
    decreases segments.len(),
{
    if segments.len() == 0 {
        Seq::empty()
    } else {
        let before = without_segment(segments.drop_last(), id);
        if segments.last().id != id {
            before.push(segments.last())
        } else {
            before
        }
    }
}

/// The ids but `id`.
pub open spec fn without_id(ids: Seq<SegmentId>, id: SegmentId) -> Seq<SegmentId>
    decreases ids.len(),
{
    if ids.len() == 0 {
        Seq::empty()
    } else {
        let before = without_id(ids.drop_last(), id);
        if ids.last() != id {
            before.push(ids.last())
        } else {
            before
        }
    }
}

/// The state once segment `id` is dead.
pub open spec fn kill(s: StateView, id: SegmentId) -> StateView {
    StateView {
        segments: without_segment(s.segments, id),
        seals: s.seals.remove(id),
        dead: insert_dead(s.dead, id),
        ..s
    }
}

/// The state once all of `ids` are dead, killed in order.
pub open spec fn kill_all(s: StateView, ids: Seq<SegmentId>) -> StateView
    decreases ids.len(),
{
    if ids.len() == 0 {
        s
    } else {
        kill(kill_all(s, ids.drop_last()), ids.last())
    }
}

/// The first of `ids` that is not the id of a live segment.
pub open spec fn first_missing(s: StateView, ids: Seq<SegmentId>) -> Option<SegmentId>
    decreases ids.len(),
{
    if ids.len() == 0 {
        None
    } else if !s.is_live(ids[0]) {
        Some(ids[0])
    } else {
        first_missing(s, ids.skip(1))
    }
}

/// Where in `meta` the pair with `key` stands.
pub open spec fn find_key(meta: Seq<(u8, Seq<u8>)>, key: u8) -> Option<int>
    decreases meta.len(),
{
    if meta.len() == 0 {
        None
    } else {
        match find_key(meta.drop_last(), key) {
            Some(i) => Some(i),
            None => if meta.last().0 == key {
                Some(meta.len() - 1)
            } else {
                None
            },
        }
    }
}

/// The metadata once `key` has `value`: a key that is there keeps its place.
pub open spec fn set_meta(meta: Seq<(u8, Seq<u8>)>, key: u8, value: Seq<u8>) -> Seq<
    (u8, Seq<u8>),
> {
    match find_key(meta, key) {
        Some(i) => meta.update(i, (key, value)),
        None => meta.push((key, value)),
    }
}

/// The metadata once all of `pairs` are set, in order.
pub open spec fn merge_meta(meta: Seq<(u8, Seq<u8>)>, pairs: Seq<(u8, Seq<u8>)>) -> Seq<
    (u8, Seq<u8>),
>
    decreases pairs.len(),
{
    if pairs.len() == 0 {
        meta
    } else {
        set_meta(merge_meta(meta, pairs.drop_last()), pairs.last().0, pairs.last().1)
    }
}

/// The value of `key`.
pub open spec fn meta_value(meta: Seq<(u8, Seq<u8>)>, key: u8) -> Option<Seq<u8>> {
    match find_key(meta, key) {
        Some(i) => Some(meta[i].1),
        None => None,
    }
}

/// What the structural part of a record does to the state.
pub open spec fn apply_structural(s: StateView, op: OpView) -> Result<StateView, ApplyError> {
    match op {
        OpView::CreateSegment { id, first_entry } => if s.segments.len() > 0 {
            Err(ApplyError::StoreNotEmpty)
        } else {
            Ok(
                StateView {
                    segments: seq![SegmentEntry { id, first_entry }],
                    active: Some(id),
                    first_entry,
                    cut_at: None,
                    ..s
                },
            )
        },
        OpView::RollSegment { sealed_id, seal, new_id, new_first_entry } => if s.active != Some(
            sealed_id,
        ) {
            Err(ApplyError::NotActiveSegment(sealed_id))
        } else {
            Ok(
                StateView {
                    segments: s.segments.push(
                        SegmentEntry { id: new_id, first_entry: new_first_entry },
                    ),
                    seals: s.seals.insert(sealed_id, seal),
                    active: Some(new_id),
                    cut_at: None,
                    ..s
                },
            )
        },
        OpView::TruncateStart { first_entry, drop } => if first_entry.0 < s.first_entry.0 {
            Err(ApplyError::TruncateStartBeforeFirst(first_entry))
        } else {
            Ok(StateView { first_entry, ..kill_all(s, drop) })
        },
        OpView::TruncateEnd { new_active_id, byte_offset, drop } => match first_missing(s, drop) {
            Some(id) => Err(ApplyError::SegmentNotFound(id)),
            None => if !s.is_live(new_active_id) {
                Err(ApplyError::SegmentNotFound(new_active_id))
            } else {
                let rest = kill_all(s, drop);
                Ok(
                    StateView {
                        seals: rest.seals.remove(new_active_id),
                        active: Some(new_active_id),
                        cut_at: Some(byte_offset),
                        ..rest
                    },
                )
            },
        },
        OpView::SegmentDeleted { id } => if !s.dead.contains(id) {
            Err(ApplyError::SegmentNotDead(id))
        } else {
            Ok(StateView { dead: without_id(s.dead, id), ..s })
        },
        OpView::RecordOrphan { id } => Ok(StateView { dead: insert_dead(s.dead, id), ..s }),
        OpView::Metadata => Ok(StateView { cut_at: None, ..s }),
    }
}

/// What a record does to the state: the structural part, then the metadata.
pub open spec fn apply_op(s: StateView, e: ManifestOpView) -> Result<StateView, ApplyError> {
    match apply_structural(s, e.op) {
        Err(err) => Err(err),
        Ok(t) => Ok(StateView { meta: merge_meta(t.meta, e.meta), ..t }),
    }
}

/// The authoritative state of a store, built by replaying its manifest.
#[derive(Debug, Clone)]
pub struct StoreState {
    segments: Vec<SegmentEntry>,
    seals: HashMap<u32, SealInfo>,
    active_segment_id: Option<SegmentId>,
    dead: Vec<SegmentId>,
    first_entry: EntryId,
    meta: Vec<(u8, Vec<u8>)>,
    /// Where the active segment ends after a rollback, until a record tells that
    /// the store has gone on.
    cut_at: Option<u64>,
}

/// Seals by the id of their segment.
pub open spec fn seals_view(seals: Map<u32, SealInfo>) -> Map<SegmentId, SealInfo> {
    Map::new(|id: SegmentId| seals.contains_key(id.0), |id: SegmentId| seals[id.0])
}

impl View for StoreState {
    type V = StateView;

    closed spec fn view(&self) -> StateView {
        StateView {
            segments: self.segments@,
            seals: seals_view(self.seals@),
            active: self.active_segment_id,
            dead: self.dead@,
            first_entry: self.first_entry,
            meta: meta_view(self.meta@),
            cut_at: self.cut_at,
        }
    }
}

/// Why a record does not fit the state.
#[derive(Debug, Clone, Copy, PartialEq, Eq, Structural)]
pub enum ApplyError {
    StoreNotEmpty,
    NotActiveSegment(SegmentId),
    TruncateStartBeforeFirst(EntryId),
    SegmentNotFound(SegmentId),
    SegmentNotDead(SegmentId),
}

impl StoreState {
    pub fn empty() -> (s: Self)
        ensures
            s@ == StateView::empty(),
    {
        let s = Self {
            segments: Vec::new(),
            seals: HashMap::new(),
            active_segment_id: None,
            dead: Vec::new(),
            first_entry: EntryId(0),
            meta: Vec::new(),
            cut_at: None,
        };
        assert(s@ =~= StateView::empty());
        s
    }

    pub fn segments(&self) -> (r: &[SegmentEntry])
        ensures
            r@ == self@.segments,
    {
        self.segments.as_slice()
    }

    pub fn seal(&self, id: SegmentId) -> (r: Option<&SealInfo>)
        ensures
            r == if self@.seals.contains_key(id) {
                Some(&self@.seals[id])
            } else {
                None
            },
    {
        self.seals.get(&id.0)
    }

    pub fn active_segment_id(&self) -> (r: Option<SegmentId>)
        ensures
            r == self@.active,
    {
        self.active_segment_id
    }

    /// The segments whose files may be deleted, in the order in which they died.
    pub fn dead(&self) -> (r: &Vec<SegmentId>)
        ensures
            r@ == self@.dead,
    {
        &self.dead
    }

    pub fn first_entry(&self) -> (r: EntryId)
        ensures
            r == self@.first_entry,
    {
        self.first_entry
    }

    /// Current metadata key-value pairs. Last write per key wins across
    /// manifest replay.
    pub fn metadata(&self) -> (r: &[(u8, Vec<u8>)])
        ensures
            meta_view(r@) == self@.meta,
    {
        self.meta.as_slice()
    }

    /// Where the active segment ends after a rollback, until a record tells that
    /// the store has gone on.
    pub fn cut_at(&self) -> (r: Option<u64>)
        ensures
            r == self@.cut_at,
    {
        self.cut_at
    }

    /// The first live segment with `id`.
    pub fn find(&self, id: SegmentId) -> (r: Option<&SegmentEntry>)
        ensures
            match find_segment(self@.segments, id) {
                None => r is None,
                Some(entry) => r == Some(&entry),
            },
    {
        let ghost segments = self.segments@;
        let mut i: usize = 0;
        assert(segments.skip(0) =~= segments);
        while i < self.segments.len()
            invariant
                i <= self.segments@.len(),
                segments == self.segments@,
                find_segment(segments, id) == find_segment(segments.skip(i as int), id),
            decreases self.segments@.len() - i,
        {
            assert(segments.skip(i as int).skip(1) =~= segments.skip(i + 1));
            assert(segments.skip(i as int)[0] == segments[i as int]);
            if self.segments[i].id == id {
                return Some(&self.segments[i]);
            }
            i = i + 1;
        }
        None
    }

    /// The segment that is written to.
    pub fn active_segment(&self) -> (r: Option<&SegmentEntry>)
        ensures
            match self@.active {
                None => r is None,
                Some(id) => match find_segment(self@.segments, id) {
                    None => r is None,
                    Some(entry) => r == Some(&entry),
                },
            },
    {
        match self.active_segment_id {
            None => None,
            Some(id) => self.find(id),
        }
    }

    pub fn is_empty(&self) -> (b: bool)
        ensures
            b == (self@.segments.len() == 0),
    {
        self.segments.len() == 0
    }

    fn is_live(&self, id: SegmentId) -> (b: bool)
        ensures
            b == self@.is_live(id),
    {
        let mut i: usize = 0;
        while i < self.segments.len()
            invariant
                i <= self.segments@.len(),
                forall|j: int| 0 <= j < i ==> (#[trigger] self.segments@[j]).id != id,
            decreases self.segments@.len() - i,
        {
            if self.segments[i].id == id {
                assert(self@.segments[i as int].id == id);
                return true;
            }
            i = i + 1;
        }
        false
    }

    fn is_dead(&self, id: SegmentId) -> (b: bool)
        ensures
            b == self@.dead.contains(id),
    {
        let mut i: usize = 0;
        while i < self.dead.len()
            invariant
                i <= self.dead@.len(),
                forall|j: int| 0 <= j < i ==> #[trigger] self.dead@[j] != id,
            decreases self.dead@.len() - i,
        {
            if self.dead[i] == id {
                assert(self@.dead[i as int] == id);
                return true;
            }
            i = i + 1;
        }
        false
    }

    /// Every sealed segment has an id below `bound`.
    pub fn seals_below(&self, bound: u32) -> (b: bool)
        ensures
            b == forall|id: SegmentId| #[trigger] self@.seals.contains_key(id) ==> id.0 < bound,
    {
        for key in it: self.seals.keys()
            invariant
                forall|i: int| 0 <= i < it.index() ==> *(#[trigger] it.seq()[i]) < bound,
                it.seq().unref().to_set() == self.seals@.dom(),
        {
            if *key >= bound {
                assert(it.seq().unref().contains(*key)) by {
                    assert(it.seq().unref()[it.index() as int] == *key);
                }
                assert(self@.seals.contains_key(SegmentId(*key)));
                return false;
            }
        }
        true
    }

    /// Apply one record. A record that does not fit leaves the state as it was.
    pub fn apply(&mut self, entry: ManifestOp) -> (r: Result<(), ApplyError>)
        ensures
            match apply_op(old(self)@, entry@) {
                Ok(s) => r is Ok && final(self)@ == s,
                Err(e) => r == Err::<(), ApplyError>(e) && final(self)@ == old(self)@,
            },
    {
        let ManifestOp { op, meta } = entry;
        let structural = match op {
            Op::CreateSegment { id, first_entry } => self.create_segment(id, first_entry),
            Op::RollSegment {
                sealed_id,
                first_entry,
                last_entry,
                entry_count,
                final_size,
                new_id,
                new_first_entry,
            } => self.roll_segment(
                sealed_id,
                SealInfo { first_entry, last_entry, entry_count, final_size },
                new_id,
                new_first_entry,
            ),
            Op::TruncateStart { first_entry, drop } => self.truncate_start(
                first_entry,
                drop.as_slice(),
            ),
            Op::TruncateEnd { new_active_id, byte_offset, drop } => self.truncate_end(
                new_active_id,
                byte_offset,
                drop.as_slice(),
            ),
            Op::SegmentDeleted { id } => self.segment_deleted(id),
            Op::RecordOrphan { id } => {
                self.insert_dead(id);
                Ok(())
            },
            Op::Metadata => {
                self.cut_at = None;
                Ok(())
            },
        };
        match structural {
            Err(e) => return Err(e),
            Ok(()) => {},
        }
        self.merge_meta(meta);
        Ok(())
    }

    fn create_segment(&mut self, id: SegmentId, first_entry: EntryId) -> (r: Result<(), ApplyError>)
        ensures
            match apply_structural(old(self)@, OpView::CreateSegment { id, first_entry }) {
                Ok(s) => r is Ok && final(self)@ == s,
                Err(e) => r == Err::<(), ApplyError>(e) && final(self)@ == old(self)@,
            },
    {
        if !self.is_empty() {
            return Err(ApplyError::StoreNotEmpty);
        }
        self.first_entry = first_entry;
        self.segments.push(SegmentEntry { id, first_entry });
        self.active_segment_id = Some(id);
        self.cut_at = None;
        assert(self@.segments =~= seq![SegmentEntry { id, first_entry }]);
        Ok(())
    }

    fn roll_segment(
        &mut self,
        sealed_id: SegmentId,
        seal: SealInfo,
        new_id: SegmentId,
        new_first_entry: EntryId,
    ) -> (r: Result<(), ApplyError>)
        ensures
            match apply_structural(
                old(self)@,
                OpView::RollSegment { sealed_id, seal, new_id, new_first_entry },
            ) {
                Ok(s) => r is Ok && final(self)@ == s,
                Err(e) => r == Err::<(), ApplyError>(e) && final(self)@ == old(self)@,
            },
    {
        let is_active = match self.active_segment_id {
            Some(id) => id == sealed_id,
            None => false,
        };
        if !is_active {
            return Err(ApplyError::NotActiveSegment(sealed_id));
        }
        self.seals.insert(sealed_id.0, seal);
        self.segments.push(SegmentEntry { id: new_id, first_entry: new_first_entry });
        self.active_segment_id = Some(new_id);
        self.cut_at = None;
        assert(self@.seals =~= old(self)@.seals.insert(sealed_id, seal));
        Ok(())
    }

    fn truncate_start(&mut self, first_entry: EntryId, drop: &[SegmentId]) -> (r: Result<
        (),
        ApplyError,
    >)
        ensures
            match apply_structural(
                old(self)@,
                OpView::TruncateStart { first_entry, drop: drop@ },
            ) {
                Ok(s) => r is Ok && final(self)@ == s,
                Err(e) => r == Err::<(), ApplyError>(e) && final(self)@ == old(self)@,
            },
    {
        if first_entry.0 < self.first_entry.0 {
            return Err(ApplyError::TruncateStartBeforeFirst(first_entry));
        }
        self.kill_segments(drop);
        self.first_entry = first_entry;
        Ok(())
    }

    fn truncate_end(
        &mut self,
        new_active_id: SegmentId,
        byte_offset: u64,
        drop: &[SegmentId],
    ) -> (r: Result<(), ApplyError>)
        ensures
            match apply_structural(
                old(self)@,
                OpView::TruncateEnd { new_active_id, byte_offset, drop: drop@ },
            ) {
                Ok(s) => r is Ok && final(self)@ == s,
                Err(e) => r == Err::<(), ApplyError>(e) && final(self)@ == old(self)@,
            },
    {
        let mut i: usize = 0;
        assert(drop@.skip(0) =~= drop@);
        while i < drop.len()
            invariant
                i <= drop@.len(),
                self@ == old(self)@,
                first_missing(self@, drop@) == first_missing(self@, drop@.skip(i as int)),
            decreases drop@.len() - i,
        {
            assert(drop@.skip(i as int).skip(1) =~= drop@.skip(i + 1));
            if !self.is_live(drop[i]) {
                return Err(ApplyError::SegmentNotFound(drop[i]));
            }
            i = i + 1;
        }
        if !self.is_live(new_active_id) {
            return Err(ApplyError::SegmentNotFound(new_active_id));
        }
        self.kill_segments(drop);
        let ghost killed = self@;
        self.seals.remove(&new_active_id.0);
        self.active_segment_id = Some(new_active_id);
        self.cut_at = Some(byte_offset);
        assert(self@.seals =~= killed.seals.remove(new_active_id));
        Ok(())
    }

    fn kill_segments(&mut self, ids: &[SegmentId])
        ensures
            final(self)@ == kill_all(old(self)@, ids@),
    {
        let mut i: usize = 0;
        assert(ids@.take(0) =~= Seq::<SegmentId>::empty());
        while i < ids.len()
            invariant
                i <= ids@.len(),
                self@ == kill_all(old(self)@, ids@.take(i as int)),
            decreases ids@.len() - i,
        {
            proof {
                let longer = ids@.take(i + 1);
                assert(longer.drop_last() =~= ids@.take(i as int));
            }
            self.kill_segment(ids[i]);
            i = i + 1;
        }
        assert(ids@.take(i as int) =~= ids@);
    }

    fn kill_segment(&mut self, id: SegmentId)
        ensures
            final(self)@ == kill(old(self)@, id),
    {
        self.remove_segment(id);
        self.seals.remove(&id.0);
        assert(self@.seals =~= old(self)@.seals.remove(id));
        self.insert_dead(id);
    }

    /// Drop the live segments with `id`.
    fn remove_segment(&mut self, id: SegmentId)
        ensures
            final(self)@ == (StateView {
                segments: without_segment(old(self)@.segments, id),
                ..old(self)@
            }),
    {
        let ghost segments = self.segments@;
        let mut kept: Vec<SegmentEntry> = Vec::new();
        let mut i: usize = 0;
        assert(segments.take(0) =~= Seq::<SegmentEntry>::empty());
        while i < self.segments.len()
            invariant
                i <= self.segments@.len(),
                self@ == old(self)@,
                segments == self.segments@,
                kept@ == without_segment(segments.take(i as int), id),
            decreases self.segments@.len() - i,
        {
            proof {
                let longer = segments.take(i + 1);
                assert(longer.drop_last() =~= segments.take(i as int));
            }
            if self.segments[i].id != id {
                kept.push(self.segments[i]);
            }
            i = i + 1;
        }
        assert(segments.take(i as int) =~= segments);
        self.segments = kept;
    }

    fn insert_dead(&mut self, id: SegmentId)
        ensures
            final(self)@ == (StateView {
                dead: insert_dead(old(self)@.dead, id),
                ..old(self)@
            }),
    {
        if !self.is_dead(id) {
            self.dead.push(id);
        }
    }

    fn segment_deleted(&mut self, id: SegmentId) -> (r: Result<(), ApplyError>)
        ensures
            match apply_structural(old(self)@, OpView::SegmentDeleted { id }) {
                Ok(s) => r is Ok && final(self)@ == s,
                Err(e) => r == Err::<(), ApplyError>(e) && final(self)@ == old(self)@,
            },
    {
        if !self.is_dead(id) {
            return Err(ApplyError::SegmentNotDead(id));
        }
        let ghost dead = self.dead@;
        let mut kept: Vec<SegmentId> = Vec::new();
        let mut i: usize = 0;
        assert(dead.take(0) =~= Seq::<SegmentId>::empty());
        while i < self.dead.len()
            invariant
                i <= self.dead@.len(),
                self@ == old(self)@,
                dead == self.dead@,
                kept@ == without_id(dead.take(i as int), id),
            decreases self.dead@.len() - i,
        {
            proof {
                let longer = dead.take(i + 1);
                assert(longer.drop_last() =~= dead.take(i as int));
            }
            if self.dead[i] != id {
                kept.push(self.dead[i]);
            }
            i = i + 1;
        }
        assert(dead.take(i as int) =~= dead);
        self.dead = kept;
        Ok(())
    }

    /// Set each of `pairs`, in order.
    fn merge_meta(&mut self, pairs: Vec<(u8, Vec<u8>)>)
        ensures
            final(self)@ == (StateView {
                meta: merge_meta(old(self)@.meta, meta_view(pairs@)),
                ..old(self)@
            }),
    {
        let ghost all = meta_view(pairs@);
        assert(all.take(0) =~= Seq::<(u8, Seq<u8>)>::empty());
        for pair in it: pairs
            invariant
                all == meta_view(it.seq()),
                self@ == (StateView {
                    meta: merge_meta(old(self)@.meta, all.take(it.index() as int)),
                    ..old(self)@
                }),
        {
            proof {
                let longer = all.take(it.index() + 1);
                assert(longer.drop_last() =~= all.take(it.index() as int));
                assert(longer.last() == (pair.0, pair.1@));
            }
            self.set_meta(pair.0, pair.1);
        }
        assert(all.take(all.len() as int) =~= all);
    }

    fn set_meta(&mut self, key: u8, value: Vec<u8>)
        ensures
            final(self)@ == (StateView {
                meta: set_meta(old(self)@.meta, key, value@),
                ..old(self)@
            }),
    {
        let ghost meta = meta_view(self.meta@);
        let mut i: usize = 0;
        assert(meta.take(0) =~= Seq::<(u8, Seq<u8>)>::empty());
        while i < self.meta.len()
            invariant
                i <= self.meta@.len(),
                self@ == old(self)@,
                meta == meta_view(self.meta@),
                find_key(meta.take(i as int), key) is None,
            decreases self.meta@.len() - i,
        {
            assert(meta.take(i + 1).drop_last() =~= meta.take(i as int));
            if self.meta[i].0 == key {
                proof {
                    lemma_find_key_prefix(meta, i + 1, key);
                }
                let ghost new = value@;
                self.meta.set(i, (key, value));
                assert(meta_view(self.meta@) =~= meta.update(i as int, (key, new)));
                return;
            }
            i = i + 1;
        }
        assert(meta.take(i as int) =~= meta);
        let ghost new = value@;
        self.meta.push((key, value));
        assert(meta_view(self.meta@) =~= meta.push((key, new)));
    }
}

/// A key found in a prefix is found at the same place in the whole.
pub proof fn lemma_find_key_prefix(meta: Seq<(u8, Seq<u8>)>, n: int, key: u8)
    requires
        0 <= n <= meta.len(),
        find_key(meta.take(n), key) is Some,
    ensures
        find_key(meta, key) == find_key(meta.take(n), key),
    decreases meta.len() - n,
{
    if n < meta.len() {
        assert(meta.take(n + 1).drop_last() =~= meta.take(n));
        lemma_find_key_prefix(meta, n + 1, key);
    } else {
        assert(meta.take(n) =~= meta);
    }
}

} // verus!
