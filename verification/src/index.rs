//! The sparse in-memory index: where in which segment to start reading.

use vstd::prelude::*;

use crate::{EntryId, SegmentId};

verus! {

// ── SegmentIndex ──────────────────────────────────────────────────────────────

/// Checkpoint ids do not decrease.
pub open spec fn sorted(checkpoints: Seq<(EntryId, u64)>) -> bool {
    forall|i: int, j: int|
        0 <= i <= j < checkpoints.len() ==> (#[trigger] checkpoints[i]).0.0 <= (
        #[trigger] checkpoints[j]).0.0
}

/// Where a binary search between `lo` and `hi` for the end of the ids that are
/// at most `bound` ends.
pub open spec fn search(checkpoints: Seq<(EntryId, u64)>, bound: int, lo: int, hi: int) -> int
    decreases hi - lo,
{
    if lo >= hi {
        lo
    } else {
        let mid = lo + (hi - lo) / 2;
        if checkpoints[mid].0.0 <= bound {
            search(checkpoints, bound, mid + 1, hi)
        } else {
            search(checkpoints, bound, lo, mid)
        }
    }
}

/// How many of the checkpoints, which are meant to be in order, have an id of at
/// most `bound`.
pub open spec fn count_at_most(checkpoints: Seq<(EntryId, u64)>, bound: int) -> int {
    search(checkpoints, bound, 0, checkpoints.len() as int)
}

/// The last checkpoint with an id of at most `target`.
pub open spec fn floor(checkpoints: Seq<(EntryId, u64)>, target: u64) -> Option<(EntryId, u64)> {
    let n = count_at_most(checkpoints, target as int);
    if n > 0 {
        Some(checkpoints[n - 1])
    } else {
        None
    }
}

/// The checkpoints with an id of at least `first`.
pub open spec fn from_id(checkpoints: Seq<(EntryId, u64)>, first: u64) -> Seq<(EntryId, u64)> {
    checkpoints.skip(count_at_most(checkpoints, first - 1))
}

/// The checkpoints with an id of at most `last`.
pub open spec fn up_to_id(checkpoints: Seq<(EntryId, u64)>, last: u64) -> Seq<(EntryId, u64)> {
    checkpoints.take(count_at_most(checkpoints, last as int))
}

pub proof fn lemma_search(cs: Seq<(EntryId, u64)>, bound: int, lo: int, hi: int)
    requires
        0 <= lo <= hi <= cs.len(),
        lo > 0 ==> cs[lo - 1].0.0 <= bound,
        hi < cs.len() ==> cs[hi].0.0 > bound,
    ensures
        ({
            let n = search(cs, bound, lo, hi);
            &&& lo <= n <= hi
            &&& n > 0 ==> cs[n - 1].0.0 <= bound
            &&& n < cs.len() ==> cs[n].0.0 > bound
        }),
    decreases hi - lo,
{
    if lo < hi {
        let mid = lo + (hi - lo) / 2;
        if cs[mid].0.0 <= bound {
            lemma_search(cs, bound, mid + 1, hi);
        } else {
            lemma_search(cs, bound, lo, mid);
        }
    }
}

/// The count is where the ids rise above `bound`. Where the checkpoints are in
/// order, all before it are at most `bound` and all behind it are above.
pub proof fn lemma_count(cs: Seq<(EntryId, u64)>, bound: int)
    ensures
        0 <= count_at_most(cs, bound) <= cs.len(),
        count_at_most(cs, bound) > 0 ==> cs[count_at_most(cs, bound) - 1].0.0 <= bound,
        count_at_most(cs, bound) < cs.len() ==> cs[count_at_most(cs, bound)].0.0 > bound,
        sorted(cs) ==> forall|i: int|
            0 <= i < cs.len() ==> ((#[trigger] cs[i]).0.0 <= bound <==> i < count_at_most(
                cs,
                bound,
            )),
{
    lemma_search(cs, bound, 0, cs.len() as int);
}

/// Per-segment entry index: a list of `(external_id, byte_offset)` checkpoint
/// pairs recorded at a fixed stride during segment scanning. Ids are strictly
/// monotone but not necessarily contiguous.
pub struct SegmentIndex {
    checkpoints: Vec<(EntryId, u64)>,
}

impl View for SegmentIndex {
    type V = Seq<(EntryId, u64)>;

    closed spec fn view(&self) -> Seq<(EntryId, u64)> {
        self.checkpoints@
    }
}

impl SegmentIndex {
    pub fn new(checkpoints: Vec<(EntryId, u64)>) -> (s: Self)
        ensures
            s@ == checkpoints@,
    {
        Self { checkpoints }
    }

    pub fn len(&self) -> (n: usize)
        ensures
            n == self@.len(),
    {
        self.checkpoints.len()
    }

    pub fn is_empty(&self) -> (b: bool)
        ensures
            b == (self@.len() == 0),
    {
        self.checkpoints.len() == 0
    }

    pub fn checkpoint(&self, i: usize) -> (r: Option<(EntryId, u64)>)
        ensures
            r == if i < self@.len() {
                Some(self@[i as int])
            } else {
                None
            },
    {
        if i < self.checkpoints.len() {
            Some(self.checkpoints[i])
        } else {
            None
        }
    }

    /// First checkpoint entry id, or `None` if empty.
    pub fn first_id(&self) -> (r: Option<EntryId>)
        ensures
            r == if self@.len() > 0 {
                Some(self@[0].0)
            } else {
                None
            },
    {
        if self.checkpoints.len() > 0 {
            Some(self.checkpoints[0].0)
        } else {
            None
        }
    }

    /// How many checkpoints have an id of at most `bound`, found by binary
    /// search.
    fn count_at_most(&self, bound: u64) -> (n: usize)
        ensures
            n == count_at_most(self@, bound as int),
            n <= self@.len(),
    {
        let mut lo: usize = 0;
        let mut hi: usize = self.checkpoints.len();
        while lo < hi
            invariant
                lo <= hi <= self@.len(),
                self@ == self.checkpoints@,
                count_at_most(self@, bound as int) == search(
                    self@,
                    bound as int,
                    lo as int,
                    hi as int,
                ),
            decreases hi - lo,
        {
            let mid: usize = lo + (hi - lo) / 2;
            if self.checkpoints[mid].0.0 <= bound {
                lo = mid + 1;
            } else {
                hi = mid;
            }
        }
        lo
    }

    /// Return the `(checkpoint_entry_id, byte_offset)` pair whose entry id is
    /// the largest checkpoint ≤ `target`. Returns `None` if no checkpoint
    /// precedes or equals `target`.
    pub fn find(&self, target: EntryId) -> (r: Option<(EntryId, u64)>)
        ensures
            r == floor(self@, target.0),
    {
        let n: usize = self.count_at_most(target.0);
        if n == 0 {
            None
        } else {
            Some(self.checkpoints[n - 1])
        }
    }

    /// Remove checkpoints whose entry id is strictly less than `first_entry`.
    pub fn truncate_start(&mut self, first_entry: EntryId)
        ensures
            final(self)@ == from_id(old(self)@, first_entry.0),
    {
        if first_entry.0 == 0 {
            proof {
                lemma_count(self@, -1);
                assert(self@.skip(0) =~= self@);
            }
            return ;
        }
        let n: usize = self.count_at_most(first_entry.0 - 1);
        let kept = self.checkpoints.split_off(n);
        self.checkpoints = kept;
        assert(self@ =~= old(self)@.skip(n as int));
    }

    /// Remove checkpoints whose entry id is strictly greater than `last_valid`.
    pub fn truncate_end(&mut self, last_valid: EntryId)
        ensures
            final(self)@ == up_to_id(old(self)@, last_valid.0),
    {
        let n: usize = self.count_at_most(last_valid.0);
        self.checkpoints.truncate(n);
        assert(self@ =~= old(self)@.take(n as int));
    }
}

// ── EntryIndex ────────────────────────────────────────────────────────────────

/// Where to start reading.
#[derive(Debug, Clone, Copy, PartialEq, Eq, Structural)]
pub struct IndexPosition {
    pub segment: SegmentId,
    pub checkpoint: EntryId,
    pub byte_offset: u64,
}

/// The place of the last segment whose first checkpoint is at most `target`.
pub open spec fn covering(
    segments: Seq<(SegmentId, Seq<(EntryId, u64)>)>,
    target: u64,
) -> Option<int>
    decreases segments.len(),
{
    if segments.len() == 0 {
        None
    } else if segments.last().1.len() > 0 && segments.last().1[0].0.0 <= target {
        Some(segments.len() - 1)
    } else {
        covering(segments.drop_last(), target)
    }
}

/// Where to start reading to reach `target`.
pub open spec fn position_of(
    segments: Seq<(SegmentId, Seq<(EntryId, u64)>)>,
    target: u64,
) -> Option<IndexPosition> {
    match covering(segments, target) {
        None => None,
        Some(i) => match floor(segments[i].1, target) {
            None => None,
            Some((checkpoint, byte_offset)) => Some(
                IndexPosition { segment: segments[i].0, checkpoint, byte_offset },
            ),
        },
    }
}

/// The index without what covers entries before `first`.
pub open spec fn index_from(
    segments: Seq<(SegmentId, Seq<(EntryId, u64)>)>,
    first: u64,
) -> Seq<(SegmentId, Seq<(EntryId, u64)>)> {
    match covering(segments, first) {
        None => segments,
        Some(i) => {
            let rest = segments.skip(i);
            rest.update(0, (rest[0].0, from_id(rest[0].1, first)))
        },
    }
}

/// The index without what covers entries after `last`.
pub open spec fn index_up_to(
    segments: Seq<(SegmentId, Seq<(EntryId, u64)>)>,
    last: u64,
) -> Seq<(SegmentId, Seq<(EntryId, u64)>)> {
    match covering(segments, last) {
        None => Seq::empty(),
        Some(i) => segments.take(i + 1).update(i, (segments[i].0, up_to_id(segments[i].1, last))),
    }
}

/// Maps entry ids to a segment and a byte offset.
pub struct EntryIndex {
    segments: Vec<(SegmentId, SegmentIndex)>,
}

impl View for EntryIndex {
    type V = Seq<(SegmentId, Seq<(EntryId, u64)>)>;

    closed spec fn view(&self) -> Seq<(SegmentId, Seq<(EntryId, u64)>)> {
        Seq::new(
            self.segments@.len(),
            |i: int| (self.segments@[i].0, self.segments@[i].1@),
        )
    }
}

impl EntryIndex {
    pub fn new() -> (s: Self)
        ensures
            s@ == Seq::<(SegmentId, Seq<(EntryId, u64)>)>::empty(),
    {
        let s = Self { segments: Vec::new() };
        assert(s@ =~= Seq::<(SegmentId, Seq<(EntryId, u64)>)>::empty());
        s
    }

    /// Add a segment's index. Segments are meant to be added in ascending
    /// first-id order.
    pub fn add_segment(&mut self, id: SegmentId, index: SegmentIndex)
        ensures
            final(self)@ == old(self)@.push((id, index@)),
    {
        self.segments.push((id, index));
        assert(self@ =~= old(self)@.push((id, index@)));
    }

    fn find_covering(&self, target: EntryId) -> (r: Option<usize>)
        ensures
            match covering(self@, target.0) {
                None => r is None,
                Some(i) => r matches Some(j) && i == j && j < self@.len() && self@[i].1.len() > 0
                    && self@[i].1[0].0.0 <= target.0,
            },
    {
        let mut n: usize = self.segments.len();
        assert(self@.take(n as int) =~= self@);
        while n > 0
            invariant
                n <= self@.len(),
                self@.len() == self.segments@.len(),
                covering(self@, target.0) == covering(self@.take(n as int), target.0),
            decreases n,
        {
            let ghost upper = self@.take(n as int);
            assert(upper.drop_last() =~= self@.take(n - 1));
            assert(upper.last() == self@[n - 1]);
            match self.segments[n - 1].1.first_id() {
                Some(id) => {
                    if id.0 <= target.0 {
                        return Some(n - 1);
                    }
                },
                None => {},
            }
            n = n - 1;
        }
        None
    }

    /// Return the position to start scanning from to reach `target`.
    /// Returns `None` if the target precedes all indexed checkpoints.
    pub fn find(&self, target: EntryId) -> (r: Option<IndexPosition>)
        ensures
            r == position_of(self@, target.0),
    {
        match self.find_covering(target) {
            None => None,
            Some(i) => {
                assert(
                    self@[i as int] == (self.segments@[i as int].0, self.segments@[i as int].1@)
                );
                match self.segments[i].1.find(target) {
                    None => None,
                    Some((checkpoint, byte_offset)) => Some(
                        IndexPosition { segment: self.segments[i].0, checkpoint, byte_offset },
                    ),
                }
            },
        }
    }

    /// Remove index entries covering entries before `first_entry`.
    pub fn truncate_start(&mut self, first_entry: EntryId)
        ensures
            final(self)@ == index_from(old(self)@, first_entry.0),
    {
        match self.find_covering(first_entry) {
            None => {},
            Some(i) => {
                let mut rest = self.segments.split_off(i);
                let ghost before = rest@;
                rest[0].1.truncate_start(first_entry);
                self.segments = rest;
                proof {
                    assert(before =~= old(self).segments@.skip(i as int));
                    assert(old(self)@[i as int].1 == before[0].1@);
                    assert(self@ =~= index_from(old(self)@, first_entry.0));
                }
            },
        }
    }

    /// Remove index entries covering entries after `last_valid`.
    pub fn truncate_end(&mut self, last_valid: EntryId)
        ensures
            final(self)@ == index_up_to(old(self)@, last_valid.0),
    {
        match self.find_covering(last_valid) {
            None => {
                self.segments.clear();
                assert(self@ =~= Seq::<(SegmentId, Seq<(EntryId, u64)>)>::empty());
            },
            Some(i) => {
                let n: usize = self.segments.len();
                assert(i < n);
                self.segments.truncate(i + 1);
                let ghost before = self.segments@;
                self.segments[i].1.truncate_end(last_valid);
                proof {
                    assert(before =~= old(self).segments@.take(i + 1));
                    assert(old(self)@[i as int].1 == before[i as int].1@);
                    assert(self@ =~= index_up_to(old(self)@, last_valid.0));
                }
            },
        }
    }
}

// ── What the index promises ───────────────────────────────────────────────────

/// Law: among checkpoints in order, a lookup finds the largest id that is not
/// above the target, and finds nothing only where every id is above it.
pub proof fn law_find_is_largest_at_most(cs: Seq<(EntryId, u64)>, target: u64)
    requires
        sorted(cs),
    ensures
        match floor(cs, target) {
            Some(c) => {
                &&& cs.contains(c)
                &&& c.0.0 <= target
                &&& forall|i: int|
                    0 <= i < cs.len() && cs[i].0.0 <= target ==> (#[trigger] cs[i]).0.0 <= c.0.0
            },
            None => forall|i: int| 0 <= i < cs.len() ==> (#[trigger] cs[i]).0.0 > target,
        },
{
    lemma_count(cs, target as int);
    let n = count_at_most(cs, target as int);
    if n > 0 {
        assert(cs.contains(cs[n - 1]));
    }
}

/// Law: among checkpoints in order, cutting off the start removes those with a
/// smaller id and no others.
pub proof fn law_truncate_start_keeps_the_rest(cs: Seq<(EntryId, u64)>, first: u64)
    requires
        sorted(cs),
    ensures
        sorted(from_id(cs, first)),
        forall|c: (EntryId, u64)| #[trigger]
            from_id(cs, first).contains(c) <==> cs.contains(c) && c.0.0 >= first,
{
    lemma_count(cs, first - 1);
    let n = count_at_most(cs, first - 1);
    let kept = from_id(cs, first);
    assert forall|c: (EntryId, u64)| #[trigger] kept.contains(c) <==> cs.contains(c) && c.0.0
        >= first by {
        if kept.contains(c) {
            let i = choose|i: int| 0 <= i < kept.len() && kept[i] == c;
            assert(cs[n + i] == c);
        }
        if cs.contains(c) && c.0.0 >= first {
            let i = choose|i: int| 0 <= i < cs.len() && cs[i] == c;
            assert(i >= n);
            assert(kept[i - n] == c);
        }
    }
}

/// Law: among checkpoints in order, cutting off the end removes those with a
/// larger id and no others.
pub proof fn law_truncate_end_keeps_the_rest(cs: Seq<(EntryId, u64)>, last: u64)
    requires
        sorted(cs),
    ensures
        sorted(up_to_id(cs, last)),
        forall|c: (EntryId, u64)| #[trigger]
            up_to_id(cs, last).contains(c) <==> cs.contains(c) && c.0.0 <= last,
{
    lemma_count(cs, last as int);
    let n = count_at_most(cs, last as int);
    let kept = up_to_id(cs, last);
    assert forall|c: (EntryId, u64)| #[trigger] kept.contains(c) <==> cs.contains(c) && c.0.0
        <= last by {
        if kept.contains(c) {
            let i = choose|i: int| 0 <= i < kept.len() && kept[i] == c;
            assert(cs[i] == c);
        }
        if cs.contains(c) && c.0.0 <= last {
            let i = choose|i: int| 0 <= i < cs.len() && cs[i] == c;
            assert(i < n);
            assert(kept[i] == c);
        }
    }
}

/// The count is the only place where ids in order rise above the bound.
proof fn lemma_count_is(cs: Seq<(EntryId, u64)>, bound: int, n: int)
    requires
        0 <= n <= cs.len(),
        forall|i: int| 0 <= i < cs.len() ==> ((#[trigger] cs[i]).0.0 <= bound <==> i < n),
    ensures
        count_at_most(cs, bound) == n,
{
    lemma_count(cs, bound);
    let m = count_at_most(cs, bound);
    if m < n {
        assert(cs[m].0.0 <= bound);
    }
    if n < m {
        assert(cs[m - 1].0.0 <= bound);
    }
}

/// Law: after the checkpoints above `last` are removed, a lookup finds what a
/// lookup of the smaller of its target and `last` found before.
pub proof fn law_find_after_truncate_end(cs: Seq<(EntryId, u64)>, last: u64, target: u64)
    requires
        sorted(cs),
    ensures
        floor(up_to_id(cs, last), target) == floor(
            cs,
            if target < last {
                target
            } else {
                last
            },
        ),
{
    let bound = if target < last {
        target
    } else {
        last
    };
    lemma_count(cs, last as int);
    lemma_count(cs, bound as int);
    let n = count_at_most(cs, last as int);
    let m = count_at_most(cs, bound as int);
    assert(m <= n) by {
        if n < m {
            assert(cs[n].0.0 <= bound);
        }
    }
    let kept = up_to_id(cs, last);
    assert forall|i: int| 0 <= i < kept.len() implies ((#[trigger] kept[i]).0.0 <= target <==> i
        < m) by {
        assert(kept[i] == cs[i]);
    }
    lemma_count_is(kept, target as int, m);
}

/// Law: after the checkpoints below `first` are removed, a lookup finds what it
/// found before, unless that was removed, and then nothing.
pub proof fn law_find_after_truncate_start(cs: Seq<(EntryId, u64)>, first: u64, target: u64)
    requires
        sorted(cs),
    ensures
        floor(from_id(cs, first), target) == (match floor(cs, target) {
            Some(c) if c.0.0 >= first => Some(c),
            _ => None,
        }),
{
    lemma_count(cs, first - 1);
    lemma_count(cs, target as int);
    let n = count_at_most(cs, first - 1);
    let m = count_at_most(cs, target as int);
    let kept = from_id(cs, first);
    let k = if m > n {
        m - n
    } else {
        0
    };
    assert forall|i: int| 0 <= i < kept.len() implies ((#[trigger] kept[i]).0.0 <= target <==> i
        < k) by {
        assert(kept[i] == cs[n + i]);
    }
    lemma_count_is(kept, target as int, k);
    if m > 0 {
        assert(cs[m - 1].0.0 <= first - 1 <==> m - 1 < n);
    }
}

/// The covering segment is the last one that has a checkpoint at or before the
/// target.
pub proof fn lemma_covering(index: Seq<(SegmentId, Seq<(EntryId, u64)>)>, target: u64)
    ensures
        match covering(index, target) {
            None => forall|i: int|
                0 <= i < index.len() && (#[trigger] index[i]).1.len() > 0 ==> index[i].1[0].0.0
                    > target,
            Some(k) => {
                &&& 0 <= k < index.len()
                &&& index[k].1.len() > 0
                &&& index[k].1[0].0.0 <= target
                &&& forall|i: int|
                    k < i < index.len() && (#[trigger] index[i]).1.len() > 0 ==> index[i].1[0].0.0
                        > target
            },
        },
    decreases index.len(),
{
    if index.len() > 0 {
        let front = index.drop_last();
        lemma_covering(front, target);
        assert(forall|i: int| 0 <= i < front.len() ==> front[i] == #[trigger] index[i]);
        assert(index.last() == index[index.len() - 1]);
    }
}

/// Checkpoint ids do not decrease within a segment, and go up from one segment
/// to the next.
pub open spec fn ordered(index: Seq<(SegmentId, Seq<(EntryId, u64)>)>) -> bool {
    &&& forall|i: int| 0 <= i < index.len() ==> sorted((#[trigger] index[i]).1)
    &&& forall|i: int, j: int, a: int, b: int|
        #![trigger index[i].1[a], index[j].1[b]]
        0 <= i < j < index.len() && 0 <= a < index[i].1.len() && 0 <= b < index[j].1.len()
            ==> index[i].1[a].0.0 < index[j].1[b].0.0
}

/// Law: in an index that is in order, a lookup finds the nearest checkpoint at or
/// below the target, in whatever segment it is, and finds nothing only where
/// every checkpoint is above the target.
pub proof fn law_index_finds_nearest(
    index: Seq<(SegmentId, Seq<(EntryId, u64)>)>,
    target: u64,
)
    requires
        ordered(index),
    ensures
        match position_of(index, target) {
            Some(p) => {
                &&& p.checkpoint.0 <= target
                &&& exists|i: int, c: int|
                    #![trigger index[i].1[c]]
                    0 <= i < index.len() && 0 <= c < index[i].1.len() && index[i].0 == p.segment
                        && index[i].1[c] == (p.checkpoint, p.byte_offset)
                &&& forall|i: int, c: int|
                    #![trigger index[i].1[c]]
                    0 <= i < index.len() && 0 <= c < index[i].1.len() && index[i].1[c].0.0
                        <= target ==> index[i].1[c].0.0 <= p.checkpoint.0
            },
            None => forall|i: int, c: int|
                #![trigger index[i].1[c]]
                0 <= i < index.len() && 0 <= c < index[i].1.len() ==> index[i].1[c].0.0 > target,
        },
{
    lemma_covering(index, target);
    match covering(index, target) {
        None => {
            assert forall|i: int, c: int|
                #![trigger index[i].1[c]]
                0 <= i < index.len() && 0 <= c < index[i].1.len() implies index[i].1[c].0.0
                > target by {
                assert(sorted(index[i].1));
                assert(index[i].1[0].0.0 <= index[i].1[c].0.0);
            }
        },
        Some(k) => {
            let cs = index[k].1;
            assert(sorted(index[k].1));
            lemma_count(cs, target as int);
            let n = count_at_most(cs, target as int);
            assert(n > 0);
            let p = position_of(index, target)->Some_0;
            assert(index[k].1[n - 1] == (p.checkpoint, p.byte_offset));
            assert forall|i: int, c: int|
                #![trigger index[i].1[c]]
                0 <= i < index.len() && 0 <= c < index[i].1.len() && index[i].1[c].0.0
                    <= target implies index[i].1[c].0.0 <= p.checkpoint.0 by {
                assert(sorted(index[i].1));
                if i > k {
                    assert(index[i].1[0].0.0 <= index[i].1[c].0.0);
                } else if i < k {
                    assert(index[i].1[c].0.0 < index[k].1[n - 1].0.0);
                } else {
                    assert(c < n);
                    assert(cs[c].0.0 <= cs[n - 1].0.0);
                }
            }
        },
    }
}

/// The covering segment is the only one at which the first checkpoints rise above
/// the target.
proof fn lemma_covering_is(
    index: Seq<(SegmentId, Seq<(EntryId, u64)>)>,
    target: u64,
    k: int,
)
    requires
        -1 <= k < index.len(),
        k >= 0 ==> index[k].1.len() > 0 && index[k].1[0].0.0 <= target,
        forall|i: int|
            k < i < index.len() && (#[trigger] index[i]).1.len() > 0 ==> index[i].1[0].0.0
                > target,
    ensures
        covering(index, target) == if k >= 0 {
            Some(k)
        } else {
            None
        },
{
    lemma_covering(index, target);
}

/// Law: after the checkpoints above `last` are removed from an index, a lookup
/// finds what a lookup of the smaller of its target and `last` found before.
pub proof fn law_index_after_truncate_end(
    index: Seq<(SegmentId, Seq<(EntryId, u64)>)>,
    last: u64,
    target: u64,
)
    requires
        ordered(index),
    ensures
        position_of(index_up_to(index, last), target) == position_of(
            index,
            if target < last {
                target
            } else {
                last
            },
        ),
{
    let bound = if target < last {
        target
    } else {
        last
    };
    let kept = index_up_to(index, last);
    lemma_covering(index, last);
    lemma_covering(index, bound);
    match covering(index, last) {
        None => {},
        Some(k) => {
            let cs = index[k].1;
            assert(sorted(index[k].1));
            lemma_count(cs, last as int);
            assert(count_at_most(cs, last as int) > 0);
            law_find_after_truncate_end(cs, last, target);
            let j = match covering(index, bound) {
                Some(j) => j,
                None => -1,
            };
            assert(j <= k);
            assert forall|i: int| 0 <= i < kept.len() implies (#[trigger] kept[i]).0 == index[i].0
                && (i < k ==> kept[i] == index[i]) && (kept[i].1.len() > 0
                <==> index[i].1.len() > 0) && (index[i].1.len() > 0 ==> kept[i].1[0]
                == index[i].1[0]) by {}
            if target >= last {
                assert(j == k);
            }
            lemma_covering_is(kept, target, j);
        },
    }
}

/// What is found is a checkpoint of the covering segment.
proof fn lemma_found_in(index: Seq<(SegmentId, Seq<(EntryId, u64)>)>, target: u64, j: int)
    requires
        covering(index, target) == Some(j),
        0 <= j < index.len(),
        sorted(index[j].1),
    ensures
        position_of(index, target) matches Some(p) && index[j].1[0].0.0 <= p.checkpoint.0,
{
    let cs = index[j].1;
    lemma_covering(index, target);
    lemma_count(cs, target as int);
    let n = count_at_most(cs, target as int);
    assert(n > 0);
    assert(cs[0].0.0 <= cs[n - 1].0.0);
}

/// The segment at place `k`, once the checkpoints below `first` are removed from
/// it: what a lookup finds there.
proof fn lemma_found_from(
    index: Seq<(SegmentId, Seq<(EntryId, u64)>)>,
    first: u64,
    target: u64,
    k: int,
)
    requires
        covering(index, first) == Some(k),
        0 <= k < index.len(),
        index[k].1.len() > 0,
        sorted(index[k].1),
        forall|i: int|
            k < i < index.len() && (#[trigger] index[i]).1.len() > 0 ==> index[i].1[0].0.0
                > target,
    ensures
        position_of(index_from(index, first), target) == (match floor(index[k].1, target) {
            Some((c, offset)) if c.0 >= first => Some(
                IndexPosition { segment: index[k].0, checkpoint: c, byte_offset: offset },
            ),
            _ => None,
        }),
{
    let cs = index[k].1;
    let kept = index_from(index, first);
    let rest = from_id(cs, first);
    lemma_count(cs, first - 1);
    law_find_after_truncate_start(cs, first, target);
    law_truncate_start_keeps_the_rest(cs, first);
    lemma_count(rest, target as int);
    assert(kept[0] == (index[k].0, rest));
    assert forall|i: int| 0 < i < kept.len() && (#[trigger] kept[i]).1.len()
        > 0 implies kept[i].1[0].0.0 > target by {
        assert(kept[i] == index[k + i]);
    }
    if rest.len() > 0 && rest[0].0.0 <= target {
        lemma_covering_is(kept, target, 0);
    } else {
        lemma_covering_is(kept, target, -1);
    }
}

/// Law: after the checkpoints below `first` are removed from an index, a lookup
/// finds what it found before, unless that was removed, and then nothing.
#[verifier::spinoff_prover]
pub proof fn law_index_after_truncate_start(
    index: Seq<(SegmentId, Seq<(EntryId, u64)>)>,
    first: u64,
    target: u64,
)
    requires
        ordered(index),
    ensures
        position_of(index_from(index, first), target) == (match position_of(index, target) {
            Some(p) if p.checkpoint.0 >= first => Some(p),
            _ => None,
        }),
{
    lemma_covering(index, first);
    lemma_covering(index, target);
    match (covering(index, first), covering(index, target)) {
        (None, None) => {},
        (None, Some(j)) => {
            assert(sorted(index[j].1));
            lemma_found_in(index, target, j);
        },
        (Some(k), None) => {
            let cs = index[k].1;
            assert(sorted(index[k].1));
            lemma_count(cs, target as int);
            lemma_found_from(index, first, target, k);
        },
        (Some(k), Some(j)) => {
            assert(sorted(index[k].1) && sorted(index[j].1));
            lemma_found_in(index, target, j);
            if j > k {
                let kept = index_from(index, first);
                assert forall|i: int| 0 < i < kept.len() implies (#[trigger] kept[i]) == index[k
                    + i] by {}
                assert(kept[j - k] == index[j]);
                lemma_covering_is(kept, target, j - k);
            } else {
                lemma_found_from(index, first, target, k);
                if j < k {
                    lemma_count(index[k].1, target as int);
                    lemma_count(index[j].1, target as int);
                    let n = count_at_most(index[j].1, target as int);
                    assert(index[j].1[n - 1].0.0 < index[k].1[0].0.0);
                }
            }
        },
    }
}

} // verus!
