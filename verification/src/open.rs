//! Opening, creating and recovering a store.

use vstd::prelude::*;

use crate::action::{self, Action};
use crate::files::MAGIC_LEN;
use crate::frame::{self, FrameCursor};
use crate::index::EntryIndex;
use crate::manifest;
use crate::recovery::{self, FixUp, RecoveryError, attempt_recovery};
use crate::scan::{self, ScanReport, SegmentReport};
use crate::state::{self, ManifestOp, Op, SealInfo, SegmentEntry, StoreState};
use crate::state_laws;
use crate::store::{self, OpenError, Store};
use crate::{EntryId, SegmentId, StoreCfg};

verus! {

// ── From a scan report to a store ─────────────────────────────────────────────

/// The first report on segment `id`.
pub open spec fn find_report(reports: Seq<scan::SegmentReportView>, id: SegmentId) -> Option<
    scan::SegmentReportView,
>
    decreases reports.len(),
{
    if reports.len() == 0 {
        None
    } else if reports[0].id == id {
        Some(reports[0])
    } else {
        find_report(reports.skip(1), id)
    }
}

/// The last entry of the last of `segments` that is sealed.
pub open spec fn last_sealed_entry(
    segments: Seq<SegmentEntry>,
    seals: Map<SegmentId, SealInfo>,
) -> Option<EntryId>
    decreases segments.len(),
{
    if segments.len() == 0 {
        None
    } else if seals.contains_key(segments.last().id) {
        Some(seals[segments.last().id].last_entry)
    } else {
        last_sealed_entry(segments.drop_last(), seals)
    }
}

pub open spec fn max_live_id(segments: Seq<SegmentEntry>) -> u32
    decreases segments.len(),
{
    if segments.len() == 0 {
        0
    } else {
        let before = max_live_id(segments.drop_last());
        if segments.last().id.0 > before {
            segments.last().id.0
        } else {
            before
        }
    }
}

pub open spec fn max_dead_id(dead: Seq<SegmentId>) -> u32
    decreases dead.len(),
{
    if dead.len() == 0 {
        0
    } else {
        let before = max_dead_id(dead.drop_last());
        if dead.last().0 > before {
            dead.last().0
        } else {
            before
        }
    }
}

/// The largest id of a live or dead segment.
pub open spec fn max_id(state: state::StateView) -> u32 {
    let (live, dead) = (max_live_id(state.segments), max_dead_id(state.dead));
    if live > dead {
        live
    } else {
        dead
    }
}

/// The segment that is written to.
pub open spec fn active_entry(state: state::StateView) -> Option<SegmentEntry> {
    match state.active {
        None => None,
        Some(id) => state::find_segment(state.segments, id),
    }
}

/// A report without issues describes a store that can be opened: the active
/// segment is live, was scanned, and another segment id is left.
pub open spec fn openable(report: scan::ReportView) -> bool {
    report.issues.len() == 0 ==> {
        &&& active_entry(report.state) matches Some(entry)
        &&& find_report(report.segments, entry.id) is Some
        &&& max_id(report.state) < u32::MAX
    }
}

/// The store that a report without issues describes.
pub open spec fn opened_store(trigger: u64, report: scan::ReportView) -> store::StoreView {
    let active = active_entry(report.state)->Some_0;
    let scanned = find_report(report.segments, active.id)->Some_0;
    store::StoreView {
        trigger,
        state: report.state,
        index: Seq::new(
            report.segments.len(),
            |i: int| (report.segments[i].id, report.segments[i].index),
        ),
        manifest: frame::CursorView { pending: Seq::empty(), position: report.manifest_next_offset },
        active_id: active.id,
        active: frame::CursorView { pending: Seq::empty(), position: scanned.write_offset },
        active_first_entry: active.first_entry,
        active_entry_count: scanned.num_entries,
        last_entry_id: match scanned.last_entry_id {
            Some(id) => Some(id),
            None => last_sealed_entry(report.state.segments.drop_last(), report.state.seals),
        },
        next_seg_id: SegmentId((max_id(report.state) + 1) as u32),
        rollover_pending: false,
    }
}

fn find_segment_report(reports: &Vec<SegmentReport>, id: SegmentId) -> (r: Option<usize>)
    ensures
        match find_report(scan::reports_view(reports@), id) {
            None => r is None,
            Some(report) => r matches Some(i) && i < reports@.len() && reports@[i as int]@
                == report,
        },
{
    let ghost all = scan::reports_view(reports@);
    let mut i: usize = 0;
    assert(all.skip(0) =~= all);
    while i < reports.len()
        invariant
            i <= reports@.len(),
            all == scan::reports_view(reports@),
            find_report(all, id) == find_report(all.skip(i as int), id),
        decreases reports@.len() - i,
    {
        assert(all.skip(i as int).skip(1) =~= all.skip(i + 1));
        assert(all.skip(i as int)[0] == reports@[i as int]@);
        if reports[i].id == id {
            return Some(i);
        }
        i = i + 1;
    }
    None
}

fn find_last_sealed(state: &StoreState) -> (r: Option<EntryId>)
    requires
        state@.segments.len() > 0,
    ensures
        r == last_sealed_entry(state@.segments.drop_last(), state@.seals),
{
    let segments = state.segments();
    let ghost all = segments@.drop_last();
    let mut n: usize = segments.len() - 1;
    assert(all.take(n as int) =~= all);
    while n > 0
        invariant
            n < segments@.len(),
            segments@ == state@.segments,
            all == segments@.drop_last(),
            last_sealed_entry(all, state@.seals) == last_sealed_entry(
                all.take(n as int),
                state@.seals,
            ),
        decreases n,
    {
        assert(all.take(n as int).drop_last() =~= all.take(n - 1));
        match state.seal(segments[n - 1].id) {
            Some(seal) => return Some(seal.last_entry),
            None => {},
        }
        n = n - 1;
    }
    None
}

fn find_max_id(state: &StoreState) -> (m: u32)
    ensures
        m == max_id(state@),
{
    let segments = state.segments();
    let dead = state.dead();
    let mut live_max: u32 = 0;
    let mut i: usize = 0;
    assert(segments@.take(0) =~= Seq::<SegmentEntry>::empty());
    while i < segments.len()
        invariant
            i <= segments@.len(),
            live_max == max_live_id(segments@.take(i as int)),
        decreases segments@.len() - i,
    {
        assert(segments@.take(i + 1).drop_last() =~= segments@.take(i as int));
        if segments[i].id.0 > live_max {
            live_max = segments[i].id.0;
        }
        i = i + 1;
    }
    assert(segments@.take(i as int) =~= segments@);
    let mut dead_max: u32 = 0;
    let mut i: usize = 0;
    assert(dead@.take(0) =~= Seq::<SegmentId>::empty());
    while i < dead.len()
        invariant
            i <= dead@.len(),
            dead_max == max_dead_id(dead@.take(i as int)),
        decreases dead@.len() - i,
    {
        assert(dead@.take(i + 1).drop_last() =~= dead@.take(i as int));
        if dead[i].0 > dead_max {
            dead_max = dead[i].0;
        }
        i = i + 1;
    }
    assert(dead@.take(i as int) =~= dead@);
    if live_max > dead_max {
        live_max
    } else {
        dead_max
    }
}

/// A report without issues describes a store that can be opened.
pub fn is_openable(report: &ScanReport) -> (b: bool)
    ensures
        b == openable(report@),
{
    if !report.issues.is_empty() {
        return true;
    }
    match report.state.active_segment() {
        None => false,
        Some(active) => match find_segment_report(&report.segments, active.id) {
            None => false,
            Some(_) => find_max_id(&report.state) < u32::MAX,
        },
    }
}

proof fn lemma_found_segment(segments: Seq<SegmentEntry>, id: SegmentId)
    ensures
        state::find_segment(segments, id) matches Some(entry) ==> entry.id
            == id && segments.len() > 0,
    decreases segments.len(),
{
    if segments.len() > 0 {
        lemma_found_segment(segments.skip(1), id);
    }
}

impl Store {
    /// The store that a report describes. A report with issues describes none.
    pub fn from_scan_report(cfg: StoreCfg, report: ScanReport) -> (r: Result<Store, OpenError>)
        requires
            openable(report@),
        ensures
            if report@.issues.len() > 0 {
                r matches Err(OpenError::RecoveryNotPossible(issues)) && issues@ == report@.issues
            } else {
                r matches Ok(s) && s@ == opened_store(cfg.segment_rollover_trigger_bytes, report@)
            },
    {
        let ghost view = report@;
        let ScanReport { state, manifest_next_offset, segments, issues } = report;
        if !issues.is_empty() {
            return Err(OpenError::RecoveryNotPossible(issues));
        }
        let active: SegmentEntry = *state.active_segment().unwrap();
        let place: usize = find_segment_report(&segments, active.id).unwrap();
        let active_entry_count: u64 = segments[place].num_entries;
        let active_write_offset: u64 = segments[place].write_offset;
        proof {
            lemma_found_segment(state@.segments, state@.active->Some_0);
        }
        // Prefer the active segment's last frame; fall back to the last sealed segment.
        let last_entry_id = match segments[place].last_entry_id {
            Some(id) => Some(id),
            None => find_last_sealed(&state),
        };
        let next_seg_id = SegmentId(find_max_id(&state) + 1);
        let ghost reports = scan::reports_view(segments@);
        let ghost all = Seq::new(reports.len(), |i: int| (reports[i].id, reports[i].index));
        let mut index = EntryIndex::new();
        assert(index@ =~= all.take(0));
        for seg in it: segments
            invariant
                reports == scan::reports_view(it.seq()),
                all == Seq::new(reports.len(), |i: int| (reports[i].id, reports[i].index)),
                index@ == all.take(it.index() as int),
        {
            index.add_segment(seg.id, seg.index);
            assert(reports[it.index() as int] == seg@);
            assert(index@ =~= all.take(it.index() + 1));
        }
        assert(all.take(reports.len() as int) =~= all);
        Ok(
            Store::from_parts(
                cfg,
                state,
                index,
                manifest_next_offset,
                active,
                active_write_offset,
                active_entry_count,
                last_entry_id,
                next_seg_id,
            ),
        )
    }
}

// ── Open ──────────────────────────────────────────────────────────────────────

/// What comes of a first look at a store.
pub enum OpenStep {
    /// It is in order.
    Ready(Store),
    /// Perform the fix-ups, scan again, and call [`Store::open_repaired`].
    Repair(StoreCfg, Vec<FixUp>),
    /// It cannot be opened.
    Failed(OpenError),
}

impl Store {
    /// Open an existing store, given what a scan found, automatically recovering
    /// minor issues (torn tails, orphan files) on the way.
    ///
    /// Fails with [`OpenError::ApprovedRecoveredRequired`] when issues are
    /// present but fixable — call [`Store::recover`] to apply the fixes, then
    /// retry. Fails with [`OpenError::RecoveryNotPossible`] for unrecoverable
    /// corruption.
    pub fn open(cfg: StoreCfg, report: ScanReport) -> (r: OpenStep)
        requires
            openable(report@),
        ensures
            if report@.issues.len() == 0 {
                r matches OpenStep::Ready(s) && s@ == opened_store(
                    cfg.segment_rollover_trigger_bytes,
                    report@,
                )
            } else {
                match recovery::plan(report@.issues, false) {
                    Ok(fix_ups) => r matches OpenStep::Repair(c, v) && c == cfg && v@ == fix_ups,
                    Err(RecoveryError::NotPossible) => r matches OpenStep::Failed(
                        OpenError::RecoveryNotPossible(issues),
                    ) && issues@ == report@.issues,
                    Err(RecoveryError::ApprovalRequired) => r matches OpenStep::Failed(
                        OpenError::ApprovedRecoveredRequired(issues),
                    ) && issues@ == report@.issues,
                    Err(e) => r == OpenStep::Failed(OpenError::RecoveryFailed(e)),
                }
            },
    {
        if report.issues.is_empty() {
            return match Store::from_scan_report(cfg, report) {
                Ok(store) => OpenStep::Ready(store),
                Err(e) => OpenStep::Failed(e),
            };
        }
        match attempt_recovery(&report.issues, false) {
            Ok(fix_ups) => OpenStep::Repair(cfg, fix_ups),
            Err(RecoveryError::NotPossible) => OpenStep::Failed(
                OpenError::RecoveryNotPossible(report.issues),
            ),
            Err(RecoveryError::ApprovalRequired) => OpenStep::Failed(
                OpenError::ApprovedRecoveredRequired(report.issues),
            ),
            Err(e) => OpenStep::Failed(OpenError::RecoveryFailed(e)),
        }
    }

    /// Open a store whose issues were just repaired, given what a new scan
    /// found.
    pub fn open_repaired(cfg: StoreCfg, report: ScanReport) -> (r: Result<Store, OpenError>)
        requires
            openable(report@),
        ensures
            if report@.issues.len() > 0 {
                r matches Err(
                    OpenError::RecoveryFailed(RecoveryError::RemainingIssues(issues)),
                ) && issues@ == report@.issues
            } else {
                r matches Ok(s) && s@ == opened_store(cfg.segment_rollover_trigger_bytes, report@)
            },
    {
        match Store::from_scan_report(cfg, report) {
            Ok(store) => Ok(store),
            Err(OpenError::RecoveryNotPossible(issues)) => Err(
                OpenError::RecoveryFailed(RecoveryError::RemainingIssues(issues)),
            ),
            Err(other) => Err(other),
        }
    }

    /// The fix-ups for all fixable issues that a scan found, with full approval.
    pub fn recover(report: &ScanReport) -> (r: Result<Vec<FixUp>, RecoveryError>)
        ensures
            match recovery::plan(report@.issues, true) {
                Ok(fix_ups) => r matches Ok(v) && v@ == fix_ups,
                Err(e) => r == Err::<Vec<FixUp>, _>(e),
            },
    {
        attempt_recovery(&report.issues, true)
    }

    /// What to do before a store is opened: nothing if it has a manifest, else
    /// create a fresh store.
    pub fn open_or_create(manifest_exists: bool) -> (r: Vec<Action>)
        ensures
            recovery::actions_view(r@) == if manifest_exists {
                Seq::<action::ActionView>::empty()
            } else {
                creation()
            },
    {
        let mut actions: Vec<Action> = Vec::new();
        if !manifest_exists {
            let op = ManifestOp::bare(
                Op::CreateSegment { id: SegmentId(1), first_entry: EntryId(0) },
            );
            let mut cursor = FrameCursor::new(MAGIC_LEN as u64);
            manifest::write_op(&mut cursor, &op);
            let bytes = vstd::slice::slice_to_vec(cursor.pending());
            assert(bytes@ =~= store::op_frame(creation_op()));
            actions.push(Action::CreateManifest);
            actions.push(Action::CreateSegment(SegmentId(1)));
            actions.push(Action::WriteManifest { offset: cursor.position(), bytes });
            actions.push(Action::SyncManifest);
            assert(recovery::actions_view(actions@) =~= creation());
        } else {
            assert(recovery::actions_view(actions@) =~= Seq::<action::ActionView>::empty());
        }
        actions
    }
}

/// The first record of a manifest.
pub open spec fn creation_op() -> crate::state::ManifestOpView {
    state_laws::bare(state::OpView::CreateSegment { id: SegmentId(1), first_entry: EntryId(0) })
}

/// The work of creating a store: a manifest, a first segment, and the record of
/// it.
pub open spec fn creation() -> Seq<action::ActionView> {
    seq![
        action::ActionView::CreateManifest,
        action::ActionView::CreateSegment(SegmentId(1)),
        action::ActionView::WriteManifest {
            offset: MAGIC_LEN as u64,
            bytes: store::op_frame(creation_op()),
        },
        action::ActionView::SyncManifest,
    ]
}

} // verus!
