//! What opening and creating a store promise.

use vstd::prelude::*;

use crate::action;
use crate::files::{MAGIC_LEN, MANIFEST_MAGIC};
use crate::frame;
use crate::frame_laws;
use crate::index;
use crate::issue::FileIssue;
use crate::log_laws;
use crate::manifest;
use crate::manifest_laws;
use crate::op_laws;
use crate::open;
use crate::scan::{self, INDEX_STRIDE};
use crate::state::{self, ApplyError, SegmentEntry};
use crate::store;
use crate::truncate_end_laws;
use crate::{EntryId, SegmentId};

verus! {

// ── What a scan sees ──────────────────────────────────────────────────────────

/// The directory of a store on a file system on which nothing fails. `ids` lists
/// the segment files.
pub open spec fn directory_of(d: action::Disk, ids: Seq<SegmentId>) -> scan::DirectoryView {
    scan::DirectoryView {
        exists: true,
        manifest: Ok(d.manifest),
        ids: Ok(ids),
        segments: d.segments.map_values(
            |data: Seq<u8>| scan::FileView { size: Ok(data.len() as u64), contents: Ok(data) },
        ),
    }
}

/// `ids` lists the segment files and nothing else.
pub open spec fn lists(ids: Seq<SegmentId>, d: action::Disk) -> bool {
    forall|id: SegmentId| #[trigger] ids.contains(id) <==> d.segments.contains_key(id)
}

/// Where every listed segment is known, there are no orphans.
pub proof fn lemma_no_orphans(state: state::StateView, ids: Seq<SegmentId>)
    requires
        forall|i: int|
            0 <= i < ids.len() ==> state.is_live(#[trigger] ids[i]) || state.dead.contains(ids[i]),
    ensures
        scan::orphan_issues(state, ids) == Seq::<FileIssue>::empty(),
    decreases ids.len(),
{
    if ids.len() > 0 {
        let front = ids.drop_last();
        assert forall|i: int| 0 <= i < front.len() implies state.is_live(#[trigger] front[i])
            || state.dead.contains(front[i]) by {
            assert(front[i] == ids[i]);
        }
        lemma_no_orphans(state, front);
        assert(ids[ids.len() - 1] == ids.last());
    }
}

/// Where every dead segment is listed, none is missing.
pub proof fn lemma_no_missing_dead(dead: Seq<SegmentId>, ids: Seq<SegmentId>)
    requires
        forall|i: int| 0 <= i < dead.len() ==> ids.contains(#[trigger] dead[i]),
    ensures
        scan::missing_dead_issues(dead, ids) == Seq::<FileIssue>::empty(),
    decreases dead.len(),
{
    if dead.len() > 0 {
        let front = dead.drop_last();
        assert forall|i: int| 0 <= i < front.len() implies ids.contains(#[trigger] front[i]) by {
            assert(front[i] == dead[i]);
        }
        lemma_no_missing_dead(front, ids);
        assert(dead[dead.len() - 1] == dead.last());
    }
}

/// The scan of the first `j` segments finds their frames, and nothing wrong.
#[verifier::spinoff_prover]
proof fn lemma_sound_segments_scan(
    st: state::StateView,
    d: action::Disk,
    ids: Seq<SegmentId>,
    j: int,
)
    requires
        log_laws::files_match(st, d),
        0 <= j <= st.segments.len(),
    ensures
        ({
            let (reports, issues) = scan::segment_scans(
                directory_of(d, ids),
                st,
                st.segments.take(j),
            );
            &&& issues == Seq::<FileIssue>::empty()
            &&& reports.len() == j
            &&& forall|i: int|
                0 <= i < j ==> #[trigger] reports[i] == scan::scanned(
                    st.segments[i].id,
                    d.segments[st.segments[i].id],
                )
        }),
    decreases j,
{
    if j > 0 {
        let segs = st.segments;
        let dir = directory_of(d, ids);
        lemma_sound_segments_scan(st, d, ids, j - 1);
        assert(segs.take(j).drop_last() =~= segs.take(j - 1));
        let entry = segs[j - 1];
        let id = entry.id;
        assert(segs.take(j).last() == entry);
        assert(
            d.segments.contains_key(segs[j - 1].id)
            && log_laws::sound(d.segments[segs[j - 1].id])
        );
        assert(st.seals.contains_key(segs[j - 1].id) <==> j - 1 < segs.len() - 1);
        if j - 1 < segs.len() - 1 {
            assert(log_laws::seal_ok(d.segments[segs[j - 1].id], st.seals[segs[j - 1].id]));
        }
        let data = d.segments[id];
        assert(
            dir.file(id) == (scan::FileView { size: Ok(data.len() as u64), contents: Ok(data) })
        );
        assert(scan::segment_scan(id, crate::scan::sealed_size(st, id), dir.file(id)) == (
            scan::scanned(id, data),
            None::<crate::issue::Issue>,
        ));
    }
}

// ── The index ─────────────────────────────────────────────────────────────────

/// The checkpoints of the first `j` frames are among them, in order.
#[verifier::spinoff_prover]
proof fn lemma_checkpoints(fs: Seq<frame::Frame>, j: int, stride: nat)
    requires
        0 <= j <= fs.len(),
        forall|i: int| 0 <= i < fs.len() ==> 0 <= (#[trigger] fs[i]).start <= u64::MAX,
        forall|a: int, b: int|
            0 <= a < b < fs.len() ==> (#[trigger] fs[a]).id < (#[trigger] fs[b]).id,
    ensures
        ({
            let cs = frame::checkpoints_of(fs.take(j), stride);
            &&& forall|c: int| 0 <= c < cs.len() ==> log_laws::is_frame_start(
                fs.take(j),
                #[trigger] cs[c],
            )
            &&& index::sorted(cs)
        }),
    decreases j,
{
    if j > 0 {
        lemma_checkpoints(fs, j - 1, stride);
        assert(fs.take(j).drop_last() =~= fs.take(j - 1));
        let before = frame::checkpoints_of(fs.take(j - 1), stride);
        let cs = frame::checkpoints_of(fs.take(j), stride);
        let f = fs[j - 1];
        assert(fs.take(j).last() == f);
        assert forall|c: int| 0 <= c < before.len() implies log_laws::is_frame_start(
            fs.take(j),
            #[trigger] before[c],
        ) && before[c].0.0 < f.id by {
            assert(log_laws::is_frame_start(fs.take(j - 1), before[c]));
            let k = choose|k: int|
                0 <= k < j - 1 && (#[trigger] fs.take(j - 1)[k]).id == before[c].0.0 && fs.take(
                    j - 1,
                )[k].start == before[c].1;
            assert(fs.take(j)[k] == fs.take(j - 1)[k]);
            assert(fs[k].id < fs[j - 1].id);
        }
        assert forall|c: int| 0 <= c < cs.len() implies log_laws::is_frame_start(
            fs.take(j),
            #[trigger] cs[c],
        ) by {
            if c < before.len() {
                assert(cs[c] == before[c]);
            } else {
                assert(fs.take(j)[j - 1] == f);
            }
        }
        assert forall|a: int, b: int| 0 <= a <= b < cs.len() implies (#[trigger] cs[a]).0.0 <= (
        #[trigger] cs[b]).0.0 by {
            if b < before.len() {
                assert(cs[a] == before[a] && cs[b] == before[b]);
            } else if a < before.len() {
                assert(cs[a] == before[a]);
            }
        }
    }
}

/// The checkpoints that a scan records are frames of the segment, in order.
proof fn lemma_scanned_index(st: state::StateView, d: action::Disk, i: int)
    requires
        log_laws::files_match(st, d),
        log_laws::ordered(st, d),
        0 <= i < st.segments.len(),
    ensures
        ({
            let cs = scan::scanned(st.segments[i].id, d.segments[st.segments[i].id]).index;
            let fs = log_laws::segment_frames(d, st.segments[i].id);
            &&& forall|c: int| 0 <= c < cs.len() ==> log_laws::is_frame_start(fs, #[trigger] cs[c])
            &&& forall|c: int|
                0 <= c < cs.len() ==> st.segments[i].first_entry.0 <= (#[trigger] cs[c]).0.0
                    < log_laws::upper(st.segments, i)
            &&& index::sorted(cs)
        }),
{
    let segs = st.segments;
    let data = d.segments[segs[i].id];
    let fs = log_laws::segment_frames(d, segs[i].id);
    let cs = scan::scanned(segs[i].id, data).index;
    assert(log_laws::frames_between(
        fs,
        segs[i].first_entry.0 as int,
        log_laws::upper(segs, i),
    ));
    assert(d.segments.contains_key(segs[i].id) && log_laws::sound(d.segments[segs[i].id]));
    lemma_starts_fit(data);
    lemma_checkpoints(fs, fs.len() as int, INDEX_STRIDE as nat);
    assert(fs.take(fs.len() as int) =~= fs);
    assert forall|c: int| 0 <= c < cs.len() implies segs[i].first_entry.0 <= (
    #[trigger] cs[c]).0.0 < log_laws::upper(segs, i) by {
        assert(log_laws::is_frame_start(fs, cs[c]));
    }
}

/// Where a frame of a segment starts fits 64 bits.
proof fn lemma_starts_fit(data: Seq<u8>)
    requires
        log_laws::sound(data),
    ensures
        forall|k: int|
            0 <= k < frame::frames(data, MAGIC_LEN as int).len() ==> 0 <= (
            #[trigger] frame::frames(data, MAGIC_LEN as int)[k]).start <= u64::MAX,
{
    let fs = frame::frames(data, MAGIC_LEN as int);
    assert forall|k: int| 0 <= k < fs.len() implies 0 <= (#[trigger] fs[k]).start <= u64::MAX by {
        frame_laws::lemma_frame_at(data, MAGIC_LEN as int, k);
    }
}

/// The index that a scan builds.
spec fn scanned_index(
    st: state::StateView,
    d: action::Disk,
) -> Seq<(SegmentId, Seq<(EntryId, u64)>)> {
    Seq::new(
        st.segments.len(),
        |i: int|
            (
                st.segments[i].id,
                scan::scanned(st.segments[i].id, d.segments[st.segments[i].id]).index,
            ),
    )
}

#[verifier::spinoff_prover]
proof fn lemma_scanned_index_ok(st: state::StateView, d: action::Disk)
    requires
        log_laws::files_match(st, d),
        log_laws::ordered(st, d),
    ensures
        log_laws::index_ok(scanned_index(st, d), st.segments, d),
{
    let segs = st.segments;
    let index = scanned_index(st, d);
    assert forall|i: int, c: int|
        #![trigger index[i].1[c]]
        0 <= i < index.len() && 0 <= c < index[i].1.len() implies log_laws::checkpoint_ok(
        segs,
        d,
        index[i].0,
        index[i].1[c],
    ) by {
        lemma_scanned_index(st, d, i);
        assert(segs[i].id == index[i].0);
    }
    assert forall|i: int| 0 <= i < index.len() implies index::sorted((#[trigger] index[i]).1) by {
        lemma_scanned_index(st, d, i);
    }
    assert forall|i: int, j: int, a: int, b: int|
        #![trigger index[i].1[a], index[j].1[b]]
        0 <= i < j < index.len() && 0 <= a < index[i].1.len() && 0 <= b
            < index[j].1.len() implies index[i].1[a].0.0 < index[j].1[b].0.0 by {
        lemma_scanned_index(st, d, i);
        lemma_scanned_index(st, d, j);
        assert(segs[i + 1].first_entry.0 <= segs[j].first_entry.0);
    }
}

// ── Ids ───────────────────────────────────────────────────────────────────────

proof fn lemma_max_live_id(segments: Seq<SegmentEntry>, i: int)
    requires
        0 <= i < segments.len(),
    ensures
        segments[i].id.0 <= open::max_live_id(segments),
    decreases segments.len(),
{
    if i < segments.len() - 1 {
        lemma_max_live_id(segments.drop_last(), i);
    }
}

proof fn lemma_max_dead_id(dead: Seq<SegmentId>, i: int)
    requires
        0 <= i < dead.len(),
    ensures
        dead[i].0 <= open::max_dead_id(dead),
    decreases dead.len(),
{
    if i < dead.len() - 1 {
        lemma_max_dead_id(dead.drop_last(), i);
    }
}

proof fn lemma_find_report_at(reports: Seq<scan::SegmentReportView>, n: int)
    requires
        0 <= n < reports.len(),
        forall|i: int| 0 <= i < n ==> (#[trigger] reports[i]).id != reports[n].id,
    ensures
        open::find_report(reports, reports[n].id) == Some(reports[n]),
    decreases n,
{
    if n > 0 {
        let rest = reports.skip(1);
        assert(reports[0].id != reports[n].id);
        assert(rest[n - 1] == reports[n]);
        assert forall|i: int| 0 <= i < n - 1 implies (#[trigger] rest[i]).id != rest[n - 1].id by {
            assert(rest[i] == reports[i + 1]);
        }
        lemma_find_report_at(rest, n - 1);
    }
}

// ── Laws ──────────────────────────────────────────────────────────────────────

/// A scan of files that match a state finds that state, and nothing wrong.
pub proof fn lemma_scan_finds_state(st: state::StateView, d: action::Disk, ids: Seq<SegmentId>)
    requires
        log_laws::files_match(st, d),
        lists(ids, d),
    ensures
        ({
            let report = scan::scan_of(directory_of(d, ids));
            &&& report.issues == Seq::<FileIssue>::empty()
            &&& report.state == st
            &&& report.manifest_next_offset == d.manifest.len()
            &&& report.segments.len() == st.segments.len()
            &&& forall|i: int|
                0 <= i < st.segments.len() ==> #[trigger] report.segments[i] == scan::scanned(
                    st.segments[i].id,
                    d.segments[st.segments[i].id],
                )
        }),
{
    let n = st.segments.len() as int;
    assert forall|i: int| 0 <= i < ids.len() implies st.is_live(#[trigger] ids[i])
        || st.dead.contains(ids[i]) by {
        assert(ids.contains(ids[i]));
        assert(d.segments.contains_key(ids[i]));
    }
    lemma_no_orphans(st, ids);
    assert forall|i: int| 0 <= i < st.dead.len() implies ids.contains(#[trigger] st.dead[i]) by {
        assert(st.dead.contains(st.dead[i]));
        assert(d.segments.contains_key(st.dead[i]));
    }
    lemma_no_missing_dead(st.dead, ids);
    lemma_sound_segments_scan(st, d, ids, n);
    assert(st.segments.take(n) =~= st.segments);
    let none = Seq::<FileIssue>::empty();
    assert(none + none + none + none =~= none);
}

/// The last entry that an opened store knows.
proof fn lemma_last_sealed(st: state::StateView, d: action::Disk)
    requires
        log_laws::files_match(st, d),
        st.segments.len() > 1,
    ensures
        open::last_sealed_entry(st.segments.drop_last(), st.seals) == Some(
            st.seals[st.segments[st.segments.len() - 2].id].last_entry,
        ),
{
    let n = st.segments.len() as int;
    assert(st.segments.drop_last().last() == st.segments[n - 2]);
    assert(st.seals.contains_key(st.segments[n - 2].id));
}

/// Law: a store whose files match a state is opened again with that state, head
/// and metadata and all, without an issue and without recovery. What the new
/// store holds agrees with the files, so the log is what it was.
#[verifier::spinoff_prover]
pub proof fn law_reopened_store_is_the_same(
    st: state::StateView,
    d: action::Disk,
    ids: Seq<SegmentId>,
    trigger: u64,
)
    requires
        log_laws::files_match(st, d),
        log_laws::ordered(st, d),
        lists(ids, d),
        open::max_id(st) < u32::MAX,
    ensures
        ({
            let report = scan::scan_of(directory_of(d, ids));
            let s = open::opened_store(trigger, report);
            &&& report.issues == Seq::<FileIssue>::empty()
            &&& open::openable(report)
            &&& s.state == st
            &&& log_laws::synced(s, d)
        }),
{
    let report = scan::scan_of(directory_of(d, ids));
    let s = open::opened_store(trigger, report);
    let segs = st.segments;
    let n = segs.len() as int;
    let last = segs[n - 1];
    lemma_scan_finds_state(st, d, ids);
    truncate_end_laws::lemma_find_segment_at(segs, n - 1);
    assert(open::active_entry(st) == Some(last));
    assert forall|i: int| 0 <= i < n - 1 implies (#[trigger] report.segments[i]).id
        != report.segments[n - 1].id by {
        assert(segs[i].id != segs[n - 1].id);
    }
    lemma_find_report_at(report.segments, n - 1);
    let data = d.segments[last.id];
    assert(open::find_report(report.segments, last.id) == Some(scan::scanned(last.id, data)));
    assert(d.segments.contains_key(segs[n - 1].id) && log_laws::sound(d.segments[segs[n - 1].id]));
    assert(s.index =~= scanned_index(st, d));
    lemma_scanned_index_ok(st, d);
    lemma_clean_frontier(data, MAGIC_LEN as int);
    frame_laws::lemma_frame_count(data, MAGIC_LEN as int);
    if n > 1 {
        lemma_last_sealed(st, d);
    }
    assert(log_laws::last_ok(s, d));
    assert forall|id: SegmentId| #[trigger] d.segments.contains_key(id) implies id.0
        < s.next_seg_id.0 by {
        if st.is_live(id) {
            let i = choose|i: int| 0 <= i < segs.len() && (#[trigger] segs[i]).id == id;
            lemma_max_live_id(segs, i);
        } else {
            let i = choose|i: int| 0 <= i < st.dead.len() && st.dead[i] == id;
            lemma_max_dead_id(st.dead, i);
        }
    }
    assert(log_laws::memory_matches(s, d));
}

/// The frames of a clean file end where the file does.
pub proof fn lemma_clean_frontier(data: Seq<u8>, pos: int)
    requires
        frame_laws::clean(data, pos),
    ensures
        frame::frontier(data, pos) == data.len(),
    decreases data.len() - pos,
{
    match frame::raw_frame_at(data, pos) {
        crate::frame::RawFrame::Whole(f) => lemma_clean_frontier(data, f.end()),
        _ => {},
    }
}

/// The state of a new store.
pub open spec fn created_state() -> state::StateView {
    state::StateView {
        segments: seq![SegmentEntry { id: SegmentId(1), first_entry: EntryId(0) }],
        active: Some(SegmentId(1)),
        ..state::StateView::empty()
    }
}

/// Law: creating a store in an empty directory gives files that match the state
/// of a store without entries, so it can be opened.
#[verifier::spinoff_prover]
pub proof fn law_created_store_is_empty(d: action::Disk)
    requires
        d.segments == Map::<SegmentId, Seq<u8>>::empty(),
    ensures
        ({
            let e = action::perform_all(d, open::creation());
            &&& log_laws::files_match(created_state(), e)
            &&& log_laws::ordered(created_state(), e)
            &&& log_laws::log_of(created_state().segments, e) == Seq::<(u64, Seq<u8>)>::empty()
        }),
{
    let id = SegmentId(1);
    let op = open::creation_op();
    let st = created_state();
    let actions = open::creation();
    let d1 = action::perform(d, action::ActionView::CreateManifest);
    let d2 = action::perform(d1, action::ActionView::CreateSegment(id));
    let d3 = action::perform(d2, actions[2]);
    assert(action::perform_all(d, actions) == d3) by {
        reveal_with_fuel(action::perform_all, 5);
        let a3 = actions.drop_last();
        let a2 = a3.drop_last();
        let a1 = a2.drop_last();
        assert(a3.last() == actions[2] && a2.last() == actions[1] && a1.last() == actions[0]);
        assert(a1.drop_last().len() == 0);
    }
    let empty = state::StateView::empty();
    let magic = MANIFEST_MAGIC@;
    assert(manifest_laws::manifest_ok(empty, magic)) by {
        assert(magic.take(MAGIC_LEN as int) =~= magic);
        assert(frame::raw_frame_at(magic, MAGIC_LEN as int) is End);
    }
    assert(manifest_laws::recordable(op) && store::op_frame(op).len() <= 256) by {
        broadcast use crate::bytes::lemma_be_bytes_len;

        op_laws::lemma_bare_record_size(op.op);
    }
    assert(state::apply_op(empty, op) == Ok::<_, ApplyError>(st)) by {
        assert(state::merge_meta(empty.meta, op.meta) == empty.meta);
        assert(empty.segments.push(SegmentEntry { id, first_entry: EntryId(0) }) =~= st.segments);
    }
    manifest_laws::law_manifest_follows_state(empty, magic, op);
    assert(d3.manifest =~= magic + store::op_frame(op)) by {
        assert(magic.take(MAGIC_LEN as int) =~= magic);
    }
    op_laws::lemma_new_segment_is_sound();
    assert(st.segments[0].id == id);
    assert forall|x: SegmentId| #[trigger] d3.segments.contains_key(x) <==> st.is_live(x)
        || st.dead.contains(x) by {}
    assert(log_laws::files_match(st, d3));
    assert(log_laws::segment_frames(d3, id).len() == 0);
    assert(log_laws::ordered(st, d3));
    reveal_with_fuel(log_laws::log_of, 2);
    assert(log_laws::log_of(st.segments, d3) =~= Seq::<(u64, Seq<u8>)>::empty());
}

} // verus!
