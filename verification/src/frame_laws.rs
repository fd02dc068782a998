//! What the frame format promises of whole files.

use vstd::prelude::*;

use crate::bytes;
use crate::frame::{self, HEADER_LEN, ScanStatus};

verus! {

broadcast use crate::bytes::lemma_be_bytes_len;

/// `data` holds nothing but valid frames from `pos` on.
pub open spec fn clean(data: Seq<u8>, pos: int) -> bool {
    0 <= pos <= data.len() && frame::tail_status(data, pos) == ScanStatus::Clean
}

/// A complete frame does not depend on what follows it.
pub proof fn lemma_frame_is_local(a: Seq<u8>, b: Seq<u8>, pos: int)
    requires
        frame::raw_frame_at(a, pos) is Whole,
    ensures
        frame::raw_frame_at(a + b, pos) == frame::raw_frame_at(a, pos),
        frame::intact(a + b, frame::raw_frame_at(a, pos)->Whole_0)
            == frame::intact(a, frame::raw_frame_at(a, pos)->Whole_0),
{
    let f = frame::raw_frame_at(a, pos)->Whole_0;
    assert((a + b).subrange(pos, pos + 8) =~= a.subrange(pos, pos + 8));
    assert((a + b).subrange(pos + 8, pos + 12) =~= a.subrange(pos + 8, pos + 12));
    assert((a + b).subrange(pos + 12, pos + 20) =~= a.subrange(pos + 12, pos + 20));
    assert((a + b).subrange(pos + HEADER_LEN, f.end()) =~= a.subrange(pos + HEADER_LEN, f.end()));
}

/// Law: a frame is read back as it was written. Wherever in a file the bytes of
/// a frame stand, a reader finds there the id and the payload it was made of,
/// and the checksum matches.
pub proof fn law_frame_reads_back(a: Seq<u8>, id: u64, payload: Seq<u8>, b: Seq<u8>)
    requires
        payload.len() <= u32::MAX,
    ensures
        ({
            let data = a + frame::encode_frame(id, payload) + b;
            let f = frame::Frame { start: a.len() as int, id, payload };
            frame::raw_frame_at(data, a.len() as int)
                == frame::RawFrame::Whole(f) && frame::intact(data, f)
        }),
{
    let data = a + frame::encode_frame(id, payload) + b;
    let pos = a.len() as int;
    let sum = frame::frame_checksum(id, payload);
    let n = payload.len();
    crate::bytes::lemma_pow256_values();
    crate::bytes::lemma_value_of_bytes(id as nat, 8);
    crate::bytes::lemma_value_of_bytes(n, 4);
    crate::bytes::lemma_value_of_bytes(sum as nat, 8);
    assert((n as u32) as nat == n);
    assert(data.subrange(pos, pos + 8) =~= bytes::be_bytes(id as nat, 8));
    assert(data.subrange(pos + 8, pos + 12) =~= bytes::be_bytes(n, 4));
    assert(data.subrange(pos + 12, pos + 20) =~= bytes::be_bytes(sum as nat, 8));
    assert(data.subrange(pos + HEADER_LEN, pos + HEADER_LEN + n) =~= payload);
}

/// The frames of a file with something appended to a clean part are those of
/// that part, then those of the rest.
pub proof fn lemma_frames_concat(a: Seq<u8>, b: Seq<u8>, pos: int)
    requires
        clean(a, pos),
    ensures
        frame::frames(a + b, pos) == frame::frames(a, pos) + frame::frames(a + b, a.len() as int),
        frame::frontier(a + b, pos) == frame::frontier(a + b, a.len() as int),
        frame::tail_status(a + b, pos) == frame::tail_status(a + b, a.len() as int),
    decreases a.len() - pos,
{
    match frame::raw_frame_at(a, pos) {
        frame::RawFrame::Whole(f) => {
            lemma_frame_is_local(a, b, pos);
            lemma_frames_concat(a, b, f.end());
            assert(seq![f] + (frame::frames(a, f.end()) + frame::frames(a + b, a.len() as int)) =~= (seq![f]
                + frame::frames(a, f.end())) + frame::frames(a + b, a.len() as int));
        },
        _ => {
            assert(pos == a.len());
            assert(frame::frames(a, pos) + frame::frames(a + b, pos) =~= frame::frames(a + b, pos));
        },
    }
}

/// Law: appending a frame to a clean file adds that frame and nothing else, and
/// leaves the file clean.
pub proof fn law_append_adds_frame(a: Seq<u8>, pos: int, id: u64, payload: Seq<u8>)
    requires
        clean(a, pos),
        payload.len() <= u32::MAX,
    ensures
        ({
            let data = a + frame::encode_frame(id, payload);
            &&& clean(data, pos)
            &&& frame::frames(data, pos) == frame::frames(a, pos).push(
                frame::Frame { start: a.len() as int, id, payload },
            )
        }),
{
    let e = frame::encode_frame(id, payload);
    let data = a + e;
    let f = frame::Frame { start: a.len() as int, id, payload };
    law_frame_reads_back(a, id, payload, Seq::empty());
    assert(a + e + Seq::<u8>::empty() =~= data);
    lemma_frames_concat(a, e, pos);
    assert(f.end() == data.len());
    assert(frame::raw_frame_at(data, data.len() as int) is End);
    assert(frame::frames(data, data.len() as int) =~= Seq::empty());
    assert(frame::frames(data, a.len() as int) =~= seq![f]);
    assert(frame::tail_status(data, data.len() as int) == ScanStatus::Clean);
    assert(frame::frames(a, pos) + seq![f] =~= frame::frames(a, pos).push(f));
}

/// Law: a torn write is never taken for data. After a clean part, any proper
/// non-empty prefix of a frame leaves the valid frames and the write frontier
/// as they were, and is reported as a torn tail.
pub proof fn law_torn_write_is_detected(a: Seq<u8>, pos: int, id: u64, payload: Seq<u8>, cut: int)
    requires
        clean(a, pos),
        payload.len() <= u32::MAX,
        0 < cut < frame::encode_frame(id, payload).len(),
    ensures
        ({
            let data = a + frame::encode_frame(id, payload).take(cut);
            &&& frame::frames(data, pos) == frame::frames(a, pos)
            &&& frame::frontier(data, pos) == a.len()
            &&& frame::tail_status(data, pos) == ScanStatus::TornTail
        }),
{
    let e = frame::encode_frame(id, payload);
    let t = e.take(cut);
    let data = a + t;
    let start = a.len() as int;
    lemma_frames_concat(a, t, pos);
    if cut >= HEADER_LEN {
        law_frame_reads_back(a, id, payload, Seq::empty());
        let full = a + e + Seq::<u8>::empty();
        assert(data.subrange(start + 8, start + 12) =~= full.subrange(start + 8, start + 12));
        assert(frame::header_payload_len(data, start) == payload.len());
        assert(frame::raw_frame_at(data, start) is TornPayload);
    } else {
        assert(frame::raw_frame_at(data, start) is TornHeader);
    }
    assert(frame::frames(a, pos) + Seq::<frame::Frame>::empty() =~= frame::frames(a, pos));
}

/// Where the first `k` frames of `data` from `pos` on end.
pub open spec fn end_of_first(data: Seq<u8>, pos: int, k: int) -> int {
    if k == 0 {
        pos
    } else {
        frame::frames(data, pos)[k - 1].end()
    }
}

/// The valid frames end within the file, where the last one does.
pub proof fn lemma_frontier(data: Seq<u8>, pos: int)
    requires
        0 <= pos <= data.len(),
    ensures
        pos <= frame::frontier(data, pos) <= data.len(),
        frame::frontier(data, pos) == end_of_first(
            data,
            pos,
            frame::frames(data, pos).len() as int,
        ),
    decreases data.len() - pos,
{
    match frame::raw_frame_at(data, pos) {
        frame::RawFrame::Whole(f) if frame::intact(data, f) => {
            let rest = frame::frames(data, f.end());
            lemma_frontier(data, f.end());
            assert(frame::frames(data, pos) =~= seq![f] + rest);
        },
        _ => {},
    }
}

/// A file has no more frames than bytes.
pub proof fn lemma_frame_count(data: Seq<u8>, pos: int)
    requires
        0 <= pos <= data.len(),
    ensures
        frame::frames(data, pos).len() <= data.len() - pos,
    decreases data.len() - pos,
{
    match frame::raw_frame_at(data, pos) {
        frame::RawFrame::Whole(f) if frame::intact(data, f) => lemma_frame_count(data, f.end()),
        _ => {},
    }
}

/// Frame `i` is a valid frame. It starts where the one before it ends, and ends
/// within the file.
pub proof fn lemma_frame_at(data: Seq<u8>, pos: int, i: int)
    requires
        0 <= pos <= data.len(),
        0 <= i < frame::frames(data, pos).len(),
    ensures
        ({
            let f = frame::frames(data, pos)[i];
            &&& f.start == end_of_first(data, pos, i)
            &&& frame::raw_frame_at(data, f.start) == frame::RawFrame::Whole(f)
            &&& frame::intact(data, f)
            &&& pos <= f.start
            &&& f.end() <= data.len()
        }),
    decreases i,
{
    let fs = frame::frames(data, pos);
    let f = frame::raw_frame_at(data, pos)->Whole_0;
    let rest = frame::frames(data, f.end());
    assert(fs =~= seq![f] + rest);
    if i > 0 {
        lemma_frame_at(data, f.end(), i - 1);
        assert(fs[i] == rest[i - 1]);
        if i > 1 {
            assert(fs[i - 1] == rest[i - 2]);
        }
    }
}

/// A complete frame does not depend on what is cut off behind it.
pub proof fn lemma_frame_survives_cut(data: Seq<u8>, pos: int, e: int)
    requires
        frame::raw_frame_at(data, pos) is Whole,
        frame::raw_frame_at(data, pos)->Whole_0.end() <= e <= data.len(),
    ensures
        frame::raw_frame_at(data.take(e), pos) == frame::raw_frame_at(data, pos),
        frame::intact(data.take(e), frame::raw_frame_at(data, pos)->Whole_0) == frame::intact(
            data,
            frame::raw_frame_at(data, pos)->Whole_0,
        ),
{
    let f = frame::raw_frame_at(data, pos)->Whole_0;
    let cut = data.take(e);
    assert(cut.subrange(pos, pos + 8) =~= data.subrange(pos, pos + 8));
    assert(cut.subrange(pos + 8, pos + 12) =~= data.subrange(pos + 8, pos + 12));
    assert(cut.subrange(pos + 12, pos + 20) =~= data.subrange(pos + 12, pos + 20));
    assert(cut.subrange(pos + HEADER_LEN, f.end()) =~= data.subrange(pos + HEADER_LEN, f.end()));
}

/// Law: a file cut off after its first `k` valid frames is clean and holds
/// exactly those frames. With `k` the number of valid frames this is what
/// truncating a torn tail does.
#[verifier::spinoff_prover]
pub proof fn law_cut_keeps_prefix(data: Seq<u8>, pos: int, k: int)
    requires
        0 <= pos <= data.len(),
        0 <= k <= frame::frames(data, pos).len(),
    ensures
        ({
            let cut = data.take(end_of_first(data, pos, k));
            &&& pos <= end_of_first(data, pos, k) <= data.len()
            &&& clean(cut, pos)
            &&& frame::frames(cut, pos) == frame::frames(data, pos).take(k)
        }),
    decreases k,
{
    let fs = frame::frames(data, pos);
    let e = end_of_first(data, pos, k);
    let cut = data.take(e);
    if k == 0 {
        assert(frame::raw_frame_at(cut, pos) is End);
        assert(frame::frames(cut, pos) =~= fs.take(0));
    } else {
        let f = frame::raw_frame_at(data, pos)->Whole_0;
        let rest = frame::frames(data, f.end());
        assert(fs =~= seq![f] + rest);
        lemma_frame_at(data, pos, k - 1);
        assert(end_of_first(data, f.end(), k - 1) == e) by {
            if k > 1 {
                assert(fs[k - 1] == rest[k - 2]);
            }
        }
        law_cut_keeps_prefix(data, f.end(), k - 1);
        lemma_frame_survives_cut(data, pos, e);
        assert(seq![f] + rest.take(k - 1) =~= fs.take(k));
    }
}

/// The number of leading frames with an id below `target`.
pub open spec fn count_below(fs: Seq<frame::Frame>, target: u64) -> nat
    decreases fs.len(),
{
    if fs.len() == 0 || fs[0].id >= target {
        0
    } else {
        1 + count_below(fs.skip(1), target)
    }
}

/// In a clean file a seek never fails, and stops right before the frames that
/// follow those with a smaller id.
pub proof fn lemma_seek_in_clean(data: Seq<u8>, pos: int, target: u64)
    requires
        clean(data, pos),
    ensures
        frame::seek(data, pos, target) is Ok,
        count_below(frame::frames(data, pos), target) <= frame::frames(data, pos).len(),
        ({
            let p = frame::seek(data, pos, target)->Ok_0;
            let k = count_below(frame::frames(data, pos), target) as int;
            &&& pos <= p <= data.len()
            &&& clean(data, p)
            &&& frame::frames(data, p) == frame::frames(data, pos).skip(k)
        }),
    decreases data.len() - pos,
{
    let fs = frame::frames(data, pos);
    match frame::raw_frame_at(data, pos) {
        frame::RawFrame::Whole(f) => {
            let rest = frame::frames(data, f.end());
            assert(fs =~= seq![f] + rest);
            assert(fs.skip(1) =~= rest);
            if f.id < target {
                lemma_seek_in_clean(data, f.end(), target);
                let k = count_below(rest, target) as int;
                assert(fs.skip(k + 1) =~= rest.skip(k));
            } else {
                assert(fs.skip(0) =~= fs);
            }
        },
        _ => {
            assert(fs.skip(0) =~= fs);
        },
    }
}

} // verus!
