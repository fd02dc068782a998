//! What the frames of a file are, byte by byte, and what scanning them finds.

use vstd::prelude::*;

use crate::bytes;
use crate::frame::{self, ScanStatus};
use crate::EntryId;

verus! {

broadcast use crate::bytes::lemma_be_bytes_len;

// ── One frame ─────────────────────────────────────────────────────────────────

/// Law: a frame is the id in 8 bytes, the low 32 bits of the payload's length in
/// 4, the checksum in 8, and the payload. The checksum is the xxHash-64 digest,
/// with seed 0, of the id bytes and the whole payload.
pub proof fn law_frame_layout(id: u64, payload: Seq<u8>)
    ensures
        ({
            let s = frame::encode_frame(id, payload);
            let head = bytes::be_bytes(id as nat, 8);
            &&& s.len() == 20 + payload.len()
            &&& s.subrange(0, 8) == head
            &&& s.subrange(8, 12) == bytes::be_bytes((payload.len() as u32) as nat, 4)
            &&& s.subrange(12, 20) == bytes::be_bytes(
                frame::xxh64_digest(0, head + payload) as nat,
                8,
            )
            &&& s.skip(20) == payload
        }),
{
    let s = frame::encode_frame(id, payload);
    let head = bytes::be_bytes(id as nat, 8);
    assert(s.subrange(0, 8) =~= head);
    assert(s.subrange(8, 12) =~= bytes::be_bytes((payload.len() as u32) as nat, 4));
    assert(s.subrange(12, 20) =~= bytes::be_bytes(
        frame::xxh64_digest(0, head + payload) as nat,
        8,
    ));
    assert(s.skip(20) =~= payload);
}

/// Law: the checksum of a frame is the digest, with seed 0, of its id bytes and
/// its whole payload, so that frames that differ in either are digested from
/// different bytes.
pub proof fn law_checksum_covers_id_and_payload(
    a: u64,
    x: Seq<u8>,
    b: u64,
    y: Seq<u8>,
)
    ensures
        frame::frame_checksum(a, x) == frame::xxh64_digest(0, bytes::be_bytes(a as nat, 8) + x),
        bytes::be_bytes(a as nat, 8) + x == bytes::be_bytes(b as nat, 8) + y ==> a == b && x == y,
{
    let (p, q) = (bytes::be_bytes(a as nat, 8), bytes::be_bytes(b as nat, 8));
    if p + x == q + y {
        assert(p =~= (p + x).take(8));
        assert(q =~= (q + y).take(8));
        assert(x =~= (p + x).skip(8));
        assert(y =~= (q + y).skip(8));
        bytes::lemma_pow256_values();
        bytes::lemma_value_of_bytes(a as nat, 8);
        bytes::lemma_value_of_bytes(b as nat, 8);
    }
}

/// The length of the payload that the header at `pos` announces.
pub open spec fn announced(data: Seq<u8>, pos: int) -> int {
    bytes::be_value(data.subrange(pos + 8, pos + 12)) as int
}

/// Law: what a reader finds at an offset. Nothing where no byte is left, a torn
/// header where fewer than 20 are, a torn payload where fewer are left behind the
/// header than it announces, and else a frame with the id and the payload that
/// stand there.
pub proof fn law_frame_is_what_stands_there(data: Seq<u8>, pos: int)
    requires
        0 <= pos,
    ensures
        ({
            let left = data.len() - pos;
            let r = frame::raw_frame_at(data, pos);
            &&& r is End <==> left <= 0
            &&& r is TornHeader <==> 0 < left < 20
            &&& r is TornPayload <==> left >= 20 && left < 20 + announced(data, pos)
            &&& r is Whole <==> left >= 20 && left >= 20 + announced(data, pos)
            &&& r matches frame::RawFrame::TornPayload { id, payload_len } ==> {
                &&& id == bytes::be_value(data.subrange(pos, pos + 8))
                &&& payload_len == announced(data, pos)
            }
            &&& r matches frame::RawFrame::Whole(f) ==> {
                &&& f.start == pos
                &&& f.id == bytes::be_value(data.subrange(pos, pos + 8))
                &&& f.payload == data.subrange(pos + 20, pos + 20 + announced(data, pos))
                &&& f.end() == pos + 20 + announced(data, pos)
            }
        }),
{
    if data.len() - pos >= 20 {
        bytes::lemma_pow256_values();
        bytes::lemma_value_bound(data.subrange(pos, pos + 8));
    }
}

/// Law: a frame is intact exactly where the checksum in its header is the digest
/// of the 8 id bytes and all the payload bytes that stand in the file. A change of
/// any of them is a change of what is digested.
pub proof fn law_intact_means_checksum_matches(data: Seq<u8>, pos: int)
    requires
        0 <= pos,
        frame::raw_frame_at(data, pos) is Whole,
    ensures
        ({
            let f = frame::raw_frame_at(data, pos)->Whole_0;
            let end = pos + 20 + announced(data, pos);
            frame::intact(data, f) <==> bytes::be_value(data.subrange(pos + 12, pos + 20))
                == frame::xxh64_digest(
                0,
                data.subrange(pos, pos + 8) + data.subrange(pos + 20, end),
            )
        }),
{
    law_frame_is_what_stands_there(data, pos);
    bytes::lemma_pow256_values();
    bytes::lemma_value_bound(data.subrange(pos + 12, pos + 20));
    bytes::lemma_bytes_of_value(data.subrange(pos, pos + 8));
}

/// Law: a scanner that moves to an offset reads on from there and reports it; one
/// that meets a torn frame has nothing left to read and still reports where that
/// frame starts; and one that stays reports what it did.
pub proof fn law_scanner_stands_where_it_moved(v: frame::ScannerView, pos: int)
    ensures
        v.at(pos) == (frame::ScannerView { cursor: pos, position: pos as u64, ..v }),
        v.exhausted() == (frame::ScannerView { cursor: v.data.len() as int, ..v }),
        v.moved(v.cursor) == v,
        pos != v.cursor ==> v.moved(pos) == v.at(pos),
        v.wf() <==> 0 <= v.cursor <= v.data.len() && v.data.len() < 0x8000_0000_0000_0000 && (
        v.cursor == v.data.len() || v.position == v.cursor),
{
}

// ── All frames ────────────────────────────────────────────────────────────────

/// `fs` are frames of `data`, one right after another from `pos` on.
pub open spec fn chain(data: Seq<u8>, pos: int, fs: Seq<frame::Frame>) -> bool {
    &&& forall|i: int|
        0 <= i < fs.len() ==> frame::raw_frame_at(data, (#[trigger] fs[i]).start)
            == frame::RawFrame::Whole(fs[i])
    &&& fs.len() > 0 ==> fs[0].start == pos
    &&& forall|i: int, j: int|
        0 <= i && j == i + 1 && j < fs.len() ==> (#[trigger] fs[j]).start == (
        #[trigger] fs[i]).end()
}

/// Where frames that follow each other from `pos` on end.
pub open spec fn chain_end(pos: int, fs: Seq<frame::Frame>) -> int {
    if fs.len() == 0 {
        pos
    } else {
        fs.last().end()
    }
}

proof fn lemma_chain_front(data: Seq<u8>, pos: int, f: frame::Frame, rest: Seq<frame::Frame>)
    requires
        frame::raw_frame_at(data, pos) == frame::RawFrame::Whole(f),
        chain(data, f.end(), rest),
    ensures
        chain(data, pos, seq![f] + rest),
        chain_end(pos, seq![f] + rest) == chain_end(f.end(), rest),
{
    let fs = seq![f] + rest;
    assert forall|i: int| 0 <= i < fs.len() implies frame::raw_frame_at(
        data,
        (#[trigger] fs[i]).start,
    ) == frame::RawFrame::Whole(fs[i]) by {
        if i > 0 {
            assert(fs[i] == rest[i - 1]);
        }
    }
    assert forall|i: int, j: int| 0 <= i && j == i + 1 && j < fs.len() implies (
    #[trigger] fs[j]).start == (#[trigger] fs[i]).end() by {
        assert(fs[j] == rest[j - 1]);
        if i > 0 {
            assert(fs[i] == rest[i - 1]);
        }
    }
}

/// Law: a scan finds the intact frames that follow each other from an offset on,
/// and all of them: it ends where no intact frame starts. What it says of the
/// rest is that there is none, that it is a frame whose checksum does not match,
/// or that it is torn.
pub proof fn law_scan_finds_all_intact_frames(data: Seq<u8>, pos: int)
    requires
        0 <= pos <= data.len(),
    ensures
        ({
            let fs = frame::frames(data, pos);
            let end = chain_end(pos, fs);
            let next = frame::raw_frame_at(data, end);
            &&& chain(data, pos, fs)
            &&& forall|i: int| 0 <= i < fs.len() ==> frame::intact(data, #[trigger] fs[i])
            &&& frame::frontier(data, pos) == end
            &&& pos <= end <= data.len()
            &&& !(next matches frame::RawFrame::Whole(f) && frame::intact(data, f))
            &&& frame::tail_status(data, pos) == if end == data.len() {
                ScanStatus::Clean
            } else if next is Whole {
                ScanStatus::ChecksumCorrupt
            } else {
                ScanStatus::TornTail
            }
        }),
    decreases data.len() - pos,
{
    let fs = frame::frames(data, pos);
    match frame::raw_frame_at(data, pos) {
        frame::RawFrame::Whole(f) if frame::intact(data, f) => {
            let rest = frame::frames(data, f.end());
            law_scan_finds_all_intact_frames(data, f.end());
            lemma_chain_front(data, pos, f, rest);
            assert(fs =~= seq![f] + rest);
            assert forall|i: int| 0 <= i < fs.len() implies frame::intact(
                data,
                #[trigger] fs[i],
            ) by {
                if i > 0 {
                    assert(fs[i] == rest[i - 1]);
                }
            }
        },
        _ => {},
    }
}

/// Of `m` frames with a checkpoint every `k`, counted from 0, `n` have one: so it
/// is with the next one.
proof fn lemma_next_checkpoint(m: int, n: int, k: int)
    requires
        m >= 0,
        n >= 0,
        k > 0,
        n * k >= m,
        n > 0 ==> (n - 1) * k < m,
    ensures
        m % k == 0 ==> m == n * k && (n + 1) * k >= m + 1,
        m % k != 0 ==> n > 0 && n * k >= m + 1,
{
    if m % k == 0 {
        let q = m / k;
        assert(m == q * k) by (nonlinear_arith)
            requires
                m % k == 0,
                q == m / k,
                k > 0,
        ;
        assert(q == n) by (nonlinear_arith)
            requires
                m == q * k,
                n * k >= m,
                n > 0 ==> (n - 1) * k < m,
                n >= 0,
                m >= 0,
                k > 0,
        ;
        assert((n + 1) * k >= m + 1) by (nonlinear_arith)
            requires
                m == n * k,
                k > 0,
        ;
    } else {
        assert(n * k != m) by {
            if n * k == m {
                vstd::arithmetic::div_mod::lemma_mod_multiples_basic(n, k);
            }
        }
        assert(n > 0) by (nonlinear_arith)
            requires
                n * k >= m + 1,
                m >= 0,
                n >= 0,
        ;
    }
}

/// The checkpoint is that of frame `i`: its id and its offset.
pub open spec fn is_frame_no(fs: Seq<frame::Frame>, i: int, c: (EntryId, u64)) -> bool {
    &&& 0 <= i < fs.len()
    &&& c == (EntryId(fs[i].id), fs[i].start as u64)
}

/// Law: a scan records a checkpoint for frame 0 and every `stride`-th after it,
/// with the frame's id and offset, and for no other frame.
#[verifier::spinoff_prover]
pub proof fn law_checkpoints_at_stride(fs: Seq<frame::Frame>, stride: nat)
    requires
        stride > 0,
    ensures
        ({
            let cs = frame::checkpoints_of(fs, stride);
            &&& cs.len() * stride >= fs.len()
            &&& cs.len() > 0 ==> (cs.len() - 1) * stride < fs.len()
            &&& forall|c: int| 0 <= c < cs.len() ==> is_frame_no(fs, c * stride, #[trigger] cs[c])
        }),
    decreases fs.len(),
{
    let cs = frame::checkpoints_of(fs, stride);
    if fs.len() > 0 {
        let front = fs.drop_last();
        law_checkpoints_at_stride(front, stride);
        let before = frame::checkpoints_of(front, stride);
        let m = front.len() as int;
        let n = before.len() as int;
        let k = stride as int;
        lemma_next_checkpoint(m, n, k);
        assert(m % k == ((fs.len() - 1) as nat % stride) as int);
        if m % k == 0 {
            assert(cs == before.push((EntryId(fs.last().id), fs.last().start as u64)));
            assert(cs.len() - 1 == n);
            assert(cs.len() * stride >= fs.len());
            assert((cs.len() - 1) * stride < fs.len());
        } else {
            assert(cs == before);
            assert(cs.len() * stride >= fs.len());
            assert((cs.len() - 1) * stride < fs.len());
        }
        assert forall|c: int| 0 <= c < cs.len() implies is_frame_no(
            fs,
            c * stride,
            #[trigger] cs[c],
        ) by {
            if c < n {
                assert(cs[c] == before[c]);
                assert(is_frame_no(front, c * stride, before[c]));
            } else {
                assert(c * stride == m);
            }
        }
    } else {
        assert(cs.len() == 0);
        assert(cs.len() * stride >= fs.len());
    }
}

/// Law: seeking passes over the frames with smaller ids, and no others. It stops
/// before the first frame with an id of at least the target, or at the end, and
/// fails only at a frame that is torn before that is known. The frames passed
/// over are returned.
pub proof fn law_seek_passes_smaller_ids(
    data: Seq<u8>,
    pos: int,
    target: u64,
) -> (fs: Seq<frame::Frame>)
    requires
        0 <= pos,
    ensures
        chain(data, pos, fs),
        forall|i: int| 0 <= i < fs.len() ==> (#[trigger] fs[i]).id < target,
        ({
            let end = chain_end(pos, fs);
            let next = frame::raw_frame_at(data, end);
            match frame::seek(data, pos, target) {
                Ok(p) => {
                    &&& p == end
                    &&& {
                        ||| next is End
                        ||| next matches frame::RawFrame::Whole(f) && f.id >= target
                        ||| next matches frame::RawFrame::TornPayload { id, .. } && id >= target
                    }
                },
                Err(p) => {
                    &&& p == end
                    &&& {
                        ||| next is TornHeader
                        ||| next matches frame::RawFrame::TornPayload { id, .. } && id < target
                    }
                },
            }
        }),
    decreases data.len() - pos,
{
    match frame::raw_frame_at(data, pos) {
        frame::RawFrame::Whole(f) => {
            if f.id < target {
                let rest = law_seek_passes_smaller_ids(data, f.end(), target);
                lemma_chain_front(data, pos, f, rest);
                let fs = seq![f] + rest;
                assert forall|i: int| 0 <= i < fs.len() implies (#[trigger] fs[i]).id < target by {
                    if i > 0 {
                        assert(fs[i] == rest[i - 1]);
                    }
                }
                fs
            } else {
                Seq::empty()
            }
        },
        _ => Seq::empty(),
    }
}

/// Law: a search for an id ends right behind the first frame with it, and fails
/// exactly where the frames end, or one is torn, before there is one. The frames
/// passed over are returned.
pub proof fn law_search_ends_behind_the_id(
    data: Seq<u8>,
    pos: int,
    target: u64,
) -> (fs: Seq<frame::Frame>)
    requires
        0 <= pos,
    ensures
        chain(data, pos, fs),
        match frame::end_of_id(data, pos, target) {
            Ok(p) => {
                &&& fs.len() > 0
                &&& fs.last().id == target
                &&& p == fs.last().end()
                &&& forall|i: int| 0 <= i < fs.len() - 1 ==> (#[trigger] fs[i]).id != target
            },
            Err(p) => {
                &&& p == chain_end(pos, fs)
                &&& !(frame::raw_frame_at(data, p) is Whole)
                &&& forall|i: int| 0 <= i < fs.len() ==> (#[trigger] fs[i]).id != target
            },
        },
    decreases data.len() - pos,
{
    match frame::raw_frame_at(data, pos) {
        frame::RawFrame::Whole(f) => {
            if f.id == target {
                let none = Seq::<frame::Frame>::empty();
                lemma_chain_front(data, pos, f, none);
                assert(seq![f] + none =~= seq![f]);
                seq![f]
            } else {
                let rest = law_search_ends_behind_the_id(data, f.end(), target);
                lemma_chain_front(data, pos, f, rest);
                let fs = seq![f] + rest;
                assert(forall|i: int| 0 < i < fs.len() ==> #[trigger] fs[i] == rest[i - 1]);
                fs
            }
        },
        _ => Seq::empty(),
    }
}

/// Law: skipping passes over as many frames as asked for, or as there are, and
/// fails at one that is torn. The frames passed over are returned.
pub proof fn law_skip_passes_frames(data: Seq<u8>, pos: int, n: nat) -> (fs: Seq<frame::Frame>)
    requires
        0 <= pos,
    ensures
        chain(data, pos, fs),
        match frame::skip_frames(data, pos, n) {
            Ok((k, end)) => {
                &&& k == fs.len()
                &&& k <= n
                &&& end == chain_end(pos, fs)
                &&& k < n ==> frame::raw_frame_at(data, end) is End
            },
            Err(p) => {
                let next = frame::raw_frame_at(data, p);
                &&& fs.len() < n
                &&& p == chain_end(pos, fs)
                &&& next is TornHeader || next is TornPayload
            },
        },
    decreases n,
{
    if n == 0 {
        Seq::empty()
    } else {
        match frame::raw_frame_at(data, pos) {
            frame::RawFrame::Whole(f) => {
                let rest = law_skip_passes_frames(data, f.end(), (n - 1) as nat);
                lemma_chain_front(data, pos, f, rest);
                seq![f] + rest
            },
            _ => Seq::empty(),
        }
    }
}

} // verus!
