//! What the manifest promises: it reads back as the state it was written for.

use vstd::prelude::*;

use crate::codec;
use crate::codec_laws;
use crate::files::{self, MAGIC_LEN, MANIFEST_MAGIC};
use crate::frame::{self, HEADER_LEN};
use crate::frame_laws;
use crate::manifest::{self, ReplayError};
use crate::state;
use crate::store;

verus! {

broadcast use crate::bytes::lemma_be_bytes_len;

/// The record can be written and read back: every count and length in it fits
/// its 32 bits.
pub open spec fn recordable(op: state::ManifestOpView) -> bool {
    codec_laws::encodes_exactly(op) && codec::encode_op(op).len() <= u32::MAX
}

/// `manifest` holds the records that lead to `state`, and nothing else.
pub open spec fn manifest_ok(state: state::StateView, manifest: Seq<u8>) -> bool {
    &&& files::has_magic(manifest, MANIFEST_MAGIC)
    &&& frame_laws::clean(manifest, MAGIC_LEN as int)
    &&& manifest::replay_from(state::StateView::empty(), manifest, MAGIC_LEN as int)
        == Ok::<_, ReplayError>(
        (state, manifest.len() as int),
    )
}

/// The replay of a manifest goes on from where the replay of its first part
/// ended.
pub proof fn lemma_replay_concat(
    s: state::StateView,
    t: state::StateView,
    a: Seq<u8>,
    b: Seq<u8>,
    pos: int,
)
    requires
        0 <= pos <= a.len(),
        manifest::replay_from(s, a, pos) == Ok::<_, ReplayError>((t, a.len() as int)),
    ensures
        manifest::replay_from(s, a + b, pos) == manifest::replay_from(t, a + b, a.len() as int),
    decreases a.len() - pos,
{
    match frame::raw_frame_at(a, pos) {
        frame::RawFrame::Whole(f) => {
            frame_laws::lemma_frame_is_local(a, b, pos);
            match manifest::replay_record(s, f.payload, pos as u64) {
                Ok(u) => lemma_replay_concat(u, t, a, b, f.end()),
                Err(_) => {},
            }
        },
        _ => {},
    }
}

/// Law: a record that is appended to a manifest, and fits the state there, is
/// replayed: the state is then what applying the record gives.
pub proof fn law_replay_applies_appended_record(
    s: state::StateView,
    t: state::StateView,
    a: Seq<u8>,
    pos: int,
    op: state::ManifestOpView,
)
    requires
        0 <= pos <= a.len(),
        manifest::replay_from(s, a, pos) == Ok::<_, ReplayError>((t, a.len() as int)),
        recordable(op),
        state::apply_op(t, op) is Ok,
    ensures
        manifest::replay_from(s, a + store::op_frame(op), pos) == Ok::<_, ReplayError>(
            (state::apply_op(t, op)->Ok_0, (a + store::op_frame(op)).len() as int),
        ),
{
    let frame = store::op_frame(op);
    let data = a + frame;
    lemma_replay_concat(s, t, a, frame, pos);
    frame_laws::law_frame_reads_back(a, 0, codec::encode_op(op), Seq::empty());
    assert(a + frame + Seq::<u8>::empty() =~= data);
    let f = frame::Frame { start: a.len() as int, id: 0u64, payload: codec::encode_op(op) };
    assert(frame::raw_frame_at(data, a.len() as int) == frame::RawFrame::Whole(f));
    codec_laws::law_decode_inverts_encode(op);
    assert(manifest::replay_record(t, codec::encode_op(op), a.len() as u64) == Ok::<_, ReplayError>(
        state::apply_op(t, op)->Ok_0,
    )) by {
        reveal(manifest::replay_record);
    }
    assert(f.end() == data.len());
    assert(frame::raw_frame_at(data, data.len() as int) is End);
    assert(manifest::replay_from(state::apply_op(t, op)->Ok_0, data, data.len() as int) == Ok::<_, ReplayError>(
        (state::apply_op(t, op)->Ok_0, data.len() as int),
    ));
}

/// Law: a record that was torn while it was appended has no effect on a replay,
/// which ends before it.
pub proof fn law_replay_ignores_torn_record(
    s: state::StateView,
    t: state::StateView,
    a: Seq<u8>,
    pos: int,
    op: state::ManifestOpView,
    cut: int,
)
    requires
        0 <= pos <= a.len(),
        manifest::replay_from(s, a, pos) == Ok::<_, ReplayError>((t, a.len() as int)),
        recordable(op),
        0 <= cut < store::op_frame(op).len(),
    ensures
        manifest::replay_from(s, a + store::op_frame(op).take(cut), pos) == Ok::<_, ReplayError>(
            (t, a.len() as int),
        ),
{
    let frame = store::op_frame(op);
    let torn = frame.take(cut);
    let data = a + torn;
    let start = a.len() as int;
    lemma_replay_concat(s, t, a, torn, pos);
    if cut >= HEADER_LEN {
        frame_laws::law_frame_reads_back(a, 0, codec::encode_op(op), Seq::empty());
        let full = a + frame + Seq::<u8>::empty();
        assert(data.subrange(start + 8, start + 12) =~= full.subrange(start + 8, start + 12));
        assert(frame::raw_frame_at(data, start) is TornPayload);
    } else {
        assert(!(frame::raw_frame_at(data, start) is Whole));
    }
}

/// Law: appending a record to a manifest gives the manifest of the state that
/// the record leads to.
pub proof fn law_manifest_follows_state(
    state: state::StateView,
    manifest: Seq<u8>,
    op: state::ManifestOpView,
)
    requires
        manifest_ok(state, manifest),
        recordable(op),
        state::apply_op(state, op) is Ok,
    ensures
        manifest_ok(state::apply_op(state, op)->Ok_0, manifest + store::op_frame(op)),
{
    let start = MAGIC_LEN as int;
    frame_laws::law_append_adds_frame(manifest, start, 0, codec::encode_op(op));
    law_replay_applies_appended_record(state::StateView::empty(), state, manifest, start, op);
    assert((manifest + store::op_frame(op)).take(start) =~= manifest.take(start));
}

} // verus!
