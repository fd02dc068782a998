//! What manifest records look like, field by field, and how they are read.

use vstd::prelude::*;

use crate::bytes;
use crate::codec::{self, DecodeError};
use crate::frame;
use crate::frame_laws;
use crate::manifest::{self, ReplayError};
use crate::manifest_laws;
use crate::state;
use crate::tlv;

verus! {

broadcast use crate::bytes::lemma_be_bytes_len;

// ── Writing ───────────────────────────────────────────────────────────────────

/// Law: the fields of a tag-length-value frame follow each other: two bytes of
/// tag, four of length, and the value, behind a 1 and the number of fields.
pub proof fn law_fields_follow_each_other(fields: Seq<(u16, Seq<u8>)>, tag: u16, value: Seq<u8>)
    ensures
        tlv::frame_bytes(fields)[0] == 1,
        tlv::frame_bytes(fields).subrange(1, 5) == bytes::be_bytes(fields.len(), 4),
        tlv::frame_bytes(Seq::empty()).len() == 5,
        tlv::frame_bytes(fields.push((tag, value))).skip(5) == tlv::frame_bytes(fields).skip(5)
            + bytes::be_bytes(tag as nat, 2) + bytes::be_bytes((value.len() as u32) as nat, 4)
            + value,
{
    let more = fields.push((tag, value));
    lemma_fields_push(fields, tag, value);
    assert(tlv::frame_bytes(fields).subrange(1, 5) =~= bytes::be_bytes(fields.len(), 4));
    assert(tlv::frame_bytes(fields).skip(5) =~= tlv::fields_bytes(fields));
    assert(tlv::frame_bytes(more).skip(5) =~= tlv::fields_bytes(more));
    assert(tlv::frame_bytes(more).skip(5) =~= tlv::frame_bytes(fields).skip(5) + bytes::be_bytes(
        tag as nat,
        2,
    ) + bytes::be_bytes((value.len() as u32) as nat, 4) + value);
}

proof fn lemma_fields_push(fields: Seq<(u16, Seq<u8>)>, tag: u16, value: Seq<u8>)
    ensures
        tlv::fields_bytes(fields.push((tag, value))) == tlv::fields_bytes(fields)
            + tlv::field_bytes(tag, value),
    decreases fields.len(),
{
    let more = fields.push((tag, value));
    if fields.len() == 0 {
        assert(more.skip(1) =~= Seq::empty());
        reveal_with_fuel(tlv::fields_bytes, 2);
        assert(tlv::fields_bytes(more) =~= tlv::fields_bytes(fields) + tlv::field_bytes(
            tag,
            value,
        ));
    } else {
        lemma_fields_push(fields.skip(1), tag, value);
        assert(more.skip(1) =~= fields.skip(1).push((tag, value)));
        assert(tlv::fields_bytes(more) =~= tlv::fields_bytes(fields) + tlv::field_bytes(
            tag,
            value,
        ));
    }
}

/// `f` is a field of 4 bytes.
pub open spec fn is_u32(f: (u16, Seq<u8>), tag: u16, x: u32) -> bool {
    f == (tag, bytes::be_bytes(x as nat, 4))
}

/// `f` is a field of 8 bytes.
pub open spec fn is_u64(f: (u16, Seq<u8>), tag: u16, x: u64) -> bool {
    f == (tag, bytes::be_bytes(x as nat, 8))
}

/// How many fields hold what an operation says, and its kind.
pub open spec fn head_len(op: state::OpView) -> nat {
    match op {
        state::OpView::CreateSegment { .. } => 3,
        state::OpView::RollSegment { .. } => 8,
        state::OpView::TruncateStart { drop, .. } => 2 + drop.len(),
        state::OpView::TruncateEnd { drop, .. } => 3 + drop.len(),
        state::OpView::SegmentDeleted { .. } => 2,
        state::OpView::RecordOrphan { .. } => 2,
        state::OpView::Metadata => 1,
    }
}

/// Law: the fields of a record. The first one tells the kind of operation, those
/// after it hold what it says, one per dropped segment, and the last ones are the
/// metadata pairs, a nested frame with key and value each.
pub proof fn law_record_layout(e: state::ManifestOpView)
    ensures
        codec::encode_op(e) == tlv::frame_bytes(codec::op_fields(e)),
        ({
            let f = codec::op_fields(e);
            let n = head_len(e.op);
            let kind = |c: u8| f[0] == (1u16, seq![c]);
            &&& f.len() == n + e.meta.len()
            &&& match e.op {
                state::OpView::CreateSegment { id, first_entry } => kind(1) && is_u32(f[1], 2, id.0)
                    && is_u64(f[2], 3, first_entry.0),
                state::OpView::RollSegment { sealed_id, seal, new_id, new_first_entry } => {
                    &&& kind(2)
                    &&& is_u32(f[1], 2, sealed_id.0)
                    &&& is_u64(f[2], 3, seal.first_entry.0)
                    &&& is_u64(f[3], 4, seal.last_entry.0)
                    &&& is_u32(f[4], 5, seal.entry_count)
                    &&& is_u64(f[5], 6, seal.final_size)
                    &&& is_u32(f[6], 7, new_id.0)
                    &&& is_u64(f[7], 8, new_first_entry.0)
                },
                state::OpView::TruncateStart { first_entry, drop } => {
                    &&& kind(3)
                    &&& is_u64(f[1], 3, first_entry.0)
                    &&& forall|i: int| 0 <= i < drop.len() ==> is_u32(f[2 + i], 10, (#[trigger] drop[i]).0)
                },
                state::OpView::TruncateEnd { new_active_id, byte_offset, drop } => {
                    &&& kind(4)
                    &&& is_u32(f[1], 7, new_active_id.0)
                    &&& is_u64(f[2], 9, byte_offset)
                    &&& forall|i: int| 0 <= i < drop.len() ==> is_u32(f[3 + i], 10, (#[trigger] drop[i]).0)
                },
                state::OpView::SegmentDeleted { id } => kind(5) && is_u32(f[1], 2, id.0),
                state::OpView::RecordOrphan { id } => kind(6) && is_u32(f[1], 2, id.0),
                state::OpView::Metadata => kind(7),
            }
            &&& forall|i: int|
                0 <= i < e.meta.len() ==> f[n + i] == (
                    11u16,
                    tlv::frame_bytes(
                        seq![(1u16, seq![(#[trigger] e.meta[i]).0]), (2u16, e.meta[i].1)],
                    ),
                )
        }),
{
    let f = codec::op_fields(e);
    let body = codec::body_fields(e.op);
    let meta = codec::meta_fields(e.meta);
    let n = head_len(e.op);
    assert(n == 1 + body.len());
    assert(forall|i: int| 0 <= i < body.len() ==> f[1 + i] == #[trigger] body[i]);
    assert(forall|i: int| 0 <= i < meta.len() ==> f[n + i] == #[trigger] meta[i]);
    match e.op {
        state::OpView::RollSegment { .. } => {
            assert(f[1] == body[0] && f[2] == body[1] && f[3] == body[2] && f[4] == body[3]);
            assert(f[5] == body[4] && f[6] == body[5] && f[7] == body[6]);
        },
        state::OpView::CreateSegment { .. } => {
            assert(f[1] == body[0] && f[2] == body[1]);
        },
        state::OpView::TruncateStart { drop, .. } => {
            assert(f[1] == body[0]);
            assert forall|i: int| 0 <= i < drop.len() implies is_u32(
                f[2 + i],
                10,
                (#[trigger] drop[i]).0,
            ) by {
                assert(f[1 + (1 + i)] == body[1 + i]);
            }
        },
        state::OpView::TruncateEnd { drop, .. } => {
            assert(f[1] == body[0] && f[2] == body[1]);
            assert forall|i: int| 0 <= i < drop.len() implies is_u32(
                f[3 + i],
                10,
                (#[trigger] drop[i]).0,
            ) by {
                assert(f[1 + (2 + i)] == body[2 + i]);
            }
        },
        state::OpView::SegmentDeleted { .. } => {
            assert(f[1] == body[0]);
        },
        state::OpView::RecordOrphan { .. } => {
            assert(f[1] == body[0]);
        },
        state::OpView::Metadata => {},
    }
    assert forall|i: int| 0 <= i < e.meta.len() implies f[n + i] == (
        11u16,
        tlv::frame_bytes(seq![(1u16, seq![(#[trigger] e.meta[i]).0]), (2u16, e.meta[i].1)]),
    ) by {
        assert(f[n + i] == meta[i]);
    }
}

/// Law: a record can be written as long as the number of its fields fits 32 bits.
pub proof fn law_records_are_limited_by_their_field_count(e: state::ManifestOpView)
    ensures
        codec::encodable(e) <==> head_len(e.op) + e.meta.len() <= 0xffff_ffff,
{
    law_record_layout(e);
}

// ── Reading ───────────────────────────────────────────────────────────────────

/// The same fields, as far as a record has them: the first one of each tag, and
/// all with a dropped segment or a metadata pair.
pub open spec fn same_record(a: Seq<(u16, Seq<u8>)>, b: Seq<(u16, Seq<u8>)>) -> bool {
    &&& forall|tag: u16|
        1 <= tag <= 9 ==> #[trigger] tlv::find_field(a, tag) == tlv::find_field(b, tag)
    &&& tlv::field_values(a, 10) == tlv::field_values(b, 10)
    &&& tlv::field_values(a, 11) == tlv::field_values(b, 11)
}

/// Law: a record is read from the first field of each tag, and from all those of
/// dropped segments and metadata, whatever else the frame holds and in whatever
/// order. Bytes that are no frame are no record.
pub proof fn law_record_is_read_from_its_fields(
    a: Seq<(u16, Seq<u8>)>,
    b: Seq<(u16, Seq<u8>)>,
    junk: Seq<u8>,
)
    requires
        tlv::fits(a),
        tlv::fits(b),
        same_record(a, b),
    ensures
        codec::decode_op(tlv::frame_bytes(a)) == codec::decode_op(tlv::frame_bytes(b)),
        !tlv::is_frame(junk) ==> codec::decode_op(junk) == Err::<state::ManifestOpView, _>(
            DecodeError::Format(tlv::frame_error(junk)),
        ),
{
    tlv::law_frame_parses_back(a);
    tlv::law_frame_parses_back(b);
}

/// Law: a record of a kind that is not known is refused, and so is one without a
/// kind, or without a field that its kind needs.
pub proof fn law_unknown_records_are_refused(fields: Seq<(u16, Seq<u8>)>, c: u8)
    requires
        tlv::fits(fields),
    ensures
        ({
            let r = codec::decode_op(tlv::frame_bytes(fields));
            let found = |tag: u16| tlv::find_field(fields, tag) is Some;
            let kind = |k: u8| tlv::find_field(fields, 1) == Some(seq![k]);
            &&& !found(1) ==> r == Err::<state::ManifestOpView, _>(
                DecodeError::Format(yatlv::Error::MissingRequiredField(1)),
            )
            &&& kind(c) && !(1 <= c <= 7) ==> r == Err::<state::ManifestOpView, _>(
                DecodeError::UnknownOpType(c),
            )
            &&& kind(1) && !(found(2) && found(3)) ==> r is Err
            &&& kind(2) && !(found(2) && found(3) && found(4) && found(5) && found(6) && found(7)
                && found(8)) ==> r is Err
            &&& kind(3) && !found(3) ==> r is Err
            &&& kind(4) && !(found(7) && found(9)) ==> r is Err
            &&& (kind(5) || kind(6)) && !found(2) ==> r is Err
            &&& r matches Ok(e) ==> tlv::find_field(fields, 1) is Some && tlv::uint_value(
                tlv::find_field(fields, 1)->Some_0,
                1,
            ) == Ok::<nat, yatlv::Error>(
                (match e.op {
                    state::OpView::CreateSegment { .. } => 1,
                    state::OpView::RollSegment { .. } => 2,
                    state::OpView::TruncateStart { .. } => 3,
                    state::OpView::TruncateEnd { .. } => 4,
                    state::OpView::SegmentDeleted { .. } => 5,
                    state::OpView::RecordOrphan { .. } => 6,
                    state::OpView::Metadata => 7,
                }),
            )
        }),
{
    tlv::law_frame_parses_back(fields);
    reveal_with_fuel(bytes::be_value, 2);
    assert(seq![c].drop_last() =~= Seq::empty());
    assert forall|k: u8| #[trigger] bytes::be_value(seq![k]) == k by {
        assert(seq![k].drop_last() =~= Seq::empty());
    }
    bytes::lemma_pow256_values();
    if let Some(v) = tlv::find_field(fields, 1) {
        bytes::lemma_value_bound(v);
    }
}

/// Law: a manifest whose records up to an offset are replayed is refused at a
/// record there that cannot be read or does not fit the state, with the offset and
/// the reason.
pub proof fn law_bad_record_is_reported(
    s: state::StateView,
    t: state::StateView,
    a: Seq<u8>,
    pos: int,
    id: u64,
    payload: Seq<u8>,
    rest: Seq<u8>,
)
    requires
        0 <= pos <= a.len() <= u64::MAX,
        manifest::replay_from(s, a, pos) == Ok::<_, ReplayError>((t, a.len() as int)),
        payload.len() <= u32::MAX,
    ensures
        ({
            let data = a + frame::encode_frame(id, payload) + rest;
            let r = manifest::replay_from(s, data, pos);
            let offset = a.len() as u64;
            match codec::decode_op(payload) {
                Err(source) => r == Err::<(state::StateView, int), _>(
                    ReplayError::InvalidOp { offset, source },
                ),
                Ok(op) => match state::apply_op(t, op) {
                    Err(source) => r == Err::<(state::StateView, int), _>(
                        ReplayError::ApplyFailed { offset, source },
                    ),
                    Ok(u) => r == manifest::replay_from(
                        u,
                        data,
                        a.len() as int + 20 + payload.len(),
                    ),
                },
            }
        }),
{
    let more = frame::encode_frame(id, payload) + rest;
    let data = a + frame::encode_frame(id, payload) + rest;
    assert(data =~= a + more);
    manifest_laws::lemma_replay_concat(s, t, a, more, pos);
    frame_laws::law_frame_reads_back(a, id, payload, rest);
    reveal(manifest::replay_record);
}

/// Law: a replay of no record leaves the state as it is.
pub proof fn law_replay_ends_without_a_frame(s: state::StateView, data: Seq<u8>, pos: int)
    requires
        !(frame::raw_frame_at(data, pos) is Whole),
    ensures
        manifest::replay_from(s, data, pos) == Ok::<_, ReplayError>((s, pos)),
{
}

} // verus!
