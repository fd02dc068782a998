//! What the encoding of manifest records promises.

use vstd::prelude::*;

use crate::bytes;
use crate::codec::{
    self, DecodeError, TAG_BYTE_OFFSET, TAG_DROP_ID, TAG_ENTRY_COUNT, TAG_FINAL_SIZE,
    TAG_FIRST_ENTRY, TAG_LAST_ENTRY, TAG_META, TAG_META_KEY, TAG_META_VALUE, TAG_NEW_FIRST_ENTRY,
    TAG_NEW_SEGMENT_ID, TAG_OP_TYPE, TAG_SEGMENT_ID,
};
use crate::state;
use crate::tlv;
use crate::SegmentId;

verus! {

broadcast use crate::bytes::lemma_be_bytes_len;

/// Every count and length in the encoding of `e` fits its 32 bits: the fields,
/// and the nested frame of each metadata pair, which is the value and 18 bytes.
pub open spec fn encodes_exactly(e: state::ManifestOpView) -> bool {
    &&& codec::encodable(e)
    &&& forall|i: int| 0 <= i < e.meta.len() ==> (#[trigger] e.meta[i]).1.len() + 18 <= u32::MAX
}

/// A field is found where the first one with its tag stands.
proof fn lemma_find_field_at(fields: Seq<(u16, Seq<u8>)>, tag: u16, k: int)
    requires
        0 <= k < fields.len(),
        fields[k].0 == tag,
        forall|j: int| 0 <= j < k ==> (#[trigger] fields[j]).0 != tag,
    ensures
        tlv::find_field(fields, tag) == Some(fields[k].1),
    decreases k,
{
    if k > 0 {
        assert(fields[0].0 != tag);
        let rest = fields.skip(1);
        assert forall|j: int| 0 <= j < k - 1 implies (#[trigger] rest[j]).0 != tag by {
            assert(rest[j] == fields[j + 1]);
        }
        lemma_find_field_at(rest, tag, k - 1);
    }
}

proof fn lemma_uint_field_at(fields: Seq<(u16, Seq<u8>)>, tag: u16, k: int, x: nat, width: nat)
    requires
        0 <= k < fields.len(),
        fields[k] == (tag, bytes::be_bytes(x, width)),
        forall|j: int| 0 <= j < k ==> (#[trigger] fields[j]).0 != tag,
        width == 1 || width == 4 || width == 8,
        x < crate::bytes::pow256(width),
    ensures
        tlv::uint_field(fields, tag, width) == Ok::<nat, yatlv::Error>(x),
{
    lemma_find_field_at(fields, tag, k);
    crate::bytes::lemma_value_of_bytes(x, width);
}

/// One byte is the big-endian spelling of its value.
proof fn lemma_one_byte(b: u8)
    ensures
        seq![b] == bytes::be_bytes(b as nat, 1),
{
    reveal_with_fuel(bytes::be_bytes, 2);
    assert(seq![b] =~= bytes::be_bytes(b as nat, 1));
}

proof fn lemma_values_concat(a: Seq<(u16, Seq<u8>)>, b: Seq<(u16, Seq<u8>)>, tag: u16)
    ensures
        tlv::field_values(a + b, tag) == tlv::field_values(a, tag) + tlv::field_values(b, tag),
    decreases a.len(),
{
    if a.len() == 0 {
        assert(a + b =~= b);
        assert(tlv::field_values(a, tag) + tlv::field_values(b, tag) =~= tlv::field_values(b, tag));
    } else {
        assert((a + b).skip(1) =~= a.skip(1) + b);
        lemma_values_concat(a.skip(1), b, tag);
        assert(
            tlv::field_values(a + b, tag) =~= tlv::field_values(a, tag) + tlv::field_values(b, tag)
        );
    }
}

proof fn lemma_values_none(fields: Seq<(u16, Seq<u8>)>, tag: u16)
    requires
        forall|i: int| 0 <= i < fields.len() ==> (#[trigger] fields[i]).0 != tag,
    ensures
        tlv::field_values(fields, tag) == Seq::<Seq<u8>>::empty(),
    decreases fields.len(),
{
    if fields.len() > 0 {
        assert(fields[0].0 != tag);
        let rest = fields.skip(1);
        assert forall|i: int| 0 <= i < rest.len() implies (#[trigger] rest[i]).0 != tag by {
            assert(rest[i] == fields[i + 1]);
        }
        lemma_values_none(rest, tag);
    }
}

proof fn lemma_values_all(fields: Seq<(u16, Seq<u8>)>, tag: u16)
    requires
        forall|i: int| 0 <= i < fields.len() ==> (#[trigger] fields[i]).0 == tag,
    ensures
        tlv::field_values(fields, tag) == Seq::new(fields.len(), |i: int| fields[i].1),
    decreases fields.len(),
{
    let all = Seq::new(fields.len(), |i: int| fields[i].1);
    if fields.len() > 0 {
        assert(fields[0].0 == tag);
        let rest = fields.skip(1);
        assert forall|i: int| 0 <= i < rest.len() implies (#[trigger] rest[i]).0 == tag by {
            assert(rest[i] == fields[i + 1]);
        }
        lemma_values_all(rest, tag);
        assert(all =~= seq![fields[0].1] + tlv::field_values(rest, tag));
    } else {
        assert(tlv::field_values(fields, tag) =~= all);
    }
}

/// The ids written are the ids read.
proof fn lemma_ids_read_back(ids: Seq<SegmentId>)
    ensures
        codec::read_ids(Seq::new(ids.len(), |i: int| bytes::be_bytes(ids[i].0 as nat, 4))) == Ok::<
            _,
            DecodeError,
        >(ids),
    decreases ids.len(),
{
    let values = Seq::new(ids.len(), |i: int| bytes::be_bytes(ids[i].0 as nat, 4));
    if ids.len() > 0 {
        let front = ids.drop_last();
        lemma_ids_read_back(front);
        assert(
            values.drop_last() =~= Seq::new(
                front.len(),
                |i: int| bytes::be_bytes(front[i].0 as nat, 4),
            )
        );
        crate::bytes::lemma_pow256_values();
        crate::bytes::lemma_value_of_bytes(ids.last().0 as nat, 4);
        assert(front.push(ids.last()) =~= ids);
    } else {
        assert(ids =~= Seq::empty());
    }
}

/// A metadata pair is read back as it was written.
proof fn lemma_pair_reads_back(pair: (u8, Seq<u8>))
    requires
        pair.1.len() <= u32::MAX,
    ensures
        codec::read_pair(codec::pair_bytes(pair)) == Ok::<_, DecodeError>(pair),
{
    let fields = seq![(TAG_META_KEY, seq![pair.0]), (TAG_META_VALUE, pair.1)];
    tlv::law_frame_parses_back(fields);
    lemma_one_byte(pair.0);
    crate::bytes::lemma_pow256_values();
    lemma_uint_field_at(fields, TAG_META_KEY, 0, pair.0 as nat, 1);
    lemma_find_field_at(fields, TAG_META_VALUE, 1);
}

proof fn lemma_pairs_read_back(meta: Seq<(u8, Seq<u8>)>)
    requires
        forall|i: int| 0 <= i < meta.len() ==> (#[trigger] meta[i]).1.len() <= u32::MAX,
    ensures
        codec::read_pairs(Seq::new(meta.len(), |i: int| codec::pair_bytes(meta[i])))
            == Ok::<_, DecodeError>(
            meta,
        ),
    decreases meta.len(),
{
    let values = Seq::new(meta.len(), |i: int| codec::pair_bytes(meta[i]));
    if meta.len() > 0 {
        let front = meta.drop_last();
        lemma_pairs_read_back(front);
        assert(values.drop_last() =~= Seq::new(front.len(), |i: int| codec::pair_bytes(front[i])));
        lemma_pair_reads_back(meta.last());
        assert(front.push(meta.last()) =~= meta);
    } else {
        assert(meta =~= Seq::empty());
    }
}

/// The drop list of a record is read back as it was written.
proof fn lemma_drop_reads_back(
    head: Seq<(u16, Seq<u8>)>,
    drop: Seq<SegmentId>,
    tail: Seq<(u16, Seq<u8>)>,
)
    requires
        forall|i: int| 0 <= i < head.len() ==> (#[trigger] head[i]).0 != TAG_DROP_ID,
        forall|i: int| 0 <= i < tail.len() ==> (#[trigger] tail[i]).0 != TAG_DROP_ID,
    ensures
        codec::read_ids(tlv::field_values(head + codec::drop_fields(drop) + tail, TAG_DROP_ID))
            == Ok::<
            _,
            DecodeError,
        >(drop),
{
    let ids = codec::drop_fields(drop);
    lemma_values_concat(head + ids, tail, TAG_DROP_ID);
    lemma_values_concat(head, ids, TAG_DROP_ID);
    lemma_values_none(head, TAG_DROP_ID);
    lemma_values_none(tail, TAG_DROP_ID);
    lemma_values_all(ids, TAG_DROP_ID);
    let values = Seq::new(drop.len(), |i: int| bytes::be_bytes(drop[i].0 as nat, 4));
    assert(tlv::field_values(head + ids + tail, TAG_DROP_ID) =~= values);
    lemma_ids_read_back(drop);
}

#[verifier::spinoff_prover]
proof fn lemma_body_reads_back(e: state::ManifestOpView)
    ensures
        codec::read_body(codec::op_code(e.op), codec::op_fields(e)) == Ok::<_, DecodeError>(e.op),
{
    let code = (TAG_OP_TYPE, seq![codec::op_code(e.op)]);
    let fields = codec::op_fields(e);
    let body = codec::body_fields(e.op);
    let tail = codec::meta_fields(e.meta);
    crate::bytes::lemma_pow256_values();
    assert(forall|i: int| 0 <= i < body.len() ==> fields[i + 1] == #[trigger] body[i]);
    match e.op {
        state::OpView::CreateSegment { id, first_entry } => {
            assert(fields[1] == body[0] && fields[2] == body[1]);
            lemma_uint_field_at(fields, TAG_SEGMENT_ID, 1, id.0 as nat, 4);
            lemma_uint_field_at(fields, TAG_FIRST_ENTRY, 2, first_entry.0 as nat, 8);
        },
        state::OpView::RollSegment { sealed_id, seal, new_id, new_first_entry } => {
            assert(fields[1] == body[0] && fields[2] == body[1] && fields[3] == body[2]
                && fields[4] == body[3] && fields[5] == body[4] && fields[6] == body[5]
                && fields[7] == body[6]);
            lemma_uint_field_at(fields, TAG_SEGMENT_ID, 1, sealed_id.0 as nat, 4);
            lemma_uint_field_at(fields, TAG_FIRST_ENTRY, 2, seal.first_entry.0 as nat, 8);
            lemma_uint_field_at(fields, TAG_LAST_ENTRY, 3, seal.last_entry.0 as nat, 8);
            lemma_uint_field_at(fields, TAG_ENTRY_COUNT, 4, seal.entry_count as nat, 4);
            lemma_uint_field_at(fields, TAG_FINAL_SIZE, 5, seal.final_size as nat, 8);
            lemma_uint_field_at(fields, TAG_NEW_SEGMENT_ID, 6, new_id.0 as nat, 4);
            lemma_uint_field_at(fields, TAG_NEW_FIRST_ENTRY, 7, new_first_entry.0 as nat, 8);
        },
        state::OpView::TruncateStart { first_entry, drop } => {
            let head = seq![code, body[0]];
            assert(fields[1] == body[0]);
            lemma_uint_field_at(fields, TAG_FIRST_ENTRY, 1, first_entry.0 as nat, 8);
            lemma_drop_reads_back(head, drop, tail);
            assert(fields =~= head + codec::drop_fields(drop) + tail);
        },
        state::OpView::TruncateEnd { new_active_id, byte_offset, drop } => {
            let head = seq![code, body[0], body[1]];
            assert(fields[1] == body[0] && fields[2] == body[1]);
            lemma_uint_field_at(fields, TAG_NEW_SEGMENT_ID, 1, new_active_id.0 as nat, 4);
            lemma_uint_field_at(fields, TAG_BYTE_OFFSET, 2, byte_offset as nat, 8);
            lemma_drop_reads_back(head, drop, tail);
            assert(fields =~= head + codec::drop_fields(drop) + tail);
        },
        state::OpView::SegmentDeleted { id } => {
            assert(fields[1] == body[0]);
            lemma_uint_field_at(fields, TAG_SEGMENT_ID, 1, id.0 as nat, 4);
        },
        state::OpView::RecordOrphan { id } => {
            assert(fields[1] == body[0]);
            lemma_uint_field_at(fields, TAG_SEGMENT_ID, 1, id.0 as nat, 4);
        },
        state::OpView::Metadata => {},
    }
}

proof fn lemma_meta_reads_back(e: state::ManifestOpView)
    requires
        encodes_exactly(e),
    ensures
        codec::read_pairs(tlv::field_values(codec::op_fields(e), TAG_META))
            == Ok::<_, DecodeError>(e.meta),
{
    let head = seq![(TAG_OP_TYPE, seq![codec::op_code(e.op)])] + codec::body_fields(e.op);
    let tail = codec::meta_fields(e.meta);
    assert forall|i: int| 0 <= i < head.len() implies (#[trigger] head[i]).0 != TAG_META by {
        if i > 0 {
            assert(head[i] == codec::body_fields(e.op)[i - 1]);
        }
    }
    lemma_values_concat(head, tail, TAG_META);
    lemma_values_none(head, TAG_META);
    lemma_values_all(tail, TAG_META);
    let values = Seq::new(e.meta.len(), |i: int| codec::pair_bytes(e.meta[i]));
    assert(tlv::field_values(codec::op_fields(e), TAG_META) =~= values);
    lemma_pairs_read_back(e.meta);
}

proof fn lemma_fields_fit(e: state::ManifestOpView)
    requires
        encodes_exactly(e),
    ensures
        tlv::fits(codec::op_fields(e)),
{
    let fields = codec::op_fields(e);
    let n = 1 + codec::body_fields(e.op).len();
    assert forall|i: int| 0 <= i < fields.len() implies (#[trigger] fields[i]).1.len()
        <= u32::MAX by {
        if i == 0 {
            assert(fields[i].1.len() == 1);
        } else if i < n {
            assert(fields[i] == codec::body_fields(e.op)[i - 1]);
            assert(fields[i].1.len() <= 8);
        } else {
            let pair = e.meta[i - n];
            assert(fields[i].1 == codec::pair_bytes(pair));
            let nested = seq![(TAG_META_KEY, seq![pair.0]), (TAG_META_VALUE, pair.1)];
            reveal_with_fuel(crate::tlv::fields_bytes, 3);
            assert(nested.skip(1).skip(1) =~= Seq::empty());
            assert(tlv::frame_bytes(nested).len() == pair.1.len() + 18);
        }
    }
}

/// Law: decoding the encoding of a record gives the record.
pub proof fn law_decode_inverts_encode(e: state::ManifestOpView)
    requires
        encodes_exactly(e),
    ensures
        codec::decode_op(codec::encode_op(e)) == Ok::<_, DecodeError>(e),
{
    let fields = codec::op_fields(e);
    lemma_fields_fit(e);
    tlv::law_frame_parses_back(fields);
    lemma_one_byte(codec::op_code(e.op));
    crate::bytes::lemma_pow256_values();
    lemma_uint_field_at(fields, TAG_OP_TYPE, 0, codec::op_code(e.op) as nat, 1);
    lemma_body_reads_back(e);
    lemma_meta_reads_back(e);
}

/// Law: records with the same encoding are the same.
pub proof fn law_encoding_is_injective(a: state::ManifestOpView, b: state::ManifestOpView)
    requires
        encodes_exactly(a),
        encodes_exactly(b),
        codec::encode_op(a) == codec::encode_op(b),
    ensures
        a == b,
{
    law_decode_inverts_encode(a);
    law_decode_inverts_encode(b);
}

} // verus!
