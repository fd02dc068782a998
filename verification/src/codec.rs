//! The encoding of manifest records as tag-length-value frames.
//!
//! | tag | name                | value                                           |
//! |-----|---------------------|-------------------------------------------------|
//! |   1 | op type             | u8, the kind of operation                       |
//! |   2 | segment id          | u32                                             |
//! |   3 | first entry         | u64                                             |
//! |   4 | last entry          | u64                                             |
//! |   5 | entry count         | u32                                             |
//! |   6 | final size          | u64                                             |
//! |   7 | new segment id      | u32                                             |
//! |   8 | new first entry     | u64                                             |
//! |   9 | byte offset         | u64                                             |
//! |  10 | drop id             | u32, once per dropped segment                   |
//! |  11 | metadata            | nested frame, once per pair: key (1), value (2) |

use vstd::prelude::*;
use vstd::slice::slice_to_vec;
use yatlv::{FrameBuilder, FrameParser};

use crate::bytes;
use crate::state::{self, ManifestOp, Op, SealInfo};
use crate::tlv::{add_pair, add_u32, add_u64, add_u8, finish, get_frames, get_u32s};
use crate::{EntryId, SegmentId};

verus! {

broadcast use crate::bytes::lemma_be_bytes_len;

pub const TAG_OP_TYPE: u16 = 1;
pub const TAG_SEGMENT_ID: u16 = 2;
pub const TAG_FIRST_ENTRY: u16 = 3;
pub const TAG_LAST_ENTRY: u16 = 4;
pub const TAG_ENTRY_COUNT: u16 = 5;
pub const TAG_FINAL_SIZE: u16 = 6;
pub const TAG_NEW_SEGMENT_ID: u16 = 7;
pub const TAG_NEW_FIRST_ENTRY: u16 = 8;
pub const TAG_BYTE_OFFSET: u16 = 9;
pub const TAG_DROP_ID: u16 = 10;
pub const TAG_META: u16 = 11;
pub const TAG_META_KEY: u16 = 1;
pub const TAG_META_VALUE: u16 = 2;

pub const OP_CREATE_SEGMENT: u8 = 0x01;
pub const OP_ROLL_SEGMENT: u8 = 0x02;
pub const OP_TRUNCATE_START: u8 = 0x03;
pub const OP_TRUNCATE_END: u8 = 0x04;
pub const OP_SEGMENT_DELETED: u8 = 0x05;
pub const OP_RECORD_ORPHAN: u8 = 0x06;
pub const OP_META: u8 = 0x07;

/// Why bytes are not those of a record.
#[derive(Debug, PartialEq)]
pub enum DecodeError {
    UnknownOpType(u8),
    Format(yatlv::Error),
}

// ── Format ────────────────────────────────────────────────────────────────────

/// The kind of operation, as written under [`TAG_OP_TYPE`].
pub open spec fn op_code(op: state::OpView) -> u8 {
    match op {
        state::OpView::CreateSegment { .. } => OP_CREATE_SEGMENT,
        state::OpView::RollSegment { .. } => OP_ROLL_SEGMENT,
        state::OpView::TruncateStart { .. } => OP_TRUNCATE_START,
        state::OpView::TruncateEnd { .. } => OP_TRUNCATE_END,
        state::OpView::SegmentDeleted { .. } => OP_SEGMENT_DELETED,
        state::OpView::RecordOrphan { .. } => OP_RECORD_ORPHAN,
        state::OpView::Metadata => OP_META,
    }
}

pub open spec fn u32_field(tag: u16, x: u32) -> (u16, Seq<u8>) {
    (tag, bytes::be_bytes(x as nat, 4))
}

pub open spec fn u64_field(tag: u16, x: u64) -> (u16, Seq<u8>) {
    (tag, bytes::be_bytes(x as nat, 8))
}

/// One field per dropped segment.
pub open spec fn drop_fields(drop: Seq<SegmentId>) -> Seq<(u16, Seq<u8>)> {
    Seq::new(drop.len(), |i: int| u32_field(TAG_DROP_ID, drop[i].0))
}

/// The fields that hold what an operation says, but for its kind.
pub open spec fn body_fields(op: state::OpView) -> Seq<(u16, Seq<u8>)> {
    match op {
        state::OpView::CreateSegment { id, first_entry } => seq![
            u32_field(TAG_SEGMENT_ID, id.0),
            u64_field(TAG_FIRST_ENTRY, first_entry.0),
        ],
        state::OpView::RollSegment { sealed_id, seal, new_id, new_first_entry } => seq![
            u32_field(TAG_SEGMENT_ID, sealed_id.0),
            u64_field(TAG_FIRST_ENTRY, seal.first_entry.0),
            u64_field(TAG_LAST_ENTRY, seal.last_entry.0),
            u32_field(TAG_ENTRY_COUNT, seal.entry_count),
            u64_field(TAG_FINAL_SIZE, seal.final_size),
            u32_field(TAG_NEW_SEGMENT_ID, new_id.0),
            u64_field(TAG_NEW_FIRST_ENTRY, new_first_entry.0),
        ],
        state::OpView::TruncateStart { first_entry, drop } => seq![
            u64_field(TAG_FIRST_ENTRY, first_entry.0),
        ] + drop_fields(drop),
        state::OpView::TruncateEnd { new_active_id, byte_offset, drop } => seq![
            u32_field(TAG_NEW_SEGMENT_ID, new_active_id.0),
            u64_field(TAG_BYTE_OFFSET, byte_offset),
        ] + drop_fields(drop),
        state::OpView::SegmentDeleted { id } => seq![u32_field(TAG_SEGMENT_ID, id.0)],
        state::OpView::RecordOrphan { id } => seq![u32_field(TAG_SEGMENT_ID, id.0)],
        state::OpView::Metadata => Seq::empty(),
    }
}

/// The nested frame of one metadata pair.
pub open spec fn pair_bytes(pair: (u8, Seq<u8>)) -> Seq<u8> {
    crate::tlv::frame_bytes(seq![(TAG_META_KEY, seq![pair.0]), (TAG_META_VALUE, pair.1)])
}

/// One field per metadata pair.
pub open spec fn meta_fields(meta: Seq<(u8, Seq<u8>)>) -> Seq<(u16, Seq<u8>)> {
    Seq::new(meta.len(), |i: int| (TAG_META, pair_bytes(meta[i])))
}

/// The fields of a record.
pub open spec fn op_fields(e: state::ManifestOpView) -> Seq<(u16, Seq<u8>)> {
    seq![(TAG_OP_TYPE, seq![op_code(e.op)])] + body_fields(e.op) + meta_fields(e.meta)
}

/// The bytes of a record.
pub open spec fn encode_op(e: state::ManifestOpView) -> Seq<u8> {
    crate::tlv::frame_bytes(op_fields(e))
}

/// The number of fields of `e` fits the 32 bits of their count.
pub open spec fn encodable(e: state::ManifestOpView) -> bool {
    op_fields(e).len() <= u32::MAX
}

// ── Reading ───────────────────────────────────────────────────────────────────

pub open spec fn read_u32(fields: Seq<(u16, Seq<u8>)>, tag: u16) -> Result<u32, DecodeError> {
    match crate::tlv::uint_field(fields, tag, 4) {
        Ok(x) => Ok(x as u32),
        Err(e) => Err(DecodeError::Format(e)),
    }
}

pub open spec fn read_u64(fields: Seq<(u16, Seq<u8>)>, tag: u16) -> Result<u64, DecodeError> {
    match crate::tlv::uint_field(fields, tag, 8) {
        Ok(x) => Ok(x as u64),
        Err(e) => Err(DecodeError::Format(e)),
    }
}

/// The segment ids that `values` spell, or the first failure.
pub open spec fn read_ids(values: Seq<Seq<u8>>) -> Result<Seq<SegmentId>, DecodeError>
    decreases values.len(),
{
    if values.len() == 0 {
        Ok(Seq::empty())
    } else {
        match read_ids(values.drop_last()) {
            Err(e) => Err(e),
            Ok(ids) => match crate::tlv::uint_value(values.last(), 4) {
                Err(e) => Err(DecodeError::Format(e)),
                Ok(x) => Ok(ids.push(SegmentId(x as u32))),
            },
        }
    }
}

/// The metadata pair that a nested frame spells.
pub open spec fn read_pair(bytes: Seq<u8>) -> Result<(u8, Seq<u8>), DecodeError> {
    match crate::tlv::parse_frame(bytes) {
        Err(e) => Err(DecodeError::Format(e)),
        Ok(fields) => match crate::tlv::uint_field(fields, TAG_META_KEY, 1) {
            Err(e) => Err(DecodeError::Format(e)),
            Ok(key) => match crate::tlv::data_field(fields, TAG_META_VALUE) {
                Err(e) => Err(DecodeError::Format(e)),
                Ok(value) => Ok((key as u8, value)),
            },
        },
    }
}

/// The metadata pairs that nested frames spell, or the first failure.
pub open spec fn read_pairs(values: Seq<Seq<u8>>) -> Result<Seq<(u8, Seq<u8>)>, DecodeError>
    decreases values.len(),
{
    if values.len() == 0 {
        Ok(Seq::empty())
    } else {
        match read_pairs(values.drop_last()) {
            Err(e) => Err(e),
            Ok(pairs) => match read_pair(values.last()) {
                Err(e) => Err(e),
                Ok(pair) => Ok(pairs.push(pair)),
            },
        }
    }
}

pub open spec fn read_create(fields: Seq<(u16, Seq<u8>)>) -> Result<state::OpView, DecodeError> {
    match read_u32(fields, TAG_SEGMENT_ID) {
        Err(e) => Err(e),
        Ok(id) => match read_u64(fields, TAG_FIRST_ENTRY) {
            Err(e) => Err(e),
            Ok(first) => Ok(
                state::OpView::CreateSegment { id: SegmentId(id), first_entry: EntryId(first) },
            ),
        },
    }
}

/// The seal in a roll record.
pub open spec fn read_seal(fields: Seq<(u16, Seq<u8>)>) -> Result<SealInfo, DecodeError> {
    match read_u64(fields, TAG_FIRST_ENTRY) {
        Err(e) => Err(e),
        Ok(first) => match read_u64(fields, TAG_LAST_ENTRY) {
            Err(e) => Err(e),
            Ok(last) => match read_u32(fields, TAG_ENTRY_COUNT) {
                Err(e) => Err(e),
                Ok(entry_count) => match read_u64(fields, TAG_FINAL_SIZE) {
                    Err(e) => Err(e),
                    Ok(final_size) => Ok(
                        SealInfo {
                            first_entry: EntryId(first),
                            last_entry: EntryId(last),
                            entry_count,
                            final_size,
                        },
                    ),
                },
            },
        },
    }
}

pub open spec fn read_roll(fields: Seq<(u16, Seq<u8>)>) -> Result<state::OpView, DecodeError> {
    match read_u32(fields, TAG_SEGMENT_ID) {
        Err(e) => Err(e),
        Ok(sealed) => match read_seal(fields) {
            Err(e) => Err(e),
            Ok(seal) => match read_u32(fields, TAG_NEW_SEGMENT_ID) {
                Err(e) => Err(e),
                Ok(new) => match read_u64(fields, TAG_NEW_FIRST_ENTRY) {
                    Err(e) => Err(e),
                    Ok(new_first) => Ok(
                        state::OpView::RollSegment {
                            sealed_id: SegmentId(sealed),
                            seal,
                            new_id: SegmentId(new),
                            new_first_entry: EntryId(new_first),
                        },
                    ),
                },
            },
        },
    }
}

pub open spec fn read_drop(fields: Seq<(u16, Seq<u8>)>) -> Result<Seq<SegmentId>, DecodeError> {
    read_ids(crate::tlv::field_values(fields, TAG_DROP_ID))
}

pub open spec fn read_truncate_start(
    fields: Seq<(u16, Seq<u8>)>,
) -> Result<state::OpView, DecodeError> {
    match read_u64(fields, TAG_FIRST_ENTRY) {
        Err(e) => Err(e),
        Ok(first) => match read_drop(fields) {
            Err(e) => Err(e),
            Ok(drop) => Ok(state::OpView::TruncateStart { first_entry: EntryId(first), drop }),
        },
    }
}

pub open spec fn read_truncate_end(
    fields: Seq<(u16, Seq<u8>)>,
) -> Result<state::OpView, DecodeError> {
    match read_u32(fields, TAG_NEW_SEGMENT_ID) {
        Err(e) => Err(e),
        Ok(id) => match read_u64(fields, TAG_BYTE_OFFSET) {
            Err(e) => Err(e),
            Ok(byte_offset) => match read_drop(fields) {
                Err(e) => Err(e),
                Ok(drop) => Ok(
                    state::OpView::TruncateEnd { new_active_id: SegmentId(id), byte_offset, drop },
                ),
            },
        },
    }
}

/// The operation of kind `code` that the fields spell.
pub open spec fn read_body(
    code: u8,
    fields: Seq<(u16, Seq<u8>)>,
) -> Result<state::OpView, DecodeError> {
    if code == OP_CREATE_SEGMENT {
        read_create(fields)
    } else if code == OP_ROLL_SEGMENT {
        read_roll(fields)
    } else if code == OP_TRUNCATE_START {
        read_truncate_start(fields)
    } else if code == OP_TRUNCATE_END {
        read_truncate_end(fields)
    } else if code == OP_SEGMENT_DELETED {
        match read_u32(fields, TAG_SEGMENT_ID) {
            Err(e) => Err(e),
            Ok(id) => Ok(state::OpView::SegmentDeleted { id: SegmentId(id) }),
        }
    } else if code == OP_RECORD_ORPHAN {
        match read_u32(fields, TAG_SEGMENT_ID) {
            Err(e) => Err(e),
            Ok(id) => Ok(state::OpView::RecordOrphan { id: SegmentId(id) }),
        }
    } else if code == OP_META {
        Ok(state::OpView::Metadata)
    } else {
        Err(DecodeError::UnknownOpType(code))
    }
}

/// The record that `fields` spell.
pub open spec fn read_op(
    fields: Seq<(u16, Seq<u8>)>,
) -> Result<state::ManifestOpView, DecodeError> {
    match crate::tlv::uint_field(fields, TAG_OP_TYPE, 1) {
        Err(e) => Err(DecodeError::Format(e)),
        Ok(code) => match read_body(code as u8, fields) {
            Err(e) => Err(e),
            Ok(op) => match read_pairs(crate::tlv::field_values(fields, TAG_META)) {
                Err(e) => Err(e),
                Ok(meta) => Ok(state::ManifestOpView { op, meta }),
            },
        },
    }
}

/// The record that `bytes` spell.
pub open spec fn decode_op(bytes: Seq<u8>) -> Result<state::ManifestOpView, DecodeError> {
    match crate::tlv::parse_frame(bytes) {
        Err(e) => Err(DecodeError::Format(e)),
        Ok(fields) => read_op(fields),
    }
}

/// A decoded record by what it says.
pub open spec fn decoded(r: Result<ManifestOp, DecodeError>) -> Result<
    state::ManifestOpView,
    DecodeError,
> {
    match r {
        Ok(e) => Ok(e@),
        Err(e) => Err(e),
    }
}

// ── Encoder and decoder ───────────────────────────────────────────────────────

fn parser_u32(p: &FrameParser<'_>, tag: u16) -> (r: Result<u32, DecodeError>)
    ensures
        r == read_u32(crate::tlv::parser_fields(*p), tag),
{
    match p.get_u32(tag) {
        Ok(x) => Ok(x),
        Err(e) => Err(DecodeError::Format(e)),
    }
}

fn parser_u64(p: &FrameParser<'_>, tag: u16) -> (r: Result<u64, DecodeError>)
    ensures
        r == read_u64(crate::tlv::parser_fields(*p), tag),
{
    match p.get_u64(tag) {
        Ok(x) => Ok(x),
        Err(e) => Err(DecodeError::Format(e)),
    }
}

fn parser_drop<'a>(p: &'a FrameParser<'a>) -> (r: Result<Vec<SegmentId>, DecodeError>)
    ensures
        (match r {
            Ok(ids) => Ok(ids@),
            Err(e) => Err(e),
        }) == read_drop(crate::tlv::parser_fields(*p)),
{
    let ghost values = crate::tlv::field_values(crate::tlv::parser_fields(*p), TAG_DROP_ID);
    let mut ids: Vec<SegmentId> = Vec::new();
    assert(values.take(0) =~= Seq::<Seq<u8>>::empty());
    for x in it: get_u32s(p, TAG_DROP_ID)
        invariant
            it.seq().len() == values.len(),
            forall|i: int|
                0 <= i < values.len() ==> (#[trigger] it.seq()[i]) == (
                match crate::tlv::uint_value(values[i], 4) {
                    Ok(x) => Ok(x as u32),
                    Err(e) => Err(e),
                }),
            values == crate::tlv::field_values(crate::tlv::parser_fields(*p), TAG_DROP_ID),
            read_ids(values.take(it.index() as int)) == Ok::<_, DecodeError>(ids@),
    {
        proof {
            let longer = values.take(it.index() + 1);
            assert(longer.drop_last() =~= values.take(it.index() as int));
            assert(longer.last() == values[it.index() as int]);
        }
        match x {
            Ok(id) => ids.push(SegmentId(id)),
            Err(e) => {
                proof {
                    lemma_read_ids_prefix(values, it.index() + 1);
                }
                return Err(DecodeError::Format(e));
            },
        }
    }
    assert(values.take(values.len() as int) =~= values);
    Ok(ids)
}

proof fn lemma_read_ids_prefix(values: Seq<Seq<u8>>, n: int)
    requires
        0 <= n <= values.len(),
        read_ids(values.take(n)) is Err,
    ensures
        read_ids(values) == read_ids(values.take(n)),
    decreases values.len() - n,
{
    if n < values.len() {
        assert(values.take(n + 1).drop_last() =~= values.take(n));
        lemma_read_ids_prefix(values, n + 1);
    } else {
        assert(values.take(n) =~= values);
    }
}

proof fn lemma_read_pairs_prefix(values: Seq<Seq<u8>>, n: int)
    requires
        0 <= n <= values.len(),
        read_pairs(values.take(n)) is Err,
    ensures
        read_pairs(values) == read_pairs(values.take(n)),
    decreases values.len() - n,
{
    if n < values.len() {
        assert(values.take(n + 1).drop_last() =~= values.take(n));
        lemma_read_pairs_prefix(values, n + 1);
    } else {
        assert(values.take(n) =~= values);
    }
}

/// Read a metadata pair from the parse of its nested frame.
fn parser_pair(nested: Result<FrameParser<'_>, yatlv::Error>) -> (r: Result<
    (u8, Vec<u8>),
    DecodeError,
>)
    ensures
        forall|bytes: Seq<u8>|
            crate::tlv::parsed(nested) == #[trigger] crate::tlv::parse_frame(bytes) ==> (match r {
                Ok(pair) => Ok((pair.0, pair.1@)),
                Err(e) => Err(e),
            }) == read_pair(bytes),
{
    let p = match nested {
        Ok(p) => p,
        Err(e) => return Err(DecodeError::Format(e)),
    };
    let key: u8 = match p.get_u8(TAG_META_KEY) {
        Ok(key) => key,
        Err(e) => return Err(DecodeError::Format(e)),
    };
    match p.get_data(TAG_META_VALUE) {
        Ok(value) => Ok((key, slice_to_vec(value))),
        Err(e) => Err(DecodeError::Format(e)),
    }
}

fn parser_pairs<'a>(p: &'a FrameParser<'a>) -> (r: Result<Vec<(u8, Vec<u8>)>, DecodeError>)
    ensures
        (match r {
            Ok(pairs) => Ok(crate::state::meta_view(pairs@)),
            Err(e) => Err(e),
        }) == read_pairs(crate::tlv::field_values(crate::tlv::parser_fields(*p), TAG_META)),
{
    let ghost values = crate::tlv::field_values(crate::tlv::parser_fields(*p), TAG_META);
    let mut pairs: Vec<(u8, Vec<u8>)> = Vec::new();
    assert(values.take(0) =~= Seq::<Seq<u8>>::empty());
    assert(crate::state::meta_view(pairs@) =~= Seq::<(u8, Seq<u8>)>::empty());
    for nested in it: get_frames(p, TAG_META)
        invariant
            it.seq().len() == values.len(),
            forall|i: int|
                0 <= i < values.len() ==> crate::tlv::parsed(#[trigger] it.seq()[i])
                    == crate::tlv::parse_frame(values[i]),
            values == crate::tlv::field_values(crate::tlv::parser_fields(*p), TAG_META),
            read_pairs(values.take(it.index() as int)) == Ok::<_, DecodeError>(
                crate::state::meta_view(pairs@),
            ),
    {
        let ghost before = crate::state::meta_view(pairs@);
        proof {
            let longer = values.take(it.index() + 1);
            assert(longer.drop_last() =~= values.take(it.index() as int));
            assert(longer.last() == values[it.index() as int]);
        }
        match parser_pair(nested) {
            Ok(pair) => {
                let ghost new = (pair.0, pair.1@);
                pairs.push(pair);
                assert(crate::state::meta_view(pairs@) =~= before.push(new));
            },
            Err(e) => {
                proof {
                    lemma_read_pairs_prefix(values, it.index() + 1);
                }
                return Err(e);
            },
        }
    }
    assert(values.take(values.len() as int) =~= values);
    Ok(pairs)
}

fn parser_body<'a>(code: u8, p: &'a FrameParser<'a>) -> (r: Result<Op, DecodeError>)
    ensures
        (match r {
            Ok(op) => Ok(op@),
            Err(e) => Err(e),
        }) == read_body(code, crate::tlv::parser_fields(*p)),
{
    if code == OP_CREATE_SEGMENT {
        Ok(
            Op::CreateSegment {
                id: SegmentId(parser_u32(p, TAG_SEGMENT_ID)?),
                first_entry: EntryId(parser_u64(p, TAG_FIRST_ENTRY)?),
            },
        )
    } else if code == OP_ROLL_SEGMENT {
        Ok(
            Op::RollSegment {
                sealed_id: SegmentId(parser_u32(p, TAG_SEGMENT_ID)?),
                first_entry: EntryId(parser_u64(p, TAG_FIRST_ENTRY)?),
                last_entry: EntryId(parser_u64(p, TAG_LAST_ENTRY)?),
                entry_count: parser_u32(p, TAG_ENTRY_COUNT)?,
                final_size: parser_u64(p, TAG_FINAL_SIZE)?,
                new_id: SegmentId(parser_u32(p, TAG_NEW_SEGMENT_ID)?),
                new_first_entry: EntryId(parser_u64(p, TAG_NEW_FIRST_ENTRY)?),
            },
        )
    } else if code == OP_TRUNCATE_START {
        let first_entry = EntryId(parser_u64(p, TAG_FIRST_ENTRY)?);
        let drop = parser_drop(p)?;
        Ok(Op::TruncateStart { first_entry, drop })
    } else if code == OP_TRUNCATE_END {
        let new_active_id = SegmentId(parser_u32(p, TAG_NEW_SEGMENT_ID)?);
        let byte_offset: u64 = parser_u64(p, TAG_BYTE_OFFSET)?;
        let drop = parser_drop(p)?;
        Ok(Op::TruncateEnd { new_active_id, byte_offset, drop })
    } else if code == OP_SEGMENT_DELETED {
        Ok(Op::SegmentDeleted { id: SegmentId(parser_u32(p, TAG_SEGMENT_ID)?) })
    } else if code == OP_RECORD_ORPHAN {
        Ok(Op::RecordOrphan { id: SegmentId(parser_u32(p, TAG_SEGMENT_ID)?) })
    } else if code == OP_META {
        Ok(Op::Metadata)
    } else {
        Err(DecodeError::UnknownOpType(code))
    }
}

impl ManifestOp {
    /// The bytes of this record.
    pub fn encode(&self) -> (bytes: Vec<u8>)
        requires
            encodable(self@),
        ensures
            bytes@ == encode_op(self@),
    {
        let mut buf: Vec<u8> = Vec::new();
        let mut frame = FrameBuilder::new(&mut buf);
        let code: u8 = match &self.op {
            Op::CreateSegment { .. } => OP_CREATE_SEGMENT,
            Op::RollSegment { .. } => OP_ROLL_SEGMENT,
            Op::TruncateStart { .. } => OP_TRUNCATE_START,
            Op::TruncateEnd { .. } => OP_TRUNCATE_END,
            Op::SegmentDeleted { .. } => OP_SEGMENT_DELETED,
            Op::RecordOrphan { .. } => OP_RECORD_ORPHAN,
            Op::Metadata => OP_META,
        };
        add_u8(&mut frame, TAG_OP_TYPE, code);
        match &self.op {
            Op::CreateSegment { id, first_entry } => {
                add_u32(&mut frame, TAG_SEGMENT_ID, id.0);
                add_u64(&mut frame, TAG_FIRST_ENTRY, first_entry.0);
            },
            Op::RollSegment {
                sealed_id,
                first_entry,
                last_entry,
                entry_count,
                final_size,
                new_id,
                new_first_entry,
            } => {
                add_u32(&mut frame, TAG_SEGMENT_ID, sealed_id.0);
                add_u64(&mut frame, TAG_FIRST_ENTRY, first_entry.0);
                add_u64(&mut frame, TAG_LAST_ENTRY, last_entry.0);
                add_u32(&mut frame, TAG_ENTRY_COUNT, *entry_count);
                add_u64(&mut frame, TAG_FINAL_SIZE, *final_size);
                add_u32(&mut frame, TAG_NEW_SEGMENT_ID, new_id.0);
                add_u64(&mut frame, TAG_NEW_FIRST_ENTRY, new_first_entry.0);
            },
            Op::TruncateStart { first_entry, drop } => {
                add_u64(&mut frame, TAG_FIRST_ENTRY, first_entry.0);
                add_drop_ids(&mut frame, drop);
            },
            Op::TruncateEnd { new_active_id, byte_offset, drop } => {
                add_u32(&mut frame, TAG_NEW_SEGMENT_ID, new_active_id.0);
                add_u64(&mut frame, TAG_BYTE_OFFSET, *byte_offset);
                add_drop_ids(&mut frame, drop);
            },
            Op::SegmentDeleted { id } => add_u32(&mut frame, TAG_SEGMENT_ID, id.0),
            Op::RecordOrphan { id } => add_u32(&mut frame, TAG_SEGMENT_ID, id.0),
            Op::Metadata => {},
        }
        assert(crate::tlv::builder_fields(frame) =~= seq![(TAG_OP_TYPE, seq![op_code(self@.op)])]
            + body_fields(self@.op));
        add_pairs(&mut frame, &self.meta);
        assert(crate::tlv::builder_fields(frame) =~= op_fields(self@));
        let _ = finish(frame);
        assert(buf@ =~= encode_op(self@));
        buf
    }

    /// The record that `bytes` spell.
    pub fn decode(bytes: &[u8]) -> (r: Result<ManifestOp, DecodeError>)
        ensures
            decoded(r) == decode_op(bytes@),
    {
        let frame = match FrameParser::new(bytes) {
            Ok(p) => p,
            Err(e) => return Err(DecodeError::Format(e)),
        };
        let op_type: u8 = match frame.get_u8(TAG_OP_TYPE) {
            Ok(x) => x,
            Err(e) => return Err(DecodeError::Format(e)),
        };
        let op = parser_body(op_type, &frame)?;
        let meta = parser_pairs(&frame)?;
        Ok(ManifestOp { op, meta })
    }
}

/// Add one field per dropped segment.
fn add_drop_ids(frame: &mut FrameBuilder<'_>, drop: &Vec<SegmentId>)
    requires
        crate::tlv::builder_fields(*old(frame)).len() + drop@.len() <= u32::MAX,
    ensures
        crate::tlv::builder_fields(*final(frame)) == crate::tlv::builder_fields(*old(frame))
            + drop_fields(drop@),
        crate::tlv::builder_out(*final(frame)) == crate::tlv::builder_out(*old(frame)),
{
    let mut i: usize = 0;
    assert(crate::tlv::builder_fields(*frame) + drop_fields(drop@).take(0)
        =~= crate::tlv::builder_fields(*frame));
    while i < drop.len()
        invariant
            i <= drop@.len(),
            crate::tlv::builder_fields(*old(frame)).len() + drop@.len() <= u32::MAX,
            crate::tlv::builder_fields(*frame) == crate::tlv::builder_fields(*old(frame))
                + drop_fields(drop@).take(i as int),
            crate::tlv::builder_out(*frame) == crate::tlv::builder_out(*old(frame)),
        decreases drop@.len() - i,
    {
        add_u32(frame, TAG_DROP_ID, drop[i].0);
        i = i + 1;
        assert(crate::tlv::builder_fields(*frame) =~= crate::tlv::builder_fields(*old(frame))
            + drop_fields(drop@).take(i as int));
    }
    assert(drop_fields(drop@).take(i as int) =~= drop_fields(drop@));
}

/// Add one nested frame per metadata pair.
fn add_pairs(frame: &mut FrameBuilder<'_>, meta: &Vec<(u8, Vec<u8>)>)
    requires
        crate::tlv::builder_fields(*old(frame)).len() + meta@.len() <= u32::MAX,
    ensures
        crate::tlv::builder_fields(*final(frame)) == crate::tlv::builder_fields(*old(frame))
            + meta_fields(crate::state::meta_view(meta@)),
        crate::tlv::builder_out(*final(frame)) == crate::tlv::builder_out(*old(frame)),
{
    let ghost fields = meta_fields(crate::state::meta_view(meta@));
    let mut i: usize = 0;
    assert(crate::tlv::builder_fields(*frame) + fields.take(0)
        =~= crate::tlv::builder_fields(*frame));
    while i < meta.len()
        invariant
            i <= meta@.len(),
            fields == meta_fields(crate::state::meta_view(meta@)),
            crate::tlv::builder_fields(*old(frame)).len() + meta@.len() <= u32::MAX,
            crate::tlv::builder_fields(*frame) == crate::tlv::builder_fields(*old(frame))
                + fields.take(i as int),
            crate::tlv::builder_out(*frame) == crate::tlv::builder_out(*old(frame)),
        decreases meta@.len() - i,
    {
        add_pair(
            frame,
            TAG_META,
            TAG_META_KEY,
            meta[i].0,
            TAG_META_VALUE,
            meta[i].1.as_slice(),
        );
        i = i + 1;
        assert(crate::tlv::builder_fields(*frame) =~= crate::tlv::builder_fields(*old(frame))
            + fields.take(i as int));
    }
    assert(fields.take(i as int) =~= fields);
}

} // verus!
