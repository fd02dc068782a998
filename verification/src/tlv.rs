//! Tag-length-value frames, as the `yatlv` crate builds and parses them.
//!
//! ```text
//! frame = 0x01 field-count:4 *field
//! field = tag:2 length:4 value
//! ```
//!
//! What is said here of `yatlv` is not proved. A builder patches the field count
//! (and a nested builder its own length) into the buffer when it is dropped, so
//! what a builder adds to its buffer is a value that lies in the future while
//! the builder is in use. It is known of a builder that was handed to [`finish`].

use vstd::prelude::*;
use yatlv::{FrameBuilder, FrameBuilderLike, FrameParser};

use crate::bytes;

verus! {

broadcast use crate::bytes::lemma_be_bytes_len;

// ── Format ────────────────────────────────────────────────────────────────────

/// The bytes of one field. The length field holds the low 32 bits of the
/// value's length.
pub open spec fn field_bytes(tag: u16, value: Seq<u8>) -> Seq<u8> {
    bytes::be_bytes(tag as nat, 2) + bytes::be_bytes((value.len() as u32) as nat, 4) + value
}

/// The bytes of `fields`, one after another.
pub open spec fn fields_bytes(fields: Seq<(u16, Seq<u8>)>) -> Seq<u8>
    decreases fields.len(),
{
    if fields.len() == 0 {
        Seq::empty()
    } else {
        field_bytes(fields[0].0, fields[0].1) + fields_bytes(fields.skip(1))
    }
}

/// The bytes of a frame made of `fields`.
pub open spec fn frame_bytes(fields: Seq<(u16, Seq<u8>)>) -> Seq<u8> {
    seq![1u8] + bytes::be_bytes(fields.len(), 4) + fields_bytes(fields)
}

/// The count and every length fit their 32 bits.
pub open spec fn fits(fields: Seq<(u16, Seq<u8>)>) -> bool {
    &&& fields.len() <= u32::MAX
    &&& forall|i: int| 0 <= i < fields.len() ==> (#[trigger] fields[i]).1.len() <= u32::MAX
}

pub open spec fn is_frame_of(bytes: Seq<u8>, fields: Seq<(u16, Seq<u8>)>) -> bool {
    fits(fields) && bytes == frame_bytes(fields)
}

/// `bytes` are those of a frame.
pub open spec fn is_frame(bytes: Seq<u8>) -> bool {
    exists|fields: Seq<(u16, Seq<u8>)>| is_frame_of(bytes, fields)
}

/// The fields that `bytes` spell, where they are those of a frame.
pub open spec fn frame_fields(bytes: Seq<u8>) -> Seq<(u16, Seq<u8>)> {
    choose|fields: Seq<(u16, Seq<u8>)>| is_frame_of(bytes, fields)
}

/// A parser's answer to `bytes`.
pub open spec fn parse_frame(bytes: Seq<u8>) -> Result<Seq<(u16, Seq<u8>)>, yatlv::Error> {
    if is_frame(bytes) {
        Ok(frame_fields(bytes))
    } else {
        Err(frame_error(bytes))
    }
}

/// The value of the first field with `tag`.
pub open spec fn find_field(fields: Seq<(u16, Seq<u8>)>, tag: u16) -> Option<Seq<u8>>
    decreases fields.len(),
{
    if fields.len() == 0 {
        None
    } else if fields[0].0 == tag {
        Some(fields[0].1)
    } else {
        find_field(fields.skip(1), tag)
    }
}

/// The values of all fields with `tag`, in order.
pub open spec fn field_values(fields: Seq<(u16, Seq<u8>)>, tag: u16) -> Seq<Seq<u8>>
    decreases fields.len(),
{
    if fields.len() == 0 {
        Seq::empty()
    } else if fields[0].0 == tag {
        seq![fields[0].1] + field_values(fields.skip(1), tag)
    } else {
        field_values(fields.skip(1), tag)
    }
}

/// A number in a field: 1, 2, 4 or 8 bytes, but no more than `width`.
pub open spec fn uint_value(value: Seq<u8>, width: nat) -> Result<nat, yatlv::Error> {
    let n = value.len();
    if n <= width && (n == 1 || n == 2 || n == 4 || n == 8) {
        Ok(bytes::be_value(value))
    } else {
        Err(yatlv::Error::IncompatibleFieldLength(n as usize))
    }
}

/// The number in the first field with `tag`.
pub open spec fn uint_field(fields: Seq<(u16, Seq<u8>)>, tag: u16, width: nat) -> Result<
    nat,
    yatlv::Error,
> {
    match find_field(fields, tag) {
        Some(value) => uint_value(value, width),
        None => Err(yatlv::Error::MissingRequiredField(tag)),
    }
}

/// The bytes in the first field with `tag`.
pub open spec fn data_field(fields: Seq<(u16, Seq<u8>)>, tag: u16) -> Result<
    Seq<u8>,
    yatlv::Error,
> {
    match find_field(fields, tag) {
        Some(value) => Ok(value),
        None => Err(yatlv::Error::MissingRequiredField(tag)),
    }
}

// ── The crate's types ─────────────────────────────────────────────────────────

/// `yatlv::FrameBuilder`.
#[verifier::external_type_specification]
#[verifier::external_body]
pub struct ExFrameBuilder<'a>(FrameBuilder<'a>);

/// `yatlv::FrameParser`.
#[verifier::external_type_specification]
#[verifier::external_body]
pub struct ExFrameParser<'a>(FrameParser<'a>);

/// `yatlv::Error`, with its variants.
#[verifier::external_type_specification]
pub struct ExError(yatlv::Error);

/// The fields added to a builder so far.
pub uninterp spec fn builder_fields(b: FrameBuilder<'_>) -> Seq<(u16, Seq<u8>)>;

/// The bytes that a builder will have added to its buffer when the buffer is
/// free again.
pub uninterp spec fn builder_out(b: FrameBuilder<'_>) -> Seq<u8>;

/// The fields of a parsed frame, in order.
pub uninterp spec fn parser_fields(p: FrameParser<'_>) -> Seq<(u16, Seq<u8>)>;

/// Why `yatlv::FrameParser::new` refuses bytes that are no frame.
pub uninterp spec fn frame_error(bytes: Seq<u8>) -> yatlv::Error;

/// The result of a parse, by the fields of the parser.
pub open spec fn parsed(r: Result<FrameParser<'_>, yatlv::Error>) -> Result<
    Seq<(u16, Seq<u8>)>,
    yatlv::Error,
> {
    match r {
        Ok(p) => Ok(parser_fields(p)),
        Err(e) => Err(e),
    }
}

// ── Building ──────────────────────────────────────────────────────────────────

/// `yatlv::FrameBuilder::new`: the new builder has no fields, and whatever it
/// writes it appends to `data`.
pub assume_specification<'a, 'b>[ FrameBuilder::<'a>::new ](data: &'b mut Vec<u8>) -> (b:
    FrameBuilder<'b>)
    ensures
        builder_fields(b) == Seq::<(u16, Seq<u8>)>::empty(),
        final(data)@ == old(data)@ + builder_out(b),
;

/// `FrameBuilderLike::add_u8` on a `FrameBuilder`: adds a field of one byte.
/// The crate counts fields in 32 bits.
#[verifier::external_body]
pub(crate) fn add_u8(b: &mut FrameBuilder<'_>, tag: u16, value: u8)
    requires
        builder_fields(*old(b)).len() < u32::MAX,
    ensures
        builder_fields(*final(b)) == builder_fields(*old(b)).push((tag, seq![value])),
        builder_out(*final(b)) == builder_out(*old(b)),
{
    b.add_u8(tag, value)
}

/// `FrameBuilderLike::add_u32` on a `FrameBuilder`: adds a field of four bytes,
/// big-endian.
#[verifier::external_body]
pub(crate) fn add_u32(b: &mut FrameBuilder<'_>, tag: u16, value: u32)
    requires
        builder_fields(*old(b)).len() < u32::MAX,
    ensures
        builder_fields(*final(b)) == builder_fields(*old(b)).push(
            (tag, bytes::be_bytes(value as nat, 4)),
        ),
        builder_out(*final(b)) == builder_out(*old(b)),
{
    b.add_u32(tag, value)
}

/// `FrameBuilderLike::add_u64` on a `FrameBuilder`: adds a field of eight bytes,
/// big-endian.
#[verifier::external_body]
pub(crate) fn add_u64(b: &mut FrameBuilder<'_>, tag: u16, value: u64)
    requires
        builder_fields(*old(b)).len() < u32::MAX,
    ensures
        builder_fields(*final(b)) == builder_fields(*old(b)).push(
            (tag, bytes::be_bytes(value as nat, 8)),
        ),
        builder_out(*final(b)) == builder_out(*old(b)),
{
    b.add_u64(tag, value)
}

/// `FrameBuilderLike::add_frame` on a `FrameBuilder`, and `add_u8` and `add_data`
/// on the builder of the nested frame, which is then dropped: adds a field whose
/// value is a frame of two fields, one of one byte and one of the given bytes.
#[verifier::external_body]
pub(crate) fn add_pair(
    b: &mut FrameBuilder<'_>,
    tag: u16,
    key_tag: u16,
    key: u8,
    value_tag: u16,
    value: &[u8],
)
    requires
        builder_fields(*old(b)).len() < u32::MAX,
    ensures
        builder_fields(*final(b)) == builder_fields(*old(b)).push(
            (tag, frame_bytes(seq![(key_tag, seq![key]), (value_tag, value@)])),
        ),
        builder_out(*final(b)) == builder_out(*old(b)),
{
    let mut nested = b.add_frame(tag);
    nested.add_u8(key_tag, key);
    nested.add_data(value_tag, value);
}

/// The drop of a `yatlv::FrameBuilder`, which patches the field count into the
/// buffer: what the builder has added to the buffer is then the frame made of
/// its fields. The result is always `true`.
#[verifier::external_body]
pub(crate) fn finish(b: FrameBuilder<'_>) -> (done: bool)
    ensures
        done,
        done ==> builder_out(b) == frame_bytes(builder_fields(b)),
{
    drop(b);
    true
}

// ── Parsing ───────────────────────────────────────────────────────────────────

/// `yatlv::FrameParser::new`: accepts the bytes of a frame and nothing else, and
/// gives its fields. Which error refuses other bytes is a function of the bytes.
pub assume_specification<'a, 'b>[ FrameParser::<'a>::new ](frame_data: &'b [u8]) -> (r: Result<
    FrameParser<'b>,
    yatlv::Error,
>)
    ensures
        parsed(r) == (if is_frame(frame_data@) {
            Ok(frame_fields(frame_data@))
        } else {
            Err(frame_error(frame_data@))
        }),
;

/// `yatlv::FrameParser::get_u8`: the number in the first field with the tag.
pub assume_specification<'a>[ FrameParser::<'a>::get_u8 ](
    p: &FrameParser<'a>,
    search_tag: u16,
) -> (r: Result<u8, yatlv::Error>)
    ensures
        r == (match uint_field(parser_fields(*p), search_tag, 1) {
            Ok(x) => Ok(x as u8),
            Err(e) => Err(e),
        }),
;

/// `yatlv::FrameParser::get_u32`: the number in the first field with the tag.
pub assume_specification<'a>[ FrameParser::<'a>::get_u32 ](
    p: &FrameParser<'a>,
    search_tag: u16,
) -> (r: Result<u32, yatlv::Error>)
    ensures
        r == (match uint_field(parser_fields(*p), search_tag, 4) {
            Ok(x) => Ok(x as u32),
            Err(e) => Err(e),
        }),
;

/// `yatlv::FrameParser::get_u64`: the number in the first field with the tag.
pub assume_specification<'a>[ FrameParser::<'a>::get_u64 ](
    p: &FrameParser<'a>,
    search_tag: u16,
) -> (r: Result<u64, yatlv::Error>)
    ensures
        r == (match uint_field(parser_fields(*p), search_tag, 8) {
            Ok(x) => Ok(x as u64),
            Err(e) => Err(e),
        }),
;

/// `yatlv::FrameParser::get_data`: the bytes in the first field with the tag.
pub assume_specification<'a>[ FrameParser::<'a>::get_data ](
    p: &FrameParser<'a>,
    search_tag: u16,
) -> (r: Result<&'a [u8], yatlv::Error>)
    ensures
        (match r {
            Ok(bytes) => Ok(bytes@),
            Err(e) => Err(e),
        }) == data_field(parser_fields(*p), search_tag),
;

/// `yatlv::FrameParser::get_u32s`, collected: the numbers in all fields with the
/// tag, in order, each read on its own.
#[verifier::external_body]
pub(crate) fn get_u32s<'a>(p: &'a FrameParser<'a>, tag: u16) -> (r: Vec<Result<u32, yatlv::Error>>)
    ensures
        r@.len() == field_values(parser_fields(*p), tag).len(),
        forall|i: int|
            0 <= i < r@.len() ==> (#[trigger] r@[i]) == (match uint_value(
                field_values(parser_fields(*p), tag)[i],
                4,
            ) {
                Ok(x) => Ok(x as u32),
                Err(e) => Err(e),
            }),
{
    p.get_u32s(tag).collect()
}

/// `yatlv::FrameParser::get_frames`, collected: the values of all fields with
/// the tag, in order, each parsed as a frame on its own.
#[verifier::external_body]
pub(crate) fn get_frames<'a>(p: &'a FrameParser<'a>, tag: u16) -> (r: Vec<
    Result<FrameParser<'a>, yatlv::Error>,
>)
    ensures
        r@.len() == field_values(parser_fields(*p), tag).len(),
        forall|i: int|
            0 <= i < r@.len() ==> parsed(#[trigger] r@[i]) == parse_frame(
                field_values(parser_fields(*p), tag)[i],
            ),
{
    p.get_frames(tag).collect()
}

// ── What the format promises ──────────────────────────────────────────────────

/// Two lists of fields with the same bytes, and the same number of fields, are
/// the same.
pub proof fn lemma_fields_bytes_injective(a: Seq<(u16, Seq<u8>)>, b: Seq<(u16, Seq<u8>)>)
    requires
        fits(a),
        fits(b),
        a.len() == b.len(),
        fields_bytes(a) == fields_bytes(b),
    ensures
        a == b,
    decreases a.len(),
{
    if a.len() > 0 {
        let s = fields_bytes(a);
        let (fa, fb) = (a[0], b[0]);
        let (na, nb) = (fa.1.len(), fb.1.len());
        crate::bytes::lemma_pow256_values();
        crate::bytes::lemma_value_of_bytes(fa.0 as nat, 2);
        crate::bytes::lemma_value_of_bytes(fb.0 as nat, 2);
        crate::bytes::lemma_value_of_bytes(na, 4);
        crate::bytes::lemma_value_of_bytes(nb, 4);
        assert(s.subrange(0, 2) =~= bytes::be_bytes(fa.0 as nat, 2));
        assert(s.subrange(0, 2) =~= bytes::be_bytes(fb.0 as nat, 2));
        assert(s.subrange(2, 6) =~= bytes::be_bytes(na, 4));
        assert(s.subrange(2, 6) =~= bytes::be_bytes(nb, 4));
        assert(s.subrange(6, 6 + na as int) =~= fa.1);
        assert(s.subrange(6, 6 + nb as int) =~= fb.1);
        assert(s.skip(6 + na as int) =~= fields_bytes(a.skip(1)));
        assert(s.skip(6 + nb as int) =~= fields_bytes(b.skip(1)));
        lemma_fields_bytes_injective(a.skip(1), b.skip(1));
        assert(a =~= seq![a[0]] + a.skip(1));
        assert(b =~= seq![b[0]] + b.skip(1));
    } else {
        assert(a =~= b);
    }
}

/// Law: a frame is parsed into the fields it was built of.
pub proof fn law_frame_parses_back(fields: Seq<(u16, Seq<u8>)>)
    requires
        fits(fields),
    ensures
        parse_frame(frame_bytes(fields)) == Ok::<_, yatlv::Error>(fields),
{
    let bytes = frame_bytes(fields);
    assert(is_frame_of(bytes, fields));
    let other = frame_fields(bytes);
    assert(is_frame_of(bytes, other));
    crate::bytes::lemma_pow256_values();
    crate::bytes::lemma_value_of_bytes(fields.len(), 4);
    crate::bytes::lemma_value_of_bytes(other.len(), 4);
    assert(bytes.subrange(1, 5) =~= bytes::be_bytes(fields.len(), 4));
    assert(bytes.subrange(1, 5) =~= bytes::be_bytes(other.len(), 4));
    assert(bytes.skip(5) =~= fields_bytes(fields));
    assert(bytes.skip(5) =~= fields_bytes(other));
    lemma_fields_bytes_injective(fields, other);
}

} // verus!
