//! What bytes, numbers and names look like.

use vstd::arithmetic::div_mod::lemma_div_denominator;
use vstd::arithmetic::power::{lemma_pow_positive, pow};
use vstd::prelude::*;

use crate::bytes;
use crate::files;
use crate::text;
use crate::{IoFault, SegmentId};

verus! {

broadcast use {crate::bytes::lemma_be_bytes_len, crate::text::lemma_hex_len};

// ── Digits ────────────────────────────────────────────────────────────────────

proof fn lemma_pow_step(b: int, k: nat)
    ensures
        pow(b, 0) == 1,
        pow(b, k + 1) == b * pow(b, k),
{
    reveal(pow);
}

/// The digits of `x / b` are those of `x`, one place further.
proof fn lemma_digit_shift(x: int, b: int, k: nat)
    requires
        x >= 0,
        b > 0,
    ensures
        (x / b) / pow(b, k) == x / pow(b, k + 1),
{
    lemma_pow_step(b, k);
    lemma_pow_positive(b, k);
    lemma_div_denominator(x, b, pow(b, k));
}

// ── Bytes ─────────────────────────────────────────────────────────────────────

/// Law: numbers are big-endian. Byte `i` of `n` is the digit in base 256 that
/// `n - 1 - i` digits follow.
pub proof fn law_bytes_are_big_endian(x: nat, n: nat, i: int)
    requires
        0 <= i < n,
    ensures
        bytes::be_bytes(x, n).len() == n,
        bytes::be_bytes(x, n)[i] as int == (x as int / pow(256, (n - 1 - i) as nat)) % 256,
    decreases n,
{
    let k = (n - 1 - i) as nat;
    lemma_pow_step(256, 0);
    if k == 0 {
        assert(x as int / 1 == x);
    } else {
        law_bytes_are_big_endian(x / 256, (n - 1) as nat, i);
        lemma_digit_shift(x as int, 256, (k - 1) as nat);
    }
}

/// Law: bytes are read as the number that has them for digits.
pub proof fn law_value_has_bytes_for_digits(s: Seq<u8>, i: int)
    requires
        0 <= i < s.len(),
    ensures
        (bytes::be_value(s) as int / pow(256, (s.len() - 1 - i) as nat)) % 256 == s[i] as int,
        bytes::be_value(s) < pow(256, s.len()),
    decreases s.len(),
{
    bytes::lemma_bytes_of_value(s);
    law_bytes_are_big_endian(bytes::be_value(s), s.len(), i);
    lemma_value_below(s);
}

proof fn lemma_value_below(s: Seq<u8>)
    ensures
        bytes::be_value(s) < pow(256, s.len()),
    decreases s.len(),
{
    lemma_pow_step(256, 0);
    if s.len() > 0 {
        lemma_value_below(s.drop_last());
        lemma_pow_step(256, (s.len() - 1) as nat);
    }
}

// ── Text ──────────────────────────────────────────────────────────────────────

/// The character of a digit below 16: `0` to `9`, then `a` to `f`.
pub open spec fn is_digit_char(c: char, d: int) -> bool {
    c as u32 as int == if d < 10 {
        '0' as u32 as int + d
    } else {
        'a' as u32 as int + d - 10
    }
}

/// Law: character `i` of a number in hexadecimal is the digit that
/// `width - 1 - i` digits follow, in lower case.
pub proof fn law_hex_digits(n: nat, width: nat, i: int)
    requires
        0 <= i < width,
    ensures
        text::hex(n, width).len() == width,
        is_digit_char(text::hex(n, width)[i], (n as int / pow(16, (width - 1 - i) as nat)) % 16),
    decreases width,
{
    let k = (width - 1 - i) as nat;
    lemma_pow_step(16, 0);
    if k == 0 {
        assert(n as int / 1 == n);
    } else {
        law_hex_digits(n / 16, (width - 1) as nat, i);
        lemma_digit_shift(n as int, 16, (k - 1) as nat);
    }
}

/// Law: a number in decimal has as many digits as it needs and no more, and
/// character `i` is the digit that those behind it follow.
pub proof fn law_decimal_digits(n: nat, i: int)
    requires
        0 <= i < text::decimal(n).len(),
    ensures
        is_digit_char(
            text::decimal(n)[i],
            (n as int / pow(10, (text::decimal(n).len() - 1 - i) as nat)) % 10,
        ),
        n < pow(10, text::decimal(n).len()),
        text::decimal(n).len() > 1 ==> n >= pow(10, (text::decimal(n).len() - 1) as nat),
    decreases n,
{
    let len = text::decimal(n).len();
    let k = (len - 1 - i) as nat;
    lemma_pow_step(10, 0);
    lemma_decimal_len(n);
    if k == 0 {
        assert(n as int / 1 == n);
    } else {
        law_decimal_digits(n / 10, i);
        lemma_digit_shift(n as int, 10, (k - 1) as nat);
    }
}

proof fn lemma_decimal_len(n: nat)
    ensures
        text::decimal(n).len() > 0,
        n < pow(10, text::decimal(n).len()),
        text::decimal(n).len() > 1 ==> n >= pow(10, (text::decimal(n).len() - 1) as nat),
    decreases n,
{
    lemma_pow_step(10, 0);
    if n >= 10 {
        lemma_decimal_len(n / 10);
        let len = text::decimal(n / 10).len();
        lemma_pow_step(10, len);
        lemma_pow_step(10, (len - 1) as nat);
    } else {
        lemma_pow_step(10, 0);
        assert(pow(10, 1) == 10);
    }
}

// ── Names ─────────────────────────────────────────────────────────────────────

/// Law: a segment's file is named by the eight hexadecimal digits of its id, in
/// lower case, and `.seg`.
pub proof fn law_segment_file_is_named_by_id(id: SegmentId, i: int)
    requires
        0 <= i < 8,
    ensures
        files::segment_name(id).len() == 12,
        files::segment_name(id).skip(8) == ".seg"@,
        is_digit_char(files::segment_name(id)[i], (id.0 as int / pow(16, (7 - i) as nat)) % 16),
{
    reveal_strlit(".seg");
    law_hex_digits(id.0 as nat, 8, i);
    assert(files::segment_name(id).skip(8) =~= ".seg"@);
}

/// The value of a hexadecimal digit, in either case.
pub open spec fn is_hex_digit(c: char, d: int) -> bool {
    ||| '0' <= c <= '9' && d == c as u32 - '0' as u32
    ||| 'a' <= c <= 'f' && d == c as u32 - 'a' as u32 + 10
    ||| 'A' <= c <= 'F' && d == c as u32 - 'A' as u32 + 10
}

/// `s` spells `n` in base 16.
pub open spec fn spells(s: Seq<char>, n: int) -> bool {
    &&& 0 <= n < pow(16, s.len())
    &&& forall|i: int|
        0 <= i < s.len() ==> is_hex_digit(
            #[trigger] s[i],
            (n / pow(16, (s.len() - 1 - i) as nat)) % 16,
        )
}

proof fn lemma_hex_number_spells(s: Seq<char>)
    ensures
        files::hex_number(s) matches Some(n) ==> spells(s, n as int),
    decreases s.len(),
{
    lemma_pow_step(16, 0);
    if s.len() > 0 && files::hex_number(s) is Some {
        let front = s.drop_last();
        let m = files::hex_number(front)->Some_0 as int;
        let n = files::hex_number(s)->Some_0 as int;
        lemma_hex_number_spells(front);
        lemma_pow_step(16, front.len());
        assert(n / 16 == m && n % 16 == files::hex_value(s.last())->Some_0);
        assert forall|i: int| 0 <= i < s.len() implies is_hex_digit(
            #[trigger] s[i],
            (n / pow(16, (s.len() - 1 - i) as nat)) % 16,
        ) by {
            if i < front.len() {
                assert(s[i] == front[i]);
                lemma_digit_shift(n, 16, (front.len() - 1 - i) as nat);
            } else {
                assert(n / 1 == n);
            }
        }
    }
}

/// A text spells at most one number, and where it spells one, that is read.
proof fn lemma_spelled_is_read(s: Seq<char>, n: int)
    requires
        spells(s, n),
    ensures
        files::hex_number(s) == Some(n as nat),
    decreases s.len(),
{
    lemma_pow_step(16, 0);
    if s.len() > 0 {
        let front = s.drop_last();
        lemma_pow_step(16, front.len());
        assert(0 <= n / 16 < pow(16, front.len())) by (nonlinear_arith)
            requires
                0 <= n < 16 * pow(16, front.len()),
        ;
        assert forall|i: int| 0 <= i < front.len() implies is_hex_digit(
            #[trigger] front[i],
            ((n / 16) / pow(16, (front.len() - 1 - i) as nat)) % 16,
        ) by {
            assert(s[i] == front[i]);
            lemma_digit_shift(n, 16, (front.len() - 1 - i) as nat);
        }
        lemma_spelled_is_read(front, n / 16);
        assert(n / 1 == n);
        assert(is_hex_digit(s[s.len() - 1], (n / pow(16, 0)) % 16));
        assert(files::hex_value(s.last()) == Some((n % 16) as nat));
    }
}

proof fn lemma_last_dot(stem: Seq<char>)
    ensures
        files::last_dot(stem + ".seg"@) == Some(stem.len() as int),
        (stem + ".seg"@).take(stem.len() as int) == stem,
        (stem + ".seg"@).skip(stem.len() as int + 1) == "seg"@,
{
    reveal_strlit(".seg");
    reveal_strlit("seg");
    let name = stem + ".seg"@;
    assert(name.last() == 'g');
    assert(name.drop_last().last() == 'e');
    assert(name.drop_last().drop_last().last() == 's');
    assert(name.drop_last().drop_last().drop_last().last() == '.');
    reveal_with_fuel(files::last_dot, 5);
    assert(name.take(stem.len() as int) =~= stem);
    assert(name.skip(stem.len() as int + 1) =~= "seg"@);
}

/// Law: a file is taken for a segment's exactly where its name is a number of 32
/// bits in hexadecimal, of either case and any number of digits, after a `+` or
/// not, and `.seg`; and then for the segment with that number.
pub proof fn law_segment_files_are_told_by_name(stem: Seq<char>, id: SegmentId)
    ensures
        files::parse_name(stem + ".seg"@) == Some(id) <==> {
            ||| stem.len() > 0 && spells(stem, id.0 as int)
            ||| stem.len() > 1 && stem[0] == '+' && spells(stem.skip(1), id.0 as int)
        },
{
    let name = stem + ".seg"@;
    lemma_last_dot(stem);
    let digits = if stem.len() > 0 && stem[0] == '+' {
        stem.skip(1)
    } else {
        stem
    };
    lemma_hex_number_spells(digits);
    if stem.len() > 0 && spells(stem, id.0 as int) {
        assert(is_hex_digit(
            stem[0],
            (id.0 as int / pow(16, (stem.len() - 1) as nat)) % 16,
        ));
        lemma_spelled_is_read(stem, id.0 as int);
    }
    if stem.len() > 1 && stem[0] == '+' && spells(stem.skip(1), id.0 as int) {
        lemma_spelled_is_read(stem.skip(1), id.0 as int);
    }
}

proof fn lemma_dot_is_there(s: Seq<char>)
    ensures
        files::last_dot(s) matches Some(p) ==> 0 <= p < s.len() && s[p] == '.',
    decreases s.len(),
{
    if s.len() > 0 {
        lemma_dot_is_there(s.drop_last());
    }
}

/// Law: a file whose name does not end with `.seg` is not taken for a segment's.
pub proof fn law_other_files_are_ignored(name: Seq<char>)
    ensures
        files::parse_name(name) is Some ==> name.len() > 4 && name.skip(name.len() - 4) == ".seg"@,
{
    reveal_strlit(".seg");
    reveal_strlit("seg");
    lemma_dot_is_there(name);
    if files::parse_name(name) is Some {
        let p = files::last_dot(name)->Some_0;
        let ext = name.skip(p + 1);
        assert(ext.len() == 3);
        assert(ext[0] == name[p + 1] && ext[1] == name[p + 2] && ext[2] == name[p + 3]);
        assert(name.skip(name.len() - 4) =~= ".seg"@);
    }
}

/// Law: a listing has one id per segment file, and the ids are those that the
/// names say.
pub proof fn law_listing_follows_names(names: Seq<String>, name: String, id: SegmentId)
    ensures
        files::listed_ids(Seq::<String>::empty()).len() == 0,
        files::listed_ids(names.push(name)).len() == files::listed_ids(names).len() + if
            files::parse_name(name@) is Some {
            1int
        } else {
            0int
        },
        files::listed_ids(names).contains(id) <==> exists|i: int|
            0 <= i < names.len() && files::parse_name((#[trigger] names[i])@) == Some(id),
    decreases names.len(),
{
    let all = names.push(name);
    assert(all.drop_last() =~= names);
    lemma_inserted(files::listed_ids(names), files::parse_name(name@)->Some_0);
    if names.len() > 0 {
        let front = names.drop_last();
        law_listing_follows_names(front, name, id);
        assert(names[names.len() - 1] == names.last());
        let ids = files::listed_ids(front);
        match files::parse_name(names.last()@) {
            Some(x) => {
                lemma_inserted(ids, x);
            },
            None => {},
        }
        if exists|i: int|
            0 <= i < names.len() && files::parse_name((#[trigger] names[i])@) == Some(id) {
            let i = choose|i: int|
                0 <= i < names.len() && files::parse_name((#[trigger] names[i])@) == Some(id);
            if i < front.len() {
                assert(front[i] == names[i]);
            }
        }
        if exists|i: int|
            0 <= i < front.len() && files::parse_name((#[trigger] front[i])@) == Some(id) {
            let i = choose|i: int|
                0 <= i < front.len() && files::parse_name((#[trigger] front[i])@) == Some(id);
            assert(front[i] == names[i]);
        }
    }
}

proof fn lemma_inserted(ids: Seq<SegmentId>, id: SegmentId)
    ensures
        files::insert_sorted(ids, id).len() == ids.len() + 1,
        forall|x: SegmentId| #[trigger]
            files::insert_sorted(ids, id).contains(x) <==> x == id || ids.contains(x),
    decreases ids.len(),
{
    let after = files::insert_sorted(ids, id);
    if ids.len() == 0 || ids.last().0 <= id.0 {
        assert(after == ids.push(id));
        assert forall|x: SegmentId| #[trigger] after.contains(x) <==> x == id || ids.contains(
            x,
        ) by {
            if ids.contains(x) {
                let i = choose|i: int| 0 <= i < ids.len() && ids[i] == x;
                assert(after[i] == x);
            }
            assert(after[ids.len() as int] == id);
        }
    } else {
        let front = ids.drop_last();
        lemma_inserted(front, id);
        let mid = files::insert_sorted(front, id);
        assert forall|x: SegmentId| #[trigger] after.contains(x) <==> x == id || ids.contains(
            x,
        ) by {
            if after.contains(x) {
                let i = choose|i: int| 0 <= i < after.len() && after[i] == x;
                if i < mid.len() {
                    assert(mid[i] == x);
                    assert(mid.contains(x));
                    if front.contains(x) {
                        let j = choose|j: int| 0 <= j < front.len() && front[j] == x;
                        assert(ids[j] == x);
                    }
                } else {
                    assert(ids[ids.len() - 1] == x);
                }
            }
            if x == id || ids.contains(x) {
                if x == id || front.contains(x) {
                    assert(mid.contains(x));
                    let i = choose|i: int| 0 <= i < mid.len() && mid[i] == x;
                    assert(after[i] == x);
                } else {
                    let j = choose|j: int| 0 <= j < ids.len() && ids[j] == x;
                    if j < front.len() {
                        assert(front[j] == x);
                    }
                    assert(after[mid.len() as int] == x);
                }
            }
        }
    }
}

// ── Magic ─────────────────────────────────────────────────────────────────────

/// Law: segment files begin with `\\xffWDSEGM\\x01`, manifests with
/// `\\xffWDMNFT\\x01`, and a file that begins otherwise, or is too short to, is
/// invalid. What cannot be read cannot be opened.
pub proof fn law_magic_is_required(contents: Result<Seq<u8>, IoFault>)
    ensures
        ({
            let segment = files::opened(contents, files::SEGMENT_MAGIC);
            let manifest = files::opened(contents, files::MANIFEST_MAGIC);
            match contents {
                Err(e) => segment == Err::<Seq<u8>, _>(e) && manifest == Err::<Seq<u8>, _>(e),
                Ok(data) => {
                    &&& segment == if begins_as_segment(data) {
                        Ok(data)
                    } else {
                        Err(IoFault::InvalidData)
                    }
                    &&& manifest == if begins_as_manifest(data) {
                        Ok(data)
                    } else {
                        Err(IoFault::InvalidData)
                    }
                },
            }
        }),
{
    if let Ok(data) = contents {
        lemma_magic(data);
    }
}

/// The first eight bytes of a segment file.
pub open spec fn begins_as_segment(data: Seq<u8>) -> bool {
    &&& data.len() >= 8
    &&& data[0] == 0xff && data[1] == 'W' as u8 && data[2] == 'D' as u8
    &&& data[3] == 'S' as u8 && data[4] == 'E' as u8 && data[5] == 'G' as u8
    &&& data[6] == 'M' as u8 && data[7] == 0x01
}

/// The first eight bytes of a manifest.
pub open spec fn begins_as_manifest(data: Seq<u8>) -> bool {
    &&& data.len() >= 8
    &&& data[0] == 0xff && data[1] == 'W' as u8 && data[2] == 'D' as u8
    &&& data[3] == 'M' as u8 && data[4] == 'N' as u8 && data[5] == 'F' as u8
    &&& data[6] == 'T' as u8 && data[7] == 0x01
}

/// Whether a file begins as it should is told by its first eight bytes.
pub proof fn lemma_magic(data: Seq<u8>)
    ensures
        files::has_magic(data, files::SEGMENT_MAGIC) <==> begins_as_segment(data),
        files::has_magic(data, files::MANIFEST_MAGIC) <==> begins_as_manifest(data),
{
    let head = data.take(8);
    if begins_as_segment(data) {
        assert(head =~= files::SEGMENT_MAGIC@);
    }
    if begins_as_manifest(data) {
        assert(head =~= files::MANIFEST_MAGIC@);
    }
    if data.len() >= 8 {
        assert(forall|i: int| 0 <= i < 8 ==> head[i] == data[i]);
        let (a, b) = (files::SEGMENT_MAGIC@, files::MANIFEST_MAGIC@);
        assert(a[0] == 0xff && a[1] == 0x57 && a[2] == 0x44 && a[3] == 0x53);
        assert(a[4] == 0x45 && a[5] == 0x47 && a[6] == 0x4d && a[7] == 0x01);
        assert(b[0] == 0xff && b[1] == 0x57 && b[2] == 0x44 && b[3] == 0x4d);
        assert(b[4] == 0x4e && b[5] == 0x46 && b[6] == 0x54 && b[7] == 0x01);
        assert(head[0] == data[0] && head[1] == data[1] && head[2] == data[2]);
        assert(head[3] == data[3] && head[4] == data[4] && head[5] == data[5]);
        assert(head[6] == data[6] && head[7] == data[7]);
    }
}

} // verus!
