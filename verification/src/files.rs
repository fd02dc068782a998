//! What the files of a store are called, and how they begin.

use vstd::prelude::*;
use vstd::string::{StrSliceExecFns, StringExecFns};

use crate::text::push_hex;
use crate::{IoFault, SegmentId};

verus! {

broadcast use crate::text::lemma_hex_len;

/// Length of the magic prefix of a file. Frames begin after it.
pub const MAGIC_LEN: usize = 8;

/// The name of the manifest.
pub const MANIFEST_FILE_NAME: &'static str = "MANIFEST";

/// `\xffWDSEGM\x01`
pub const SEGMENT_MAGIC: [u8; 8] = [0xff, 0x57, 0x44, 0x53, 0x45, 0x47, 0x4d, 0x01];

/// `\xffWDMNFT\x01`
pub const MANIFEST_MAGIC: [u8; 8] = [0xff, 0x57, 0x44, 0x4d, 0x4e, 0x46, 0x54, 0x01];

// ── Magic ─────────────────────────────────────────────────────────────────────

/// `data` begins with `magic`.
pub open spec fn has_magic(data: Seq<u8>, magic: [u8; 8]) -> bool {
    data.len() >= MAGIC_LEN && data.take(MAGIC_LEN as int) == magic@
}

/// What opening a file gives: its contents, where they could be read and begin
/// with `magic`.
pub open spec fn opened(contents: Result<Seq<u8>, IoFault>, magic: [u8; 8]) -> Result<
    Seq<u8>,
    IoFault,
> {
    match contents {
        Err(e) => Err(e),
        Ok(data) => if has_magic(data, magic) {
            Ok(data)
        } else {
            Err(IoFault::InvalidData)
        },
    }
}

/// Contents as a plain value.
pub open spec fn contents_view(contents: Result<Vec<u8>, IoFault>) -> Result<Seq<u8>, IoFault> {
    match contents {
        Ok(data) => Ok(data@),
        Err(e) => Err(e),
    }
}

/// Fails where `data` does not begin with `expected`.
pub fn check_magic(data: &[u8], expected: &[u8; 8]) -> (r: Result<(), IoFault>)
    ensures
        r == if has_magic(data@, *expected) {
            Ok::<(), IoFault>(())
        } else {
            Err(IoFault::InvalidData)
        },
{
    if data.len() < MAGIC_LEN {
        return Err(IoFault::InvalidData);
    }
    let mut i: usize = 0;
    while i < MAGIC_LEN
        invariant
            i <= MAGIC_LEN <= data@.len(),
            forall|j: int| 0 <= j < i ==> data@[j] == #[trigger] expected@[j],
        decreases MAGIC_LEN - i,
    {
        if data[i] != expected[i] {
            assert(data@.take(MAGIC_LEN as int)[i as int] != expected@[i as int]);
            return Err(IoFault::InvalidData);
        }
        i = i + 1;
    }
    assert(data@.take(MAGIC_LEN as int) =~= expected@);
    Ok(())
}

fn open_with_magic(contents: Result<Vec<u8>, IoFault>, magic: &[u8; 8]) -> (r: Result<
    (Vec<u8>, u64),
    IoFault,
>)
    ensures
        match opened(contents_view(contents), *magic) {
            Ok(data) => r matches Ok((d, offset)) && d@ == data && offset == MAGIC_LEN,
            Err(e) => r == Err::<(Vec<u8>, u64), IoFault>(e),
        },
{
    match contents {
        Err(e) => Err(e),
        Ok(data) => match check_magic(data.as_slice(), magic) {
            Err(e) => Err(e),
            Ok(()) => Ok((data, MAGIC_LEN as u64)),
        },
    }
}

/// The contents of a manifest, and the offset of its first frame.
pub fn open_manifest(contents: Result<Vec<u8>, IoFault>) -> (r: Result<(Vec<u8>, u64), IoFault>)
    ensures
        match opened(contents_view(contents), MANIFEST_MAGIC) {
            Ok(data) => r matches Ok((d, offset)) && d@ == data && offset == MAGIC_LEN,
            Err(e) => r == Err::<(Vec<u8>, u64), IoFault>(e),
        },
{
    open_with_magic(contents, &MANIFEST_MAGIC)
}

/// The contents of a segment, and the offset of its first frame.
pub fn open_segment(contents: Result<Vec<u8>, IoFault>) -> (r: Result<(Vec<u8>, u64), IoFault>)
    ensures
        match opened(contents_view(contents), SEGMENT_MAGIC) {
            Ok(data) => r matches Ok((d, offset)) && d@ == data && offset == MAGIC_LEN,
            Err(e) => r == Err::<(Vec<u8>, u64), IoFault>(e),
        },
{
    open_with_magic(contents, &SEGMENT_MAGIC)
}

/// What a removal comes to: a file that is not there is as good as deleted.
pub fn delete_segment(removed: Result<(), IoFault>) -> (r: Result<(), IoFault>)
    ensures
        r == match removed {
            Err(IoFault::NotFound) => Ok::<(), IoFault>(()),
            other => other,
        },
{
    match removed {
        Err(IoFault::NotFound) => Ok(()),
        other => other,
    }
}

// ── Names ─────────────────────────────────────────────────────────────────────

/// The name of a segment's file: eight hexadecimal digits and `.seg`.
pub open spec fn segment_name(id: SegmentId) -> Seq<char> {
    crate::text::hex(id.0 as nat, 8) + ".seg"@
}

/// The value of a hexadecimal digit of either case.
pub open spec fn hex_value(c: char) -> Option<nat> {
    if '0' <= c <= '9' {
        Some((c as nat - 48) as nat)
    } else if 'a' <= c <= 'f' {
        Some((c as nat - 87) as nat)
    } else if 'A' <= c <= 'F' {
        Some((c as nat - 55) as nat)
    } else {
        None
    }
}

/// The number that hexadecimal digits spell.
pub open spec fn hex_number(s: Seq<char>) -> Option<nat>
    decreases s.len(),
{
    if s.len() == 0 {
        Some(0)
    } else {
        match (hex_number(s.drop_last()), hex_value(s.last())) {
            (Some(n), Some(d)) => Some(16 * n + d),
            _ => None,
        }
    }
}

/// The 32-bit number that `s` spells in base 16: a `+` may stand before the
/// digits.
pub open spec fn parse_hex(s: Seq<char>) -> Option<u32> {
    let digits = if s.len() > 0 && s[0] == '+' {
        s.skip(1)
    } else {
        s
    };
    if digits.len() == 0 {
        None
    } else {
        match hex_number(digits) {
            Some(n) if n <= u32::MAX => Some(n as u32),
            _ => None,
        }
    }
}

/// Where the last `.` of `s` stands.
pub open spec fn last_dot(s: Seq<char>) -> Option<int>
    decreases s.len(),
{
    if s.len() == 0 {
        None
    } else if s.last() == '.' {
        Some(s.len() - 1)
    } else {
        last_dot(s.drop_last())
    }
}

/// The segment whose file has this name: the part before the last `.`, which is
/// not the first character, spells the id, and the part after it is `seg`.
pub open spec fn parse_name(name: Seq<char>) -> Option<SegmentId> {
    match last_dot(name) {
        Some(p) if p > 0 && name.skip(p + 1) == "seg"@ => match parse_hex(name.take(p)) {
            Some(n) => Some(SegmentId(n)),
            None => None,
        },
        _ => None,
    }
}

/// The name of a segment's file.
pub fn segment_file_name(id: SegmentId) -> (name: String)
    ensures
        name@ == segment_name(id),
{
    let mut name = String::new();
    push_hex(&mut name, id.0, 8);
    name.append(".seg");
    assert(name@ =~= segment_name(id));
    name
}

fn chars_of(s: &str) -> (r: Vec<char>)
    ensures
        r@ == s@,
{
    let n: usize = s.unicode_len();
    let mut r: Vec<char> = Vec::new();
    let mut i: usize = 0;
    while i < n
        invariant
            i <= n == s@.len(),
            r@ == s@.take(i as int),
        decreases n - i,
    {
        r.push(s.get_char(i));
        i = i + 1;
        assert(r@ =~= s@.take(i as int));
    }
    assert(s@.take(n as int) =~= s@);
    r
}

fn hex_digit(c: char) -> (r: Option<u32>)
    ensures
        match hex_value(c) {
            Some(d) => r matches Some(x) && x == d && d < 16,
            None => r is None,
        },
{
    if '0' <= c && c <= '9' {
        Some(c as u32 - 48)
    } else if 'a' <= c && c <= 'f' {
        Some(c as u32 - 87)
    } else if 'A' <= c && c <= 'F' {
        Some(c as u32 - 55)
    } else {
        None
    }
}

/// A number does not shrink when digits are added.
proof fn lemma_hex_number_grows(s: Seq<char>, n: int)
    requires
        0 <= n <= s.len(),
    ensures
        hex_number(s.take(n)) is None ==> hex_number(s) is None,
        hex_number(s) is Some ==> hex_number(s.take(n)) is Some && hex_number(s)->Some_0
            >= hex_number(s.take(n))->Some_0,
    decreases s.len() - n,
{
    if n < s.len() {
        assert(s.take(n + 1).drop_last() =~= s.take(n));
        lemma_hex_number_grows(s, n + 1);
    } else {
        assert(s.take(n) =~= s);
    }
}

/// Read the digits `s[from..to]`.
fn parse_digits(s: &Vec<char>, from: usize, to: usize) -> (r: Option<u32>)
    requires
        from <= to <= s@.len(),
    ensures
        r == match hex_number(s@.subrange(from as int, to as int)) {
            Some(n) if n <= u32::MAX => Some(n as u32),
            _ => None,
        },
{
    let ghost digits = s@.subrange(from as int, to as int);
    let mut n: u32 = 0;
    let mut i: usize = from;
    assert(digits.take(0) =~= Seq::<char>::empty());
    while i < to
        invariant
            from <= i <= to <= s@.len(),
            digits == s@.subrange(from as int, to as int),
            hex_number(digits.take(i - from)) == Some(n as nat),
        decreases to - i,
    {
        proof {
            lemma_hex_number_grows(digits, i - from + 1);
            assert(digits.take(i - from + 1).drop_last() =~= digits.take(i - from));
            assert(digits.take(i - from + 1).last() == s@[i as int]);
        }
        match hex_digit(s[i]) {
            None => return None,
            Some(d) => {
                if n > 0x0fff_ffff {
                    return None;
                }
                n = n * 16 + d;
            },
        }
        i = i + 1;
    }
    assert(digits.take(to - from) =~= digits);
    Some(n)
}

/// The segment whose file has this name, or `None` for any other file.
pub fn parse_segment_name(name: &str) -> (r: Option<SegmentId>)
    ensures
        r == parse_name(name@),
{
    let s = chars_of(name);
    let mut n: usize = s.len();
    assert(s@.take(n as int) =~= s@);
    while n > 0 && s[n - 1] != '.'
        invariant
            n <= s@.len(),
            s@ == name@,
            last_dot(s@) == last_dot(s@.take(n as int)),
        decreases n,
    {
        assert(s@.take(n as int).drop_last() =~= s@.take(n - 1));
        n = n - 1;
    }
    if n == 0 {
        return None;
    }
    let p: usize = n - 1;
    assert(last_dot(s@) == Some(p as int));
    if p == 0 {
        return None;
    }
    proof {
        reveal_strlit("seg");
        let ext = s@.skip(p + 1);
        assert(
            ext.len() == 3
            && ext[0] == 's'
            && ext[1] == 'e'
            && ext[2] == 'g' ==> ext =~= "seg"@
        );
    }
    if s.len() - n != 3 || s[n] != 's' || s[n + 1] != 'e' || s[n + 2] != 'g' {
        assert(s@.skip(p + 1) != "seg"@) by {
            if s@.skip(p + 1) == "seg"@ {
                assert(s@.skip(p + 1)[0] == 's');
                assert(s@.skip(p + 1)[1] == 'e');
                assert(s@.skip(p + 1)[2] == 'g');
            }
        }
        return None;
    }
    let ghost stem = s@.take(p as int);
    let from: usize = if s[0] == '+' {
        1
    } else {
        0
    };
    proof {
        assert(stem[0] == s@[0]);
        assert(s@.subrange(from as int, p as int) =~= stem.skip(from as int));
        assert(stem.skip(0) =~= stem);
    }
    if from == p {
        return None;
    }
    match parse_digits(&s, from, p) {
        Some(id) => Some(SegmentId(id)),
        None => None,
    }
}

// ── Listing ───────────────────────────────────────────────────────────────────

/// `ids`, which are in order, with `id` put after those that are not above it.
pub open spec fn insert_sorted(ids: Seq<SegmentId>, id: SegmentId) -> Seq<SegmentId>
    decreases ids.len(),
{
    if ids.len() == 0 || ids.last().0 <= id.0 {
        ids.push(id)
    } else {
        insert_sorted(ids.drop_last(), id).push(ids.last())
    }
}

/// The ids of the segment files among `names`, in order.
pub open spec fn listed_ids(names: Seq<String>) -> Seq<SegmentId>
    decreases names.len(),
{
    if names.len() == 0 {
        Seq::empty()
    } else {
        let before = listed_ids(names.drop_last());
        match parse_name(names.last()@) {
            Some(id) => insert_sorted(before, id),
            None => before,
        }
    }
}

fn insert_id(ids: &mut Vec<SegmentId>, id: SegmentId)
    ensures
        final(ids)@ == insert_sorted(old(ids)@, id),
{
    let ghost all = ids@;
    let mut n: usize = ids.len();
    assert(all.take(n as int) =~= all);
    assert(insert_sorted(all.take(n as int), id) + all.skip(n as int) =~= insert_sorted(all, id));
    while n > 0 && ids[n - 1].0 > id.0
        invariant
            n <= ids@.len(),
            all == ids@,
            insert_sorted(all.take(n as int), id) + all.skip(n as int) == insert_sorted(all, id),
        decreases n,
    {
        proof {
            let upper = all.take(n as int);
            assert(upper.drop_last() =~= all.take(n - 1));
            assert(insert_sorted(all.take(n - 1), id) + all.skip(n - 1) =~= insert_sorted(
                upper,
                id,
            ) + all.skip(n as int));
        }
        n = n - 1;
    }
    ids.insert(n, id);
    proof {
        assert(insert_sorted(all.take(n as int), id) =~= all.take(n as int).push(id));
        assert(ids@ =~= all.take(n as int).push(id) + all.skip(n as int));
    }
}

/// The ids of the segment files among the names in a directory, in order.
pub fn collect_segment_ids(names: &Vec<String>) -> (ids: Vec<SegmentId>)
    ensures
        ids@ == listed_ids(names@),
{
    let mut ids: Vec<SegmentId> = Vec::new();
    let mut i: usize = 0;
    assert(names@.take(0) =~= Seq::<String>::empty());
    while i < names.len()
        invariant
            i <= names@.len(),
            ids@ == listed_ids(names@.take(i as int)),
        decreases names@.len() - i,
    {
        assert(names@.take(i + 1).drop_last() =~= names@.take(i as int));
        match parse_segment_name(names[i].as_str()) {
            Some(id) => insert_id(&mut ids, id),
            None => {},
        }
        i = i + 1;
    }
    assert(names@.take(i as int) =~= names@);
    ids
}

// ── What the names promise ────────────────────────────────────────────────────

proof fn lemma_hex_reads_back(n: nat, width: nat)
    ensures
        hex_number(crate::text::hex(n, width)) is Some,
        forall|i: int|
            0 <= i < width ==> hex_value(#[trigger] crate::text::hex(n, width)[i]) is Some,
        n < pow16(width) ==> hex_number(crate::text::hex(n, width)) == Some(n),
    decreases width,
{
    if width > 0 {
        let s = crate::text::hex(n, width);
        lemma_hex_reads_back(n / 16, (width - 1) as nat);
        assert(s.drop_last() =~= crate::text::hex(n / 16, (width - 1) as nat));
        assert(hex_value(s.last()) == Some(n % 16));
        assert forall|i: int| 0 <= i < width implies hex_value(#[trigger] s[i]) is Some by {
            if i < width - 1 {
                assert(s[i] == s.drop_last()[i]);
            }
        }
    }
}

/// 16 to the power `n`.
pub open spec fn pow16(n: nat) -> nat
    decreases n,
{
    if n == 0 {
        1
    } else {
        16 * pow16((n - 1) as nat)
    }
}

/// Law: the name of a segment's file is read back as the segment.
pub proof fn law_segment_name_parses_back(id: SegmentId)
    ensures
        parse_name(segment_name(id)) == Some(id),
{
    let digits = crate::text::hex(id.0 as nat, 8);
    let name = segment_name(id);
    reveal_strlit(".seg");
    reveal_strlit("seg");
    reveal_with_fuel(pow16, 9);
    lemma_hex_reads_back(id.0 as nat, 8);
    assert(name.last() == 'g');
    assert(name.drop_last().last() == 'e');
    assert(name.drop_last().drop_last().last() == 's');
    assert(name.drop_last().drop_last().drop_last().last() == '.');
    reveal_with_fuel(last_dot, 5);
    assert(last_dot(name) == Some(8int));
    assert(name.skip(9) =~= "seg"@);
    assert(name.take(8) =~= digits);
    assert(hex_value(digits[0]) is Some);
    assert(digits[0] != '+');
}

/// Law: two segments have different names.
pub proof fn law_segment_names_differ(a: SegmentId, b: SegmentId)
    requires
        a != b,
    ensures
        segment_name(a) != segment_name(b),
{
    law_segment_name_parses_back(a);
    law_segment_name_parses_back(b);
}

proof fn lemma_insert_sorted(ids: Seq<SegmentId>, id: SegmentId)
    requires
        ascending(ids),
    ensures
        ascending(insert_sorted(ids, id)),
        insert_sorted(ids, id).to_multiset() == ids.to_multiset().insert(id),
    decreases ids.len(),
{
    broadcast use vstd::seq_lib::group_to_multiset_ensures;

    if ids.len() == 0 || ids.last().0 <= id.0 {
        assert forall|i: int, j: int| 0 <= i <= j < ids.push(id).len() implies (#[trigger] ids.push(
            id,
        )[i]).0 <= (#[trigger] ids.push(id)[j]).0 by {
            if i < ids.len() {
                assert(ids[i].0 <= ids[ids.len() - 1].0);
            }
        }
    } else {
        let front = ids.drop_last();
        lemma_insert_sorted(front, id);
        let mid = insert_sorted(front, id);
        assert(ids =~= front.push(ids.last()));
        assert(ids.to_multiset() =~= front.to_multiset().insert(ids.last()));
        assert(mid.push(ids.last()).to_multiset() =~= ids.to_multiset().insert(id));
        assert forall|i: int| 0 <= i < mid.len() implies (#[trigger] mid[i]).0 <= ids.last().0 by {
            assert(mid.to_multiset().contains(mid[i]));
            if mid[i] != id {
                assert(front.to_multiset().contains(mid[i]));
                assert(front.contains(mid[i]));
                let k = choose|k: int| 0 <= k < front.len() && front[k] == mid[i];
                assert(ids[k].0 <= ids[ids.len() - 1].0);
            }
        }
    }
}

/// Ids do not decrease.
pub open spec fn ascending(ids: Seq<SegmentId>) -> bool {
    forall|i: int, j: int| 0 <= i <= j < ids.len() ==> (
        #[trigger] ids[i]
    ).0 <= (#[trigger] ids[j]).0
}

/// The segments that `names` name, in the order of the names.
pub open spec fn parsed_names(names: Seq<String>) -> Seq<SegmentId>
    decreases names.len(),
{
    if names.len() == 0 {
        Seq::empty()
    } else {
        match parse_name(names.last()@) {
            Some(id) => parsed_names(names.drop_last()).push(id),
            None => parsed_names(names.drop_last()),
        }
    }
}

/// Law: a listing gives every segment file of the directory, nothing else, and
/// in ascending order.
pub proof fn law_listing_is_sorted_and_complete(names: Seq<String>)
    ensures
        ascending(listed_ids(names)),
        listed_ids(names).to_multiset() == parsed_names(names).to_multiset(),
    decreases names.len(),
{
    broadcast use vstd::seq_lib::group_to_multiset_ensures;

    if names.len() > 0 {
        law_listing_is_sorted_and_complete(names.drop_last());
        match parse_name(names.last()@) {
            Some(id) => lemma_insert_sorted(listed_ids(names.drop_last()), id),
            None => {},
        }
    }
}

} // verus!
