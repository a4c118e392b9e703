//! Segment file names.
//!
//! The segment with the id `n` is kept in the file `n.log`, where `n` is
//! written in decimal without leading zeros. Every other name in the
//! directory belongs to something else and is passed over.

use crate::command::string_from_utf8;
use vstd::prelude::*;
use vstd::utf8::*;

verus! {

/// The decimal digits of `n`, as ASCII bytes, without leading zeros.
pub open spec fn decimal(n: nat) -> Seq<u8>
    decreases n,
{
    if n < 10 {
        seq![(0x30 + n) as u8]
    } else {
        decimal(n / 10).push((0x30 + n % 10) as u8)
    }
}

/// `.log`
pub open spec fn log_suffix() -> Seq<u8> {
    seq![0x2eu8, 0x6cu8, 0x6fu8, 0x67u8]
}

/// The bytes of the name of the file that holds the segment `id`.
pub open spec fn name_bytes(id: u64) -> Seq<u8> {
    decimal(id as nat) + log_suffix()
}

/// The text that ASCII bytes spell.
pub open spec fn text_of(bytes: Seq<u8>) -> Seq<char> {
    Seq::new(bytes.len(), |i: int| bytes[i] as char)
}

/// The name of the file that holds the segment `id`.
pub open spec fn segment_name(id: u64) -> Seq<char> {
    text_of(name_bytes(id))
}

/// Whether `b` is a decimal digit.
pub open spec fn is_digit(b: u8) -> bool {
    0x30 <= b <= 0x39
}

/// Whether `d` is a number as it is written in a segment name: one digit
/// or more, and no zero in front of another digit.
pub open spec fn canonical(d: Seq<u8>) -> bool {
    &&& d.len() >= 1
    &&& forall|i: int| 0 <= i < d.len() ==> is_digit(#[trigger] d[i])
    &&& d.len() > 1 ==> d[0] != 0x30
}

/// The number that the digits `d` stand for.
pub open spec fn value_of(d: Seq<u8>) -> nat
    decreases d.len(),
{
    if d.len() == 0 {
        0
    } else {
        (value_of(d.drop_last()) * 10 + (d.last() - 0x30)) as nat
    }
}

/// The digits of a number are canonical and stand for the number.
pub proof fn lemma_decimal_value(n: nat)
    ensures
        canonical(decimal(n)),
        value_of(decimal(n)) == n,
        n >= 1 ==> decimal(n)[0] != 0x30,
    decreases n,
{
    if n < 10 {
        let d = decimal(n);
        assert(d.drop_last() =~= Seq::<u8>::empty());
        assert(value_of(d.drop_last()) == 0);
    } else {
        lemma_decimal_value(n / 10);
        let init = decimal(n / 10);
        let d = decimal(n);
        assert(d.drop_last() =~= init);
        assert(d[0] == init[0]);
        assert forall|i: int| 0 <= i < d.len() implies is_digit(#[trigger] d[i]) by {
            if i < init.len() {
                assert(d[i] == init[i]);
            }
        }
    }
}

/// The digits before a position stand for no more than all the digits.
pub proof fn lemma_value_prefix(d: Seq<u8>, k: int)
    requires
        0 <= k <= d.len(),
        forall|i: int| 0 <= i < d.len() ==> is_digit(#[trigger] d[i]),
    ensures
        value_of(d.take(k)) <= value_of(d),
    decreases d.len() - k,
{
    if k < d.len() {
        let init = d.drop_last();
        if k == d.len() - 1 {
            assert(d.take(k) =~= init);
        } else {
            lemma_value_prefix(init, k);
            assert(init.take(k) =~= d.take(k));
        }
        assert(value_of(d) >= value_of(init)) by {
            assert(is_digit(d[d.len() - 1]));
        }
    } else {
        assert(d.take(k) =~= d);
    }
}

/// Canonical digits are the digits of the number that they stand for.
pub proof fn lemma_canonical_decimal(d: Seq<u8>)
    requires
        canonical(d),
    ensures
        decimal(value_of(d)) == d,
    decreases d.len(),
{
    let init = d.drop_last();
    let x = d.last();
    assert(is_digit(d[d.len() - 1]));
    if d.len() == 1 {
        assert(init =~= Seq::<u8>::empty());
        assert(value_of(init) == 0);
        assert(decimal(value_of(d)) =~= d);
    } else {
        assert(canonical(init)) by {
            assert forall|i: int| 0 <= i < init.len() implies is_digit(#[trigger] init[i]) by {
                assert(init[i] == d[i]);
            }
            assert(init[0] == d[0]);
        }
        lemma_canonical_decimal(init);
        assert(value_of(init) >= 1) by {
            lemma_value_prefix(init, 1);
            let one = init.take(1);
            assert(one.drop_last() =~= Seq::<u8>::empty());
            assert(value_of(one.drop_last()) == 0);
            assert(one.last() == d[0]);
            assert(is_digit(d[0]));
        }
        let n = value_of(d);
        assert(n == value_of(init) * 10 + (x - 0x30));
        assert(n / 10 == value_of(init));
        assert(n % 10 == x - 0x30);
        assert(decimal(n) =~= d);
    }
}

/// ASCII bytes are the UTF-8 encoding of the text that they spell.
pub proof fn lemma_ascii_text(bytes: Seq<u8>)
    requires
        forall|i: int| 0 <= i < bytes.len() ==> (#[trigger] bytes[i]) < 0x80,
    ensures
        encode_utf8(text_of(bytes)) == bytes,
{
    let text = text_of(bytes);
    assert(is_ascii_chars(text)) by {
        assert forall|i: int| 0 <= i < text.len() implies '\0' <= #[trigger] text[i]
            <= '\u{7f}' by {
            assert(bytes[i] < 0x80);
        }
    }
    is_ascii_chars_encode_utf8(text);
    assert forall|i: int| 0 <= i < bytes.len() implies encode_utf8(text)[i] == bytes[i] by {
        assert(text[i] as u8 == encode_utf8(text)[i]);
        assert(bytes[i] < 0x80);
    }
    assert(encode_utf8(text) =~= bytes);
}

/// The bytes of a segment name are ASCII.
pub proof fn lemma_name_ascii(id: u64)
    ensures
        forall|i: int| 0 <= i < name_bytes(id).len() ==> (#[trigger] name_bytes(id)[i]) < 0x80,
        encode_utf8(segment_name(id)) == name_bytes(id),
{
    lemma_decimal_value(id as nat);
    let d = decimal(id as nat);
    let b = name_bytes(id);
    assert forall|i: int| 0 <= i < b.len() implies (#[trigger] b[i]) < 0x80 by {
        if i < d.len() {
            assert(is_digit(d[i]));
        }
    }
    lemma_ascii_text(b);
}

/// Text is the name of a segment exactly when its UTF-8 bytes are the bytes
/// of that name.
pub proof fn lemma_name_by_bytes(text: Seq<char>, id: u64)
    ensures
        text == segment_name(id) <==> encode_utf8(text) == name_bytes(id),
{
    lemma_name_ascii(id);
    if encode_utf8(text) == name_bytes(id) {
        encode_utf8_decode_utf8(text);
        encode_utf8_decode_utf8(segment_name(id));
    }
}

/// Two segments with the same file name are the same segment.
pub proof fn lemma_name_unique(a: u64, b: u64)
    requires
        segment_name(a) == segment_name(b),
    ensures
        a == b,
{
    lemma_name_ascii(a);
    lemma_name_ascii(b);
    lemma_decimal_value(a as nat);
    lemma_decimal_value(b as nat);
    let da = decimal(a as nat);
    let db = decimal(b as nat);
    assert(name_bytes(a).len() == name_bytes(b).len());
    assert(da =~= name_bytes(a).subrange(0, da.len() as int));
    assert(db =~= name_bytes(b).subrange(0, db.len() as int));
}

/// Appends the decimal digits of `n` to `out`.
fn push_decimal(out: &mut Vec<u8>, n: u64)
    ensures
        final(out)@ == old(out)@ + decimal(n as nat),
    decreases n,
{
    let ghost before = out@;
    if n >= 10 {
        push_decimal(out, n / 10);
    }
    out.push(0x30 + (n % 10) as u8);
    proof {
        assert(out@ =~= before + decimal(n as nat));
    }
}

/// The name of the file that holds the segment `id`.
pub fn segment_file_name(id: u64) -> (name: String)
    ensures
        name@ == segment_name(id),
{
    let mut bytes: Vec<u8> = Vec::new();
    push_decimal(&mut bytes, id);
    bytes.push(0x2e);
    bytes.push(0x6c);
    bytes.push(0x6f);
    bytes.push(0x67);
    proof {
        assert(bytes@ =~= name_bytes(id));
        lemma_name_ascii(id);
        encode_utf8_valid_utf8(segment_name(id));
        encode_utf8_decode_utf8(segment_name(id));
    }
    match string_from_utf8(bytes) {
        Some(name) => name,
        None => {
            assert(false);
            String::new()
        },
    }
}

/// The id of the segment that a file of this name holds, or `None` where
/// the name is not that of a segment file.
pub fn parse_segment_name(name: &str) -> (r: Option<u64>)
    ensures
        match r {
            Some(id) => name@ == segment_name(id),
            None => forall|id: u64| name@ != segment_name(id),
        },
{
    let b = name.as_bytes();
    let r = parse_name_bytes(b);
    proof {
        match r {
            Some(id) => {
                lemma_name_by_bytes(name@, id);
            },
            None => {
                assert forall|id: u64| name@ != segment_name(id) by {
                    lemma_name_by_bytes(name@, id);
                }
            },
        }
    }
    r
}

/// The id whose name these bytes are.
fn parse_name_bytes(b: &[u8]) -> (r: Option<u64>)
    ensures
        match r {
            Some(id) => b@ == name_bytes(id),
            None => forall|id: u64| b@ != name_bytes(id),
        },
{
    let len = b.len();
    proof {
        assert forall|id: u64| name_bytes(id).len() >= 5 by {
            lemma_decimal_value(id as nat);
        }
    }
    if len < 5 {
        return None;
    }
    let n = len - 4;
    let ghost d = b@.subrange(0, n as int);
    proof {
        assert forall|id: u64| b@ == name_bytes(id) implies d == decimal(id as nat) && b@[n as int]
            == 0x2e && b@[n + 1] == 0x6c && b@[n + 2] == 0x6f && b@[n + 3] == 0x67 by {
            let dd = decimal(id as nat);
            assert(dd.len() == n);
            assert(dd =~= name_bytes(id).subrange(0, n as int));
            assert(name_bytes(id)[n as int] == log_suffix()[0]);
            assert(name_bytes(id)[n + 1] == log_suffix()[1]);
            assert(name_bytes(id)[n + 2] == log_suffix()[2]);
            assert(name_bytes(id)[n + 3] == log_suffix()[3]);
        }
    }
    if b[n] != 0x2e || b[n + 1] != 0x6c || b[n + 2] != 0x6f || b[n + 3] != 0x67 {
        return None;
    }
    proof {
        assert forall|id: u64| b@ == name_bytes(id) implies canonical(d) && value_of(d) == id by {
            lemma_decimal_value(id as nat);
        }
    }
    if n > 1 && b[0] == 0x30 {
        proof {
            assert(d[0] == b@[0]);
        }
        return None;
    }
    let mut value: u64 = 0;
    let mut i: usize = 0;
    proof {
        assert(d.take(0) =~= Seq::<u8>::empty());
    }
    while i < n
        invariant
            i <= n,
            n + 4 == b.len(),
            d == b@.subrange(0, n as int),
            value == value_of(d.take(i as int)),
            forall|k: int| 0 <= k < i ==> is_digit(#[trigger] d[k]),
            forall|id: u64| b@ == name_bytes(id) ==> canonical(d) && value_of(d) == id,
        decreases n - i,
    {
        let c = b[i];
        proof {
            assert(d[i as int] == c);
        }
        if c < 0x30 || c > 0x39 {
            return None;
        }
        let digit = (c - 0x30) as u64;
        proof {
            assert(d.take(i as int + 1).drop_last() =~= d.take(i as int));
            assert(d.take(i as int + 1).last() == c);
            assert(value_of(d.take(i as int + 1)) == value * 10 + digit);
        }
        if value > (u64::MAX - digit) / 10 {
            proof {
                assert(value * 10 + digit > u64::MAX);
                assert forall|id: u64| b@ != name_bytes(id) by {
                    if b@ == name_bytes(id) {
                        lemma_value_prefix(d, i as int + 1);
                    }
                }
            }
            return None;
        }
        value = value * 10 + digit;
        i += 1;
    }
    proof {
        assert(d.take(n as int) =~= d);
        assert(canonical(d)) by {
            assert(d[0] == b@[0]);
        }
        lemma_canonical_decimal(d);
        assert(b@ =~= name_bytes(value)) by {
            assert(b@.subrange(n as int, n + 4) =~= log_suffix());
            assert(b@ =~= b@.subrange(0, n as int) + b@.subrange(n as int, n + 4));
        }
    }
    Some(value)
}

/// Whether the ids rise strictly.
pub open spec fn rising(ids: Seq<u64>) -> bool {
    forall|i: int, j: int| 0 <= i < j < ids.len() ==> ids[i] < ids[j]
}

/// Whether one of `names` is the name of the segment `id`.
pub open spec fn names_segment(names: Seq<String>, id: u64) -> bool {
    exists|i: int| 0 <= i < names.len() && (#[trigger] names[i])@ == segment_name(id)
}

/// Puts `id` into the rising list `ids`, unless it is there already.
fn insert_rising(ids: &mut Vec<u64>, id: u64)
    requires
        rising(old(ids)@),
    ensures
        rising(final(ids)@),
        forall|x: u64| final(ids)@.contains(x) <==> (x == id || old(ids)@.contains(x)),
{
    let ghost before = ids@;
    let mut i: usize = 0;
    while i < ids.len() && ids[i] < id
        invariant
            i <= ids.len(),
            ids@ == before,
            rising(before),
            forall|k: int| 0 <= k < i ==> before[k] < id,
        decreases ids.len() - i,
    {
        i += 1;
    }
    if i < ids.len() && ids[i] == id {
        proof {
            assert(before.contains(id)) by {
                assert(before[i as int] == id);
            }
        }
        return ;
    }
    ids.insert(i, id);
    proof {
        let after = ids@;
        assert(after == before.insert(i as int, id));
        assert forall|a: int, c: int| 0 <= a < c < after.len() implies after[a] < after[c] by {
            let pa = if a < i { a } else { a - 1 };
            let pc = if c < i { c } else { c - 1 };
            if a != i && c != i {
                assert(after[a] == before[pa]);
                assert(after[c] == before[pc]);
            } else if a == i {
                assert(after[c] == before[pc]);
                if pc > i {
                    assert(before[i as int] < before[pc]);
                }
            } else {
                assert(after[a] == before[pa]);
            }
        }
        assert forall|x: u64| after.contains(x) <==> (x == id || before.contains(x)) by {
            if after.contains(x) {
                let k = choose|k: int| 0 <= k < after.len() && after[k] == x;
                if k < i {
                    assert(before[k] == x);
                } else if k > i {
                    assert(before[k - 1] == x);
                }
            }
            if x == id {
                assert(after[i as int] == x);
            }
            if before.contains(x) {
                let k = choose|k: int| 0 <= k < before.len() && before[k] == x;
                if k < i {
                    assert(after[k] == x);
                } else {
                    assert(after[k + 1] == x);
                }
            }
        }
    }
}

/// The ids of the segments among the files of a directory, in ascending
/// order.
///
/// `names` are the names of the files. Those that are not names of segment
/// files are passed over; each segment is listed once.
pub fn fetch_file_indexes(names: &Vec<String>) -> (ids: Vec<u64>)
    ensures
        rising(ids@),
        forall|id: u64| ids@.contains(id) <==> names_segment(names@, id),
{
    let mut ids: Vec<u64> = Vec::new();
    let mut i: usize = 0;
    while i < names.len()
        invariant
            i <= names.len(),
            rising(ids@),
            forall|id: u64| ids@.contains(id) <==> names_segment(names@.take(i as int), id),
        decreases names.len() - i,
    {
        let ghost before = ids@;
        let ghost seen = names@.take(i as int);
        let ghost upto = names@.take(i as int + 1);
        let parsed = parse_segment_name(names[i].as_str());
        match parsed {
            Some(id) => {
                insert_rising(&mut ids, id);
            },
            None => {},
        }
        proof {
            assert forall|id: u64| ids@.contains(id) <==> names_segment(upto, id) by {
                if names_segment(upto, id) {
                    let k = choose|k: int|
                        0 <= k < upto.len() && (#[trigger] upto[k])@ == segment_name(id);
                    if k < i {
                        assert(seen[k]@ == segment_name(id));
                        assert(names_segment(seen, id));
                    } else {
                        assert(upto[k] == names@[i as int]);
                        if let Some(found) = parsed {
                            lemma_name_unique(found, id);
                        }
                    }
                }
                if ids@.contains(id) {
                    if before.contains(id) {
                        let k = choose|k: int|
                            0 <= k < seen.len() && (#[trigger] seen[k])@ == segment_name(id);
                        assert(upto[k]@ == segment_name(id));
                    } else {
                        assert(upto[i as int]@ == segment_name(id));
                    }
                }
            }
        }
        i += 1;
    }
    proof {
        assert(names@.take(names.len() as int) =~= names@);
    }
    ids
}

} // verus!
