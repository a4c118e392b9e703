//! Quoted byte strings: the textual form in which keys and values are
//! written to the log.
//!
//! A string is written between two double quotes. Inside, a double quote and
//! a backslash are preceded by a backslash, the control bytes below `0x20`
//! are written as `\b`, `\t`, `\n`, `\f`, `\r` or as `\u00` and two lower-case
//! hexadecimal digits, and every other byte stands for itself. Reading
//! accepts exactly what writing produces, so a quoted string has one reading
//! and a string has one quoted form.

use vstd::prelude::*;

verus! {

/// The double quote that opens and closes a quoted string.
pub const QUOTE: u8 = 0x22;

/// The backslash that introduces an escape sequence.
pub const BACKSLASH: u8 = 0x5c;

/// Whether `pat` stands in `b` at position `pos`.
pub open spec fn occurs_at(b: Seq<u8>, pos: int, pat: Seq<u8>) -> bool {
    &&& 0 <= pos
    &&& pos + pat.len() <= b.len()
    &&& b.subrange(pos, pos + pat.len()) == pat
}

/// The lower-case hexadecimal digit for a value below 16.
pub open spec fn hex_digit(n: u8) -> u8 {
    if n < 10 {
        (0x30 + n) as u8
    } else {
        (0x57 + n) as u8
    }
}

/// The bytes written for one byte of a string.
pub open spec fn escape_byte(c: u8) -> Seq<u8> {
    if c == QUOTE || c == BACKSLASH {
        seq![BACKSLASH, c]
    } else if c == 0x08 {
        seq![BACKSLASH, 0x62u8]
    } else if c == 0x09 {
        seq![BACKSLASH, 0x74u8]
    } else if c == 0x0a {
        seq![BACKSLASH, 0x6eu8]
    } else if c == 0x0c {
        seq![BACKSLASH, 0x66u8]
    } else if c == 0x0d {
        seq![BACKSLASH, 0x72u8]
    } else if c < 0x20 {
        seq![BACKSLASH, 0x75u8, 0x30u8, 0x30u8, hex_digit(c / 16), hex_digit(c % 16)]
    } else {
        seq![c]
    }
}

/// The bytes written for a string, without the surrounding quotes.
pub open spec fn escape(s: Seq<u8>) -> Seq<u8>
    decreases s.len(),
{
    if s.len() == 0 {
        Seq::empty()
    } else {
        escape(s.drop_last()) + escape_byte(s.last())
    }
}

/// The quoted form of a string.
pub open spec fn quote(s: Seq<u8>) -> Seq<u8> {
    seq![QUOTE] + escape(s) + seq![QUOTE]
}

/// Whether the quoted form of `s` stands in `b` at position `pos`.
pub open spec fn quoted_at(b: Seq<u8>, pos: int, s: Seq<u8>) -> bool {
    occurs_at(b, pos, quote(s))
}

/// A pattern that is the concatenation of two stands at a position exactly
/// when the first stands there and the second right behind it.
pub proof fn lemma_occurs_at_concat(b: Seq<u8>, pos: int, x: Seq<u8>, y: Seq<u8>)
    ensures
        occurs_at(b, pos, x + y) <==> occurs_at(b, pos, x) && occurs_at(b, pos + x.len(), y),
{
    if occurs_at(b, pos, x + y) {
        assert(b.subrange(pos, pos + x.len()) =~= (x + y).subrange(0, x.len() as int));
        assert((x + y).subrange(0, x.len() as int) =~= x);
        assert(b.subrange(pos + x.len(), pos + x.len() + y.len()) =~= (x + y).subrange(
            x.len() as int,
            (x + y).len() as int,
        ));
        assert((x + y).subrange(x.len() as int, (x + y).len() as int) =~= y);
    }
    if occurs_at(b, pos, x) && occurs_at(b, pos + x.len(), y) {
        assert(b.subrange(pos, pos + (x + y).len()) =~= b.subrange(pos, pos + x.len())
            + b.subrange(pos + x.len(), pos + x.len() + y.len()));
    }
}

/// A pattern of one byte stands where that byte is.
pub proof fn lemma_occurs_at_byte(b: Seq<u8>, pos: int, c: u8)
    ensures
        occurs_at(b, pos, seq![c]) <==> 0 <= pos < b.len() && b[pos] == c,
{
    if occurs_at(b, pos, seq![c]) {
        assert(b.subrange(pos, pos + 1)[0] == c);
    }
    if 0 <= pos < b.len() && b[pos] == c {
        assert(b.subrange(pos, pos + 1) =~= seq![c]);
    }
}

/// What stands in a buffer stands at the same place in any buffer that
/// extends it.
pub proof fn lemma_occurs_at_extend(b: Seq<u8>, tail: Seq<u8>, pos: int, pat: Seq<u8>)
    requires
        occurs_at(b, pos, pat),
    ensures
        occurs_at(b + tail, pos, pat),
{
    assert((b + tail).subrange(pos, pos + pat.len()) =~= b.subrange(pos, pos + pat.len()));
}

/// The escaped form of a string begins with the escaped form of its first
/// byte.
pub proof fn lemma_escape_head(s: Seq<u8>)
    requires
        s.len() > 0,
    ensures
        escape(s) == escape_byte(s[0]) + escape(s.skip(1)),
    decreases s.len(),
{
    if s.len() == 1 {
        assert(s.drop_last() =~= Seq::<u8>::empty());
        assert(s.skip(1) =~= Seq::<u8>::empty());
        assert(escape(s.drop_last()) =~= Seq::<u8>::empty());
        assert(escape(s) =~= escape_byte(s[0]) + escape(s.skip(1)));
    } else {
        lemma_escape_head(s.drop_last());
        assert(s.drop_last().skip(1) =~= s.skip(1).drop_last());
        assert(s.drop_last()[0] == s[0]);
        assert(s.skip(1).last() == s.last());
        assert(escape(s) =~= escape_byte(s[0]) + escape(s.skip(1)));
    }
}

/// Escaping distributes over appending one byte.
pub proof fn lemma_escape_push(s: Seq<u8>, c: u8)
    ensures
        escape(s.push(c)) == escape(s) + escape_byte(c),
{
    assert(s.push(c).drop_last() =~= s);
}

spec fn is_hex_digit(x: u8) -> bool {
    (0x30 <= x <= 0x39) || (0x61 <= x <= 0x66)
}

spec fn hex_value(x: u8) -> int {
    if x <= 0x39 {
        x - 0x30
    } else {
        x - 0x57
    }
}

spec fn has_short_escape(c: u8) -> bool {
    c == 0x08 || c == 0x09 || c == 0x0a || c == 0x0c || c == 0x0d
}

/// The byte that the text at `pos` stands for inside a quoted string, with
/// the number of bytes of text read; `None` where no escaped byte stands.
spec fn unescape_at(b: Seq<u8>, pos: int) -> Option<(u8, int)> {
    if pos < 0 || pos >= b.len() {
        None
    } else if b[pos] == BACKSLASH {
        if pos + 1 >= b.len() {
            None
        } else {
            let d = b[pos + 1];
            if d == QUOTE || d == BACKSLASH {
                Some((d, 2))
            } else if d == 0x62 {
                Some((0x08u8, 2))
            } else if d == 0x74 {
                Some((0x09u8, 2))
            } else if d == 0x6e {
                Some((0x0au8, 2))
            } else if d == 0x66 {
                Some((0x0cu8, 2))
            } else if d == 0x72 {
                Some((0x0du8, 2))
            } else if d == 0x75 && pos + 5 < b.len() && b[pos + 2] == 0x30 && b[pos + 3] == 0x30
                && (b[pos + 4] == 0x30 || b[pos + 4] == 0x31) && is_hex_digit(b[pos + 5]) {
                let v = ((b[pos + 4] - 0x30) * 16 + hex_value(b[pos + 5])) as u8;
                if has_short_escape(v) {
                    None
                } else {
                    Some((v, 6))
                }
            } else {
                None
            }
        }
    } else if b[pos] < 0x20 || b[pos] == QUOTE {
        None
    } else {
        Some((b[pos], 1))
    }
}

/// Reading the escaped form of a byte gives that byte back.
proof fn lemma_unescape_escaped(b: Seq<u8>, pos: int, c: u8)
    requires
        occurs_at(b, pos, escape_byte(c)),
    ensures
        unescape_at(b, pos) == Some((c, escape_byte(c).len() as int)),
{
    let e = escape_byte(c);
    assert forall|i: int| 0 <= i < e.len() implies b[pos + i] == #[trigger] e[i] by {
        assert(b.subrange(pos, pos + e.len())[i] == b[pos + i]);
    }
    assert(e[0] == b[pos]);
    if e.len() >= 2 {
        assert(e[1] == b[pos + 1]);
    }
    if c < 0x20 && !has_short_escape(c) {
        assert(e.len() == 6);
        assert(e[2] == b[pos + 2]);
        assert(e[3] == b[pos + 3]);
        assert(e[4] == b[pos + 4]);
        assert(e[5] == b[pos + 5]);
        assert(c / 16 == 0 || c / 16 == 1);
        assert(c % 16 < 16);
        assert(c == (c / 16) * 16 + c % 16);
    }
}

/// What reads as a byte is the escaped form of that byte.
proof fn lemma_unescape_sound(b: Seq<u8>, pos: int)
    requires
        unescape_at(b, pos) is Some,
    ensures
        ({
            let (c, k) = unescape_at(b, pos)->0;
            &&& k == escape_byte(c).len()
            &&& k >= 1
            &&& occurs_at(b, pos, escape_byte(c))
        }),
{
    let (c, k) = unescape_at(b, pos)->0;
    let e = escape_byte(c);
    if k == 6 {
        let hi = b[pos + 4];
        let lo = b[pos + 5];
        assert(c == (hi - 0x30) * 16 + hex_value(lo));
        assert(c / 16 == hi - 0x30);
        assert(c % 16 == hex_value(lo));
        assert(hex_digit(c / 16) == hi);
        assert(hex_digit(c % 16) == lo);
    }
    assert(b.subrange(pos, pos + k) =~= e);
}

/// Puts a prefix before the string of a reading.
spec fn prepend(prefix: Seq<u8>, reading: Option<(Seq<u8>, int)>) -> Option<(Seq<u8>, int)> {
    match reading {
        None => None,
        Some((rest, end)) => Some((prefix + rest, end)),
    }
}

/// The string whose escaped form starts at `pos` and runs up to the next
/// closing quote, with the position behind that quote.
spec fn scan(b: Seq<u8>, pos: int) -> Option<(Seq<u8>, int)>
    decreases b.len() - pos,
{
    if pos < 0 || pos >= b.len() {
        None
    } else if b[pos] == QUOTE {
        Some((Seq::empty(), pos + 1))
    } else {
        match unescape_at(b, pos) {
            None => None,
            Some((c, k)) => if k >= 1 {
                prepend(seq![c], scan(b, pos + k))
            } else {
                None
            },
        }
    }
}

/// Scanning an escaped string that is closed by a quote gives the string.
proof fn lemma_scan_escaped(b: Seq<u8>, pos: int, s: Seq<u8>)
    requires
        occurs_at(b, pos, escape(s) + seq![QUOTE]),
    ensures
        scan(b, pos) == Some((s, pos + escape(s).len() + 1)),
    decreases s.len(),
{
    lemma_occurs_at_concat(b, pos, escape(s), seq![QUOTE]);
    if s.len() == 0 {
        lemma_occurs_at_byte(b, pos, QUOTE);
        assert(s =~= Seq::<u8>::empty());
    } else {
        let head = escape_byte(s[0]);
        let tail = s.skip(1);
        lemma_escape_head(s);
        lemma_occurs_at_concat(b, pos, head, escape(tail));
        lemma_unescape_escaped(b, pos, s[0]);
        lemma_occurs_at_byte(b, pos + escape(s).len(), QUOTE);
        lemma_occurs_at_concat(b, pos + head.len(), escape(tail), seq![QUOTE]);
        lemma_scan_escaped(b, pos + head.len(), tail);
        assert(seq![s[0]] + tail =~= s);
    }
}

/// What a scan reads is the escaped form of its result, closed by a quote.
proof fn lemma_scan_sound(b: Seq<u8>, pos: int)
    requires
        scan(b, pos) is Some,
    ensures
        ({
            let (s, end) = scan(b, pos)->0;
            &&& end == pos + escape(s).len() + 1
            &&& occurs_at(b, pos, escape(s) + seq![QUOTE])
        }),
    decreases b.len() - pos,
{
    let (s, end) = scan(b, pos)->0;
    if b[pos] == QUOTE {
        assert(escape(s) =~= Seq::<u8>::empty());
        lemma_occurs_at_byte(b, pos, QUOTE);
        assert(escape(s) + seq![QUOTE] =~= seq![QUOTE]);
    } else {
        let (c, k) = unescape_at(b, pos)->0;
        lemma_unescape_sound(b, pos);
        lemma_scan_sound(b, pos + k);
        let (rest, _) = scan(b, pos + k)->0;
        assert(s == seq![c] + rest);
        lemma_escape_head(s);
        assert(s.skip(1) =~= rest);
        lemma_occurs_at_concat(b, pos, escape_byte(c), escape(rest) + seq![QUOTE]);
        assert(escape_byte(c) + (escape(rest) + seq![QUOTE]) =~= escape(s) + seq![QUOTE]);
    }
}

/// The string whose quoted form starts at `pos`, with the position behind it.
spec fn unquote_at(b: Seq<u8>, pos: int) -> Option<(Seq<u8>, int)> {
    if 0 <= pos < b.len() && b[pos] == QUOTE {
        scan(b, pos + 1)
    } else {
        None
    }
}

/// A quoted string that stands at a position is read back from there, and
/// nothing else is.
pub proof fn lemma_quoted_at_unique(b: Seq<u8>, pos: int, s: Seq<u8>, t: Seq<u8>)
    requires
        quoted_at(b, pos, s),
        quoted_at(b, pos, t),
    ensures
        s == t,
{
    lemma_unquote_quoted(b, pos, s);
    lemma_unquote_quoted(b, pos, t);
}

proof fn lemma_unquote_quoted(b: Seq<u8>, pos: int, s: Seq<u8>)
    requires
        quoted_at(b, pos, s),
    ensures
        unquote_at(b, pos) == Some((s, pos + quote(s).len())),
{
    assert(quote(s) =~= seq![QUOTE] + (escape(s) + seq![QUOTE]));
    lemma_occurs_at_concat(b, pos, seq![QUOTE], escape(s) + seq![QUOTE]);
    lemma_occurs_at_byte(b, pos, QUOTE);
    lemma_scan_escaped(b, pos + 1, s);
}

proof fn lemma_unquote_sound(b: Seq<u8>, pos: int)
    requires
        unquote_at(b, pos) is Some,
    ensures
        ({
            let (s, end) = unquote_at(b, pos)->0;
            &&& end == pos + quote(s).len()
            &&& quoted_at(b, pos, s)
        }),
{
    let (s, end) = unquote_at(b, pos)->0;
    lemma_scan_sound(b, pos + 1);
    assert(quote(s) =~= seq![QUOTE] + (escape(s) + seq![QUOTE]));
    lemma_occurs_at_concat(b, pos, seq![QUOTE], escape(s) + seq![QUOTE]);
    lemma_occurs_at_byte(b, pos, QUOTE);
}

/// Appends the escaped form of one byte to `out`.
fn push_escaped_byte(out: &mut Vec<u8>, c: u8)
    ensures
        final(out)@ == old(out)@ + escape_byte(c),
{
    let ghost before = out@;
    if c == QUOTE || c == BACKSLASH {
        out.push(BACKSLASH);
        out.push(c);
    } else if c == 0x08 {
        out.push(BACKSLASH);
        out.push(0x62);
    } else if c == 0x09 {
        out.push(BACKSLASH);
        out.push(0x74);
    } else if c == 0x0a {
        out.push(BACKSLASH);
        out.push(0x6e);
    } else if c == 0x0c {
        out.push(BACKSLASH);
        out.push(0x66);
    } else if c == 0x0d {
        out.push(BACKSLASH);
        out.push(0x72);
    } else if c < 0x20 {
        out.push(BACKSLASH);
        out.push(0x75);
        out.push(0x30);
        out.push(0x30);
        out.push(hex_digit_of(c / 16));
        out.push(hex_digit_of(c % 16));
    } else {
        out.push(c);
    }
    assert(out@ =~= before + escape_byte(c));
}

fn hex_digit_of(n: u8) -> (d: u8)
    requires
        n < 16,
    ensures
        d == hex_digit(n),
{
    if n < 10 {
        0x30 + n
    } else {
        0x57 + n
    }
}

/// Appends the quoted form of `s` to `out`.
pub fn push_quoted(out: &mut Vec<u8>, s: &[u8])
    ensures
        final(out)@ == old(out)@ + quote(s@),
{
    let ghost before = out@;
    out.push(QUOTE);
    let mut i: usize = 0;
    while i < s.len()
        invariant
            i <= s.len(),
            out@ == before + seq![QUOTE] + escape(s@.take(i as int)),
        decreases s.len() - i,
    {
        let ghost so_far = out@;
        push_escaped_byte(out, s[i]);
        proof {
            lemma_escape_push(s@.take(i as int), s@[i as int]);
            assert(s@.take(i as int).push(s@[i as int]) =~= s@.take(i as int + 1));
            assert(out@ =~= before + seq![QUOTE] + escape(s@.take(i as int + 1)));
        }
        i += 1;
    }
    out.push(QUOTE);
    proof {
        assert(s@.take(s.len() as int) =~= s@);
        assert(out@ =~= before + quote(s@));
    }
}

/// Reads the byte that the text at `pos` stands for inside a quoted string.
fn read_escaped(b: &[u8], pos: usize) -> (r: Option<(u8, usize)>)
    requires
        pos < b.len(),
    ensures
        match r {
            Some((c, k)) => unescape_at(b@, pos as int) == Some((c, k as int)),
            None => unescape_at(b@, pos as int) is None,
        },
{
    let c = b[pos];
    if c == BACKSLASH {
        if b.len() - pos < 2 {
            return None;
        }
        let d = b[pos + 1];
        if d == QUOTE || d == BACKSLASH {
            Some((d, 2))
        } else if d == 0x62 {
            Some((0x08, 2))
        } else if d == 0x74 {
            Some((0x09, 2))
        } else if d == 0x6e {
            Some((0x0a, 2))
        } else if d == 0x66 {
            Some((0x0c, 2))
        } else if d == 0x72 {
            Some((0x0d, 2))
        } else if d == 0x75 {
            if b.len() - pos < 6 {
                return None;
            }
            let hi = b[pos + 4];
            let lo = b[pos + 5];
            if b[pos + 2] != 0x30 || b[pos + 3] != 0x30 || (hi != 0x30 && hi != 0x31) {
                return None;
            }
            let low: u8 = if 0x30 <= lo && lo <= 0x39 {
                lo - 0x30
            } else if 0x61 <= lo && lo <= 0x66 {
                lo - 0x57
            } else {
                return None;
            };
            let v: u8 = (hi - 0x30) * 16 + low;
            if v == 0x08 || v == 0x09 || v == 0x0a || v == 0x0c || v == 0x0d {
                None
            } else {
                Some((v, 6))
            }
        } else {
            None
        }
    } else if c < 0x20 || c == QUOTE {
        None
    } else {
        Some((c, 1))
    }
}

/// Nothing is quoted where nothing can be read.
proof fn lemma_unquote_none(b: Seq<u8>, pos: int)
    requires
        unquote_at(b, pos) is None,
    ensures
        forall|s: Seq<u8>| !quoted_at(b, pos, s),
{
    assert forall|s: Seq<u8>| !quoted_at(b, pos, s) by {
        if quoted_at(b, pos, s) {
            lemma_unquote_quoted(b, pos, s);
        }
    }
}

/// Reads the quoted string that starts at `pos`.
///
/// Returns the string and the position behind its closing quote, or `None`
/// where no quoted string stands at `pos`.
pub fn read_quoted(b: &[u8], pos: usize) -> (r: Option<(Vec<u8>, usize)>)
    ensures
        match r {
            Some((s, end)) => quoted_at(b@, pos as int, s@) && end == pos + quote(s@).len(),
            None => forall|s: Seq<u8>| !quoted_at(b@, pos as int, s),
        },
{
    if pos >= b.len() || b[pos] != QUOTE {
        proof {
            lemma_unquote_none(b@, pos as int);
        }
        return None;
    }
    let mut s: Vec<u8> = Vec::new();
    let mut p: usize = pos + 1;
    while p < b.len()
        invariant
            pos < p <= b.len(),
            b@[pos as int] == QUOTE,
            scan(b@, pos + 1) == prepend(s@, scan(b@, p as int)),
        decreases b.len() - p,
    {
        if b[p] == QUOTE {
            proof {
                assert(s@ + Seq::<u8>::empty() =~= s@);
                lemma_unquote_sound(b@, pos as int);
            }
            return Some((s, p + 1));
        }
        match read_escaped(b, p) {
            None => {
                proof {
                    lemma_unquote_none(b@, pos as int);
                }
                return None;
            },
            Some((c, k)) => {
                proof {
                    lemma_unescape_sound(b@, p as int);
                    let rest = scan(b@, p + k);
                    if rest is Some {
                        let (tail, _) = rest->0;
                        assert(s@ + (seq![c] + tail) =~= s@.push(c) + tail);
                    }
                }
                s.push(c);
                p += k;
            },
        }
    }
    proof {
        lemma_unquote_none(b@, pos as int);
    }
    None
}

} // verus!
