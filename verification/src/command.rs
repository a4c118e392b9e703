//! Log records and their encoding.
//!
//! A record is written as a compact textual object with a tag: a `Put` as
//! `{"Set":{"key":K,"value":V}}` and a `Remove` as `{"Remove":{"key":K}}`,
//! where `K` and `V` are quoted strings. The encoding is self-delimiting:
//! records are written back to back without separators, and at any position
//! of a buffer at most one record can be read.

use crate::error::KvsError;
use crate::quoting::{
    lemma_occurs_at_concat,
    lemma_quoted_at_unique,
    occurs_at,
    push_quoted,
    quote,
    quoted_at,
    read_quoted,
};
use vstd::prelude::*;
use vstd::utf8::*;

verus! {

/// A command that changes the store, as it is kept in the log.
#[derive(Debug, Clone, PartialEq, Eq)]
pub enum Command {
    /// `key` now has the value `value`.
    Put { key: String, value: String },
    /// `key` is no longer in the store.
    Remove { key: String },
}

/// The mathematical value of a [`Command`].
pub enum Record {
    Put { key: Seq<char>, value: Seq<char> },
    Remove { key: Seq<char> },
}

impl View for Command {
    type V = Record;

    open spec fn view(&self) -> Record {
        match self {
            Command::Put { key, value } => Record::Put { key: key@, value: value@ },
            Command::Remove { key } => Record::Remove { key: key@ },
        }
    }
}

impl Record {
    /// The key that the record is about.
    pub open spec fn key(self) -> Seq<char> {
        match self {
            Record::Put { key, .. } => key,
            Record::Remove { key } => key,
        }
    }
}

/// `{"Set":{"key":`
pub open spec fn set_prefix() -> Seq<u8> {
    seq![
        0x7bu8, 0x22u8, 0x53u8, 0x65u8, 0x74u8, 0x22u8, 0x3au8, 0x7bu8, 0x22u8, 0x6bu8, 0x65u8,
        0x79u8, 0x22u8, 0x3au8,
    ]
}

/// `,"value":`
pub open spec fn value_separator() -> Seq<u8> {
    seq![0x2cu8, 0x22u8, 0x76u8, 0x61u8, 0x6cu8, 0x75u8, 0x65u8, 0x22u8, 0x3au8]
}

/// `{"Remove":{"key":`
pub open spec fn remove_prefix() -> Seq<u8> {
    seq![
        0x7bu8, 0x22u8, 0x52u8, 0x65u8, 0x6du8, 0x6fu8, 0x76u8, 0x65u8, 0x22u8, 0x3au8, 0x7bu8,
        0x22u8, 0x6bu8, 0x65u8, 0x79u8, 0x22u8, 0x3au8,
    ]
}

/// `}}`
pub open spec fn record_suffix() -> Seq<u8> {
    seq![0x7du8, 0x7du8]
}

/// The bytes that a record is written as.
pub open spec fn encoding(r: Record) -> Seq<u8> {
    match r {
        Record::Put { key, value } => set_prefix() + quote(encode_utf8(key)) + value_separator()
            + quote(encode_utf8(value)) + record_suffix(),
        Record::Remove { key } => remove_prefix() + quote(encode_utf8(key)) + record_suffix(),
    }
}

/// Whether the encoding of `r` stands in `b` at position `pos`.
pub open spec fn record_at(b: Seq<u8>, pos: int, r: Record) -> bool {
    occurs_at(b, pos, encoding(r))
}

/// Every record takes up at least one byte.
pub proof fn lemma_encoding_nonempty(r: Record)
    ensures
        encoding(r).len() > 0,
{
}

/// The parts of an encoded `Put` record and where each of them stands.
proof fn lemma_set_layout(b: Seq<u8>, pos: int, key: Seq<char>, value: Seq<char>)
    ensures
        ({
            let k = quote(encode_utf8(key));
            let v = quote(encode_utf8(value));
            let p1 = pos + 14 + k.len();
            let p2 = p1 + 9 + v.len();
            &&& encoding(Record::Put { key, value }).len() == 14 + k.len() + 9 + v.len() + 2
            &&& record_at(b, pos, Record::Put { key, value }) <==> {
                &&& occurs_at(b, pos, set_prefix())
                &&& occurs_at(b, pos + 14, k)
                &&& occurs_at(b, p1, value_separator())
                &&& occurs_at(b, p1 + 9, v)
                &&& occurs_at(b, p2, record_suffix())
            }
        }),
{
    let k = quote(encode_utf8(key));
    let v = quote(encode_utf8(value));
    lemma_occurs_at_concat(b, pos, set_prefix() + k + value_separator() + v, record_suffix());
    lemma_occurs_at_concat(b, pos, set_prefix() + k + value_separator(), v);
    lemma_occurs_at_concat(b, pos, set_prefix() + k, value_separator());
    lemma_occurs_at_concat(b, pos, set_prefix(), k);
}

/// The parts of an encoded `Remove` record and where each of them stands.
proof fn lemma_remove_layout(b: Seq<u8>, pos: int, key: Seq<char>)
    ensures
        ({
            let k = quote(encode_utf8(key));
            &&& encoding(Record::Remove { key }).len() == 17 + k.len() + 2
            &&& record_at(b, pos, Record::Remove { key }) <==> {
                &&& occurs_at(b, pos, remove_prefix())
                &&& occurs_at(b, pos + 17, k)
                &&& occurs_at(b, pos + 17 + k.len(), record_suffix())
            }
        }),
{
    let k = quote(encode_utf8(key));
    lemma_occurs_at_concat(b, pos, remove_prefix() + k, record_suffix());
    lemma_occurs_at_concat(b, pos, remove_prefix(), k);
}

/// The two tags differ, so no position holds both prefixes.
proof fn lemma_prefixes_disjoint(b: Seq<u8>, pos: int)
    ensures
        !(occurs_at(b, pos, set_prefix()) && occurs_at(b, pos, remove_prefix())),
{
    if occurs_at(b, pos, set_prefix()) && occurs_at(b, pos, remove_prefix()) {
        assert(b.subrange(pos, pos + 14)[2] == 0x53u8);
        assert(b.subrange(pos, pos + 17)[2] == 0x52u8);
    }
}

/// Two strings with the same UTF-8 bytes are the same string.
proof fn lemma_utf8_injective(s: Seq<char>, t: Seq<char>)
    requires
        encode_utf8(s) == encode_utf8(t),
    ensures
        s == t,
{
    encode_utf8_decode_utf8(s);
    encode_utf8_decode_utf8(t);
}

/// At most one record stands at a position: the encoding is prefix-free.
pub proof fn lemma_record_at_unique(b: Seq<u8>, pos: int, r1: Record, r2: Record)
    requires
        record_at(b, pos, r1),
        record_at(b, pos, r2),
    ensures
        r1 == r2,
{
    lemma_prefixes_disjoint(b, pos);
    match (r1, r2) {
        (Record::Put { key: k1, value: v1 }, Record::Put { key: k2, value: v2 }) => {
            lemma_set_layout(b, pos, k1, v1);
            lemma_set_layout(b, pos, k2, v2);
            lemma_quoted_at_unique(b, pos + 14, encode_utf8(k1), encode_utf8(k2));
            lemma_utf8_injective(k1, k2);
            let p1 = pos + 14 + quote(encode_utf8(k1)).len();
            lemma_quoted_at_unique(b, p1 + 9, encode_utf8(v1), encode_utf8(v2));
            lemma_utf8_injective(v1, v2);
        },
        (Record::Remove { key: k1 }, Record::Remove { key: k2 }) => {
            lemma_remove_layout(b, pos, k1);
            lemma_remove_layout(b, pos, k2);
            lemma_quoted_at_unique(b, pos + 17, encode_utf8(k1), encode_utf8(k2));
            lemma_utf8_injective(k1, k2);
        },
        (Record::Put { key: k1, value: v1 }, Record::Remove { key: k2 }) => {
            lemma_set_layout(b, pos, k1, v1);
            lemma_remove_layout(b, pos, k2);
        },
        (Record::Remove { key: k1 }, Record::Put { key: k2, value: v2 }) => {
            lemma_remove_layout(b, pos, k1);
            lemma_set_layout(b, pos, k2, v2);
        },
    }
}

/// `String::from_utf8`, with the error dropped: the bytes become a string
/// exactly when they are well-formed UTF-8, and the string is then the text
/// that they encode.
#[verifier::external_body]
pub(crate) fn string_from_utf8(bytes: Vec<u8>) -> (r: Option<String>)
    ensures
        r is Some <==> valid_utf8(bytes@),
        r matches Some(s) ==> s@ == decode_utf8(bytes@),
{
    String::from_utf8(bytes).ok()
}

/// Appends `pat` to `out`.
fn push_bytes(out: &mut Vec<u8>, pat: &[u8])
    ensures
        final(out)@ == old(out)@ + pat@,
{
    let ghost before = out@;
    let mut i: usize = 0;
    while i < pat.len()
        invariant
            i <= pat.len(),
            out@ == before + pat@.take(i as int),
        decreases pat.len() - i,
    {
        out.push(pat[i]);
        proof {
            assert(pat@.take(i as int).push(pat@[i as int]) =~= pat@.take(i as int + 1));
            assert(out@ =~= before + pat@.take(i as int + 1));
        }
        i += 1;
    }
    proof {
        assert(pat@.take(pat.len() as int) =~= pat@);
    }
}

/// Whether `pat` stands in `b` at position `pos`.
fn starts_at(b: &[u8], pos: usize, pat: &[u8]) -> (r: bool)
    ensures
        r == occurs_at(b@, pos as int, pat@),
{
    if pos > b.len() || b.len() - pos < pat.len() {
        return false;
    }
    let mut i: usize = 0;
    while i < pat.len()
        invariant
            i <= pat.len(),
            pos + pat.len() <= b.len(),
            b@.subrange(pos as int, pos + i) == pat@.take(i as int),
        decreases pat.len() - i,
    {
        if b[pos + i] != pat[i] {
            proof {
                if occurs_at(b@, pos as int, pat@) {
                    assert(b@.subrange(pos as int, pos + pat.len())[i as int] == b@[pos + i]);
                }
            }
            return false;
        }
        proof {
            assert(b@.subrange(pos as int, pos + i + 1) =~= pat@.take(i as int + 1));
        }
        i += 1;
    }
    proof {
        assert(pat@.take(pat.len() as int) =~= pat@);
    }
    true
}

fn set_prefix_bytes() -> (v: [u8; 14])
    ensures
        v@ == set_prefix(),
{
    let v: [u8; 14] = [
        0x7b, 0x22, 0x53, 0x65, 0x74, 0x22, 0x3a, 0x7b, 0x22, 0x6b, 0x65, 0x79, 0x22, 0x3a,
    ];
    assert(v@ =~= set_prefix());
    v
}

fn value_separator_bytes() -> (v: [u8; 9])
    ensures
        v@ == value_separator(),
{
    let v: [u8; 9] = [0x2c, 0x22, 0x76, 0x61, 0x6c, 0x75, 0x65, 0x22, 0x3a];
    assert(v@ =~= value_separator());
    v
}

fn remove_prefix_bytes() -> (v: [u8; 17])
    ensures
        v@ == remove_prefix(),
{
    let v: [u8; 17] = [
        0x7b, 0x22, 0x52, 0x65, 0x6d, 0x6f, 0x76, 0x65, 0x22, 0x3a, 0x7b, 0x22, 0x6b, 0x65, 0x79,
        0x22, 0x3a,
    ];
    assert(v@ =~= remove_prefix());
    v
}

fn record_suffix_bytes() -> (v: [u8; 2])
    ensures
        v@ == record_suffix(),
{
    let v: [u8; 2] = [0x7d, 0x7d];
    assert(v@ =~= record_suffix());
    v
}

fn at_set_prefix(b: &[u8], pos: usize) -> (r: bool)
    ensures
        r == occurs_at(b@, pos as int, set_prefix()),
        r ==> pos + 14 <= b.len(),
{
    let pat = set_prefix_bytes();
    starts_at(b, pos, pat.as_slice())
}

fn at_remove_prefix(b: &[u8], pos: usize) -> (r: bool)
    ensures
        r == occurs_at(b@, pos as int, remove_prefix()),
        r ==> pos + 17 <= b.len(),
{
    let pat = remove_prefix_bytes();
    starts_at(b, pos, pat.as_slice())
}

fn at_value_separator(b: &[u8], pos: usize) -> (r: bool)
    ensures
        r == occurs_at(b@, pos as int, value_separator()),
        r ==> pos + 9 <= b.len(),
{
    let pat = value_separator_bytes();
    starts_at(b, pos, pat.as_slice())
}

fn at_record_suffix(b: &[u8], pos: usize) -> (r: bool)
    ensures
        r == occurs_at(b@, pos as int, record_suffix()),
        r ==> pos + 2 <= b.len(),
{
    let pat = record_suffix_bytes();
    starts_at(b, pos, pat.as_slice())
}

impl Command {
    /// Appends the encoding of the command to `out`.
    pub fn encode_into(&self, out: &mut Vec<u8>)
        ensures
            final(out)@ == old(out)@ + encoding(self@),
    {
        let ghost before = out@;
        match self {
            Command::Put { key, value } => {
                push_bytes(out, set_prefix_bytes().as_slice());
                push_quoted(out, key.as_str().as_bytes());
                push_bytes(out, value_separator_bytes().as_slice());
                push_quoted(out, value.as_str().as_bytes());
                push_bytes(out, record_suffix_bytes().as_slice());
                assert(out@ =~= before + encoding(self@));
            },
            Command::Remove { key } => {
                push_bytes(out, remove_prefix_bytes().as_slice());
                push_quoted(out, key.as_str().as_bytes());
                push_bytes(out, record_suffix_bytes().as_slice());
                assert(out@ =~= before + encoding(self@));
            },
        }
    }

    /// The encoding of the command.
    pub fn encode(&self) -> (bytes: Vec<u8>)
        ensures
            bytes@ == encoding(self@),
    {
        let mut bytes: Vec<u8> = Vec::new();
        self.encode_into(&mut bytes);
        assert(Seq::<u8>::empty() + encoding(self@) =~= encoding(self@));
        bytes
    }
}

/// Reads the quoted text that starts at `pos`.
///
/// `Some` exactly when the quoted UTF-8 bytes of some text stand at `pos`;
/// the result is then that text and the position behind it.
fn read_text(b: &[u8], pos: usize) -> (r: Option<(String, usize)>)
    ensures
        match r {
            Some((s, end)) => quoted_at(b@, pos as int, encode_utf8(s@)) && end == pos + quote(
                encode_utf8(s@),
            ).len(),
            None => forall|t: Seq<char>| !quoted_at(b@, pos as int, encode_utf8(t)),
        },
{
    match read_quoted(b, pos) {
        None => None,
        Some((raw, end)) => {
            let ghost bytes = raw@;
            match string_from_utf8(raw) {
                Some(s) => {
                    proof {
                        decode_utf8_encode_utf8(bytes);
                    }
                    Some((s, end))
                },
                None => {
                    proof {
                        assert forall|t: Seq<char>| !quoted_at(
                            b@,
                            pos as int,
                            encode_utf8(t),
                        ) by {
                            if quoted_at(b@, pos as int, encode_utf8(t)) {
                                lemma_quoted_at_unique(b@, pos as int, bytes, encode_utf8(t));
                                encode_utf8_valid_utf8(t);
                            }
                        }
                    }
                    None
                },
            }
        },
    }
}

/// Reads what follows the prefix of a `Put` record: the key at `pos`, the
/// value and the closing braces.
fn read_set_body(b: &[u8], start: usize, pos: usize) -> (r: Option<(Command, usize)>)
    requires
        pos == start + 14,
        occurs_at(b@, start as int, set_prefix()),
    ensures
        match r {
            Some((c, end)) => record_at(b@, start as int, c@) && end == start + encoding(c@).len(),
            None => forall|rec: Record| !record_at(b@, start as int, rec),
        },
{
    proof {
        lemma_prefixes_disjoint(b@, start as int);
        assert forall|k: Seq<char>| !record_at(b@, start as int, Record::Remove { key: k }) by {
            lemma_remove_layout(b@, start as int, k);
        }
    }
    let found = match read_text(b, pos) {
        None => None,
        Some((key, p1)) => {
            if !at_value_separator(b, p1) {
                None
            } else {
                match read_text(b, p1 + 9) {
                    None => None,
                    Some((value, p2)) => {
                        if !at_record_suffix(b, p2) {
                            None
                        } else {
                            proof {
                                lemma_set_layout(b@, start as int, key@, value@);
                            }
                            Some((Command::Put { key, value }, p2 + 2))
                        }
                    },
                }
            }
        },
    };
    proof {
        if found is None {
            assert forall|rec: Record| !record_at(b@, start as int, rec) by {
                if let Record::Put { key: k, value: v } = rec {
                    lemma_set_layout(b@, start as int, k, v);
                    if record_at(b@, start as int, rec) {
                        lemma_set_misread(b@, start as int, k, v);
                    }
                }
            }
        }
    }
    found
}

/// Where a `Put` record stands, each of its parts is found where reading
/// looks for it: the key is the only text quoted behind the prefix, and the
/// value the only text quoted behind the separator.
proof fn lemma_set_misread(b: Seq<u8>, pos: int, key: Seq<char>, value: Seq<char>)
    requires
        record_at(b, pos, Record::Put { key, value }),
    ensures
        forall|t: Seq<char>| #[trigger]
            quoted_at(b, pos + 14, encode_utf8(t)) ==> t == key,
        forall|t: Seq<char>| #[trigger]
            quoted_at(b, pos + 14 + quote(encode_utf8(key)).len() + 9, encode_utf8(t)) ==> t
                == value,
{
    lemma_set_layout(b, pos, key, value);
    let p1 = pos + 14 + quote(encode_utf8(key)).len();
    assert forall|t: Seq<char>| #[trigger]
        quoted_at(b, pos + 14, encode_utf8(t)) implies t == key by {
        lemma_quoted_at_unique(b, pos + 14, encode_utf8(t), encode_utf8(key));
        lemma_utf8_injective(t, key);
    }
    assert forall|t: Seq<char>| #[trigger]
        quoted_at(b, p1 + 9, encode_utf8(t)) implies t == value by {
        lemma_quoted_at_unique(b, p1 + 9, encode_utf8(t), encode_utf8(value));
        lemma_utf8_injective(t, value);
    }
}

/// Reads what follows the prefix of a `Remove` record: the key at `pos` and
/// the closing braces.
fn read_remove_body(b: &[u8], start: usize, pos: usize) -> (r: Option<(Command, usize)>)
    requires
        pos == start + 17,
        occurs_at(b@, start as int, remove_prefix()),
    ensures
        match r {
            Some((c, end)) => record_at(b@, start as int, c@) && end == start + encoding(c@).len(),
            None => forall|rec: Record| !record_at(b@, start as int, rec),
        },
{
    proof {
        lemma_prefixes_disjoint(b@, start as int);
        assert forall|k: Seq<char>, v: Seq<char>| !record_at(
            b@,
            start as int,
            Record::Put { key: k, value: v },
        ) by {
            lemma_set_layout(b@, start as int, k, v);
        }
    }
    let found = match read_text(b, pos) {
        None => None,
        Some((key, p1)) => {
            if !at_record_suffix(b, p1) {
                None
            } else {
                proof {
                    lemma_remove_layout(b@, start as int, key@);
                }
                Some((Command::Remove { key }, p1 + 2))
            }
        },
    };
    proof {
        if found is None {
            assert forall|rec: Record| !record_at(b@, start as int, rec) by {
                if let Record::Remove { key: k } = rec {
                    lemma_remove_layout(b@, start as int, k);
                    if record_at(b@, start as int, rec) {
                        assert forall|t: Seq<char>| #[trigger]
                            quoted_at(b@, start + 17, encode_utf8(t)) implies t == k by {
                            lemma_quoted_at_unique(
                                b@,
                                start + 17,
                                encode_utf8(t),
                                encode_utf8(k),
                            );
                            lemma_utf8_injective(t, k);
                        }
                    }
                }
            }
        }
    }
    found
}

/// Reads the record that starts at `start`.
///
/// - `Ok(None)` at the end of the buffer: a clean end of the log.
/// - `Ok(Some((command, next)))` where the encoding of a record stands at
///   `start`; `next` is the position at which the following record begins.
/// - `Err(UnexpectedCommand)` where bytes are left and no record's encoding
///   stands at `start`.
pub fn decode_command(b: &[u8], start: usize) -> (r: Result<Option<(Command, usize)>, KvsError>)
    requires
        start <= b.len(),
    ensures
        match r {
            Ok(None) => start == b.len(),
            Ok(Some((c, next))) => {
                &&& record_at(b@, start as int, c@)
                &&& next == start + encoding(c@).len()
                &&& start < next <= b.len()
            },
            Err(e) => {
                &&& e is UnexpectedCommand
                &&& start < b.len()
                &&& forall|rec: Record| !record_at(b@, start as int, rec)
            },
        },
{
    if start == b.len() {
        return Ok(None);
    }
    let found = if at_set_prefix(b, start) {
        read_set_body(b, start, start + 14)
    } else if at_remove_prefix(b, start) {
        read_remove_body(b, start, start + 17)
    } else {
        proof {
            assert forall|rec: Record| !record_at(b@, start as int, rec) by {
                match rec {
                    Record::Put { key, value } => {
                        lemma_set_layout(b@, start as int, key, value);
                    },
                    Record::Remove { key } => {
                        lemma_remove_layout(b@, start as int, key);
                    },
                }
            }
        }
        None
    };
    match found {
        Some((c, next)) => {
            proof {
                lemma_encoding_nonempty(c@);
            }
            Ok(Some((c, next)))
        },
        None => Err(KvsError::UnexpectedCommand),
    }
}

} // verus!
