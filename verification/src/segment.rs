//! Segments: append-only logs of encoded records.
//!
//! A segment holds zero or more records written back to back. Because the
//! record encoding is prefix-free, the bytes of a segment determine its
//! records: a log has one reading.

use crate::command::{
    decode_command,
    encoding,
    lemma_encoding_nonempty,
    lemma_record_at_unique,
    record_at,
    Command,
    Record,
};
use crate::error::KvsError;
use crate::quoting::lemma_occurs_at_concat;
use vstd::prelude::*;

verus! {

/// One segment of the store: its number and the bytes written to it.
#[derive(Debug, Clone, PartialEq, Eq)]
pub struct Segment {
    pub id: u64,
    pub data: Vec<u8>,
}

/// The mathematical value of a [`Segment`].
pub struct SegmentView {
    pub id: u64,
    pub data: Seq<u8>,
}

impl View for Segment {
    type V = SegmentView;

    open spec fn view(&self) -> SegmentView {
        SegmentView { id: self.id, data: self.data@ }
    }
}

/// The bytes of a log that holds the records `rs` in this order.
pub open spec fn log_bytes(rs: Seq<Record>) -> Seq<u8>
    decreases rs.len(),
{
    if rs.len() == 0 {
        Seq::empty()
    } else {
        log_bytes(rs.drop_last()) + encoding(rs.last())
    }
}

/// Whether `b` is a log: a sequence of whole records and nothing else.
pub open spec fn valid_log(b: Seq<u8>) -> bool {
    exists|rs: Seq<Record>| log_bytes(rs) == b
}

/// The records of the log `b`.
pub open spec fn records_of(b: Seq<u8>) -> Seq<Record> {
    choose|rs: Seq<Record>| log_bytes(rs) == b
}

/// Appending a record to a log appends its encoding to the bytes.
pub proof fn lemma_log_push(rs: Seq<Record>, r: Record)
    ensures
        log_bytes(rs.push(r)) == log_bytes(rs) + encoding(r),
{
    assert(rs.push(r).drop_last() =~= rs);
}

/// The bytes of two logs written one after the other.
pub proof fn lemma_log_concat(a: Seq<Record>, c: Seq<Record>)
    ensures
        log_bytes(a + c) == log_bytes(a) + log_bytes(c),
    decreases c.len(),
{
    if c.len() == 0 {
        assert(a + c =~= a);
        assert(log_bytes(a) + log_bytes(c) =~= log_bytes(a));
    } else {
        lemma_log_concat(a, c.drop_last());
        assert((a + c).drop_last() =~= a + c.drop_last());
        assert(log_bytes(a + c) =~= log_bytes(a) + log_bytes(c));
    }
}

/// A log begins with the encoding of its first record.
pub proof fn lemma_log_head(rs: Seq<Record>)
    requires
        rs.len() > 0,
    ensures
        log_bytes(rs) == encoding(rs[0]) + log_bytes(rs.skip(1)),
{
    let head = seq![rs[0]];
    assert(head + rs.skip(1) =~= rs);
    lemma_log_concat(head, rs.skip(1));
    assert(Seq::<Record>::empty().push(rs[0]) =~= head);
    lemma_log_push(Seq::<Record>::empty(), rs[0]);
    assert(log_bytes(Seq::<Record>::empty()) =~= Seq::<u8>::empty());
    assert(log_bytes(head) =~= encoding(rs[0]));
}

/// A log whose bytes begin with the bytes of another log begins with the
/// records of that log.
pub proof fn lemma_log_prefix(a: Seq<Record>, c: Seq<Record>)
    requires
        log_bytes(a).is_prefix_of(log_bytes(c)),
    ensures
        a.is_prefix_of(c),
    decreases a.len(),
{
    if a.len() > 0 {
        let la = log_bytes(a);
        let lc = log_bytes(c);
        lemma_log_head(a);
        lemma_encoding_nonempty(a[0]);
        assert(c.len() > 0);
        lemma_log_head(c);
        let ta = log_bytes(a.skip(1));
        let tc = log_bytes(c.skip(1));
        assert(lc.subrange(0, encoding(c[0]).len() as int) =~= encoding(c[0]));
        assert(la.subrange(0, encoding(a[0]).len() as int) =~= encoding(a[0]));
        assert(lc.subrange(0, encoding(a[0]).len() as int) =~= la.subrange(
            0,
            encoding(a[0]).len() as int,
        ));
        lemma_record_at_unique(lc, 0, a[0], c[0]);
        let n = encoding(a[0]).len() as int;
        assert(ta =~= la.subrange(n, la.len() as int));
        assert(tc =~= lc.subrange(n, lc.len() as int));
        assert(ta.is_prefix_of(tc)) by {
            assert(ta.len() <= tc.len());
            assert forall|i: int| 0 <= i < ta.len() implies ta[i] == tc[i] by {
                assert(la[n + i] == lc[n + i]);
            }
        }
        lemma_log_prefix(a.skip(1), c.skip(1));
        assert forall|i: int| 0 <= i < a.len() implies a[i] == c[i] by {
            if i > 0 {
                assert(a.skip(1)[i - 1] == c.skip(1)[i - 1]);
            }
        }
    }
}

/// Two logs with the same bytes hold the same records.
pub proof fn lemma_log_unique(a: Seq<Record>, c: Seq<Record>)
    requires
        log_bytes(a) == log_bytes(c),
    ensures
        a == c,
{
    lemma_log_prefix(a, c);
    lemma_log_prefix(c, a);
    assert(a =~= c);
}

/// Reading the bytes of a log gives its records back.
pub proof fn lemma_records_of_log(rs: Seq<Record>)
    ensures
        valid_log(log_bytes(rs)),
        records_of(log_bytes(rs)) == rs,
{
    lemma_log_unique(records_of(log_bytes(rs)), rs);
}

/// The empty buffer is the log without records.
pub proof fn lemma_empty_log()
    ensures
        valid_log(Seq::<u8>::empty()),
        records_of(Seq::<u8>::empty()) == Seq::<Record>::empty(),
{
    assert(log_bytes(Seq::<Record>::empty()) =~= Seq::<u8>::empty());
    lemma_records_of_log(Seq::<Record>::empty());
}

/// Appending the encoding of a record to a log gives the log with that
/// record added at its end.
pub proof fn lemma_log_append(b: Seq<u8>, r: Record)
    requires
        valid_log(b),
    ensures
        valid_log(b + encoding(r)),
        records_of(b + encoding(r)) == records_of(b).push(r),
{
    let rs = records_of(b);
    lemma_log_push(rs, r);
    lemma_records_of_log(rs.push(r));
}

/// In a log, behind the bytes of its first records stands the next one.
pub proof fn lemma_log_next(b: Seq<u8>, pos: int, done: Seq<Record>)
    requires
        valid_log(b),
        0 <= pos < b.len(),
        b.subrange(0, pos) == log_bytes(done),
    ensures
        done.len() < records_of(b).len(),
        done.is_prefix_of(records_of(b)),
        record_at(b, pos, records_of(b)[done.len() as int]),
{
    let all = records_of(b);
    assert(log_bytes(done).is_prefix_of(b));
    lemma_log_prefix(done, all);
    if done.len() == all.len() {
        assert(done =~= all);
    }
    let n = done.len() as int;
    let upto = all.take(n + 1);
    assert(all.take(n) =~= done);
    assert(upto =~= done.push(all[n]));
    lemma_log_push(done, all[n]);
    assert(upto + all.skip(n + 1) =~= all);
    lemma_log_concat(upto, all.skip(n + 1));
    lemma_occurs_at_concat(b, 0, log_bytes(upto), log_bytes(all.skip(n + 1)));
    assert(b.subrange(0, b.len() as int) =~= b);
    lemma_occurs_at_concat(b, 0, log_bytes(done), encoding(all[n]));
}

/// Where the first bytes of a buffer are a log and no record stands behind
/// them although bytes are left, the buffer is no log.
pub proof fn lemma_log_broken(b: Seq<u8>, pos: int, done: Seq<Record>)
    requires
        0 <= pos < b.len(),
        b.subrange(0, pos) == log_bytes(done),
        forall|r: Record| !record_at(b, pos, r),
    ensures
        !valid_log(b),
{
    if valid_log(b) {
        lemma_log_next(b, pos, done);
    }
}

/// Reading one more record behind the bytes of a log extends the log.
pub proof fn lemma_log_extend(b: Seq<u8>, pos: int, done: Seq<Record>, r: Record)
    requires
        0 <= pos <= b.len(),
        b.subrange(0, pos) == log_bytes(done),
        record_at(b, pos, r),
    ensures
        b.subrange(0, pos + encoding(r).len()) == log_bytes(done.push(r)),
{
    lemma_log_push(done, r);
    assert(b.subrange(0, pos + encoding(r).len()) =~= b.subrange(0, pos) + b.subrange(
        pos,
        pos + encoding(r).len(),
    ));
}

/// Whether `rs` are the records that can be read from the start of `b`:
/// they stand there back to back, and behind them the buffer ends or holds
/// no record.
pub open spec fn readable(b: Seq<u8>, rs: Seq<Record>) -> bool {
    &&& log_bytes(rs).is_prefix_of(b)
    &&& log_bytes(rs).len() < b.len() ==> forall|r: Record|
        !record_at(b, log_bytes(rs).len() as int, r)
}

/// The records that can be read from the start of `b`: all of them where
/// `b` is a log, and those before the first broken byte where it is not.
pub open spec fn read_records(b: Seq<u8>) -> Seq<Record> {
    choose|rs: Seq<Record>| readable(b, rs)
}

/// The records that can be read from the start of a buffer are determined
/// by the buffer.
pub proof fn lemma_readable_unique(b: Seq<u8>, a: Seq<Record>, c: Seq<Record>)
    requires
        readable(b, a),
        readable(b, c),
    ensures
        a == c,
{
    if log_bytes(a).len() <= log_bytes(c).len() {
        lemma_readable_within(b, a, c);
    } else {
        lemma_readable_within(b, c, a);
    }
}

proof fn lemma_readable_within(b: Seq<u8>, a: Seq<Record>, c: Seq<Record>)
    requires
        readable(b, a),
        readable(b, c),
        log_bytes(a).len() <= log_bytes(c).len(),
    ensures
        a == c,
{
    let la = log_bytes(a);
    let lc = log_bytes(c);
    assert(la.is_prefix_of(lc));
    lemma_log_prefix(a, c);
    if a.len() < c.len() {
        let n = a.len() as int;
        let next = c[n];
        assert(c.take(n) =~= a);
        assert(c.take(n + 1) =~= a.push(next));
        lemma_log_push(a, next);
        assert(c.take(n + 1) + c.skip(n + 1) =~= c);
        lemma_log_concat(c.take(n + 1), c.skip(n + 1));
        lemma_encoding_nonempty(next);
        assert(la.len() < b.len());
        assert(record_at(b, la.len() as int, next)) by {
            let from = la.len() as int;
            let to = from + encoding(next).len();
            let upto = log_bytes(c.take(n + 1));
            assert(upto == la + encoding(next));
            assert(lc == upto + log_bytes(c.skip(n + 1)));
            assert forall|i: int| from <= i < to implies b[i] == encoding(next)[i - from] by {
                assert(lc[i] == upto[i]);
                assert(b[i] == lc[i]);
            }
            assert(b.subrange(from, to) =~= encoding(next));
        }
    } else {
        assert(a =~= c);
    }
}

/// From a log, all its records can be read.
pub proof fn lemma_read_log(b: Seq<u8>)
    requires
        valid_log(b),
    ensures
        read_records(b) == records_of(b),
{
    let rs = records_of(b);
    assert(readable(b, rs));
    lemma_readable_unique(b, rs, read_records(b));
}

/// The offset in the log of `rs` at which the record behind record `i`
/// begins.
pub open spec fn offset_after(rs: Seq<Record>, i: int) -> nat {
    log_bytes(rs.take(i + 1)).len()
}

/// Reads all the records of a log, each with the offset at which the record
/// behind it begins.
///
/// Fails with `UnexpectedCommand` exactly when `data` is not a log: when,
/// behind some records, bytes are left that are not a record. The end of the
/// buffer between two records is the clean end of the log.
pub fn decode_stream(data: &[u8]) -> (r: Result<Vec<(Command, usize)>, KvsError>)
    ensures
        match r {
            Ok(items) => {
                &&& valid_log(data@)
                &&& items@.len() == records_of(data@).len()
                &&& forall|i: int|
                    0 <= i < items@.len() ==> (#[trigger] items@[i]).0@ == records_of(data@)[i]
                        && items@[i].1 == offset_after(records_of(data@), i)
            },
            Err(e) => e is UnexpectedCommand && !valid_log(data@),
        },
{
    let mut items: Vec<(Command, usize)> = Vec::new();
    let ghost mut done: Seq<Record> = Seq::empty();
    let mut pos: usize = 0;
    proof {
        assert(data@.subrange(0, 0) =~= log_bytes(done));
    }
    loop
        invariant
            pos <= data.len(),
            data@.subrange(0, pos as int) == log_bytes(done),
            items@.len() == done.len(),
            forall|i: int|
                0 <= i < items@.len() ==> (#[trigger] items@[i]).0@ == done[i] && items@[i].1
                    == offset_after(done, i),
        decreases data.len() - pos,
    {
        match decode_command(data, pos) {
            Err(e) => {
                proof {
                    lemma_log_broken(data@, pos as int, done);
                }
                return Err(e);
            },
            Ok(None) => {
                proof {
                    assert(data@.subrange(0, pos as int) =~= data@);
                    lemma_records_of_log(done);
                }
                return Ok(items);
            },
            Ok(Some((command, next))) => {
                proof {
                    let grown = done.push(command@);
                    lemma_log_extend(data@, pos as int, done, command@);
                    assert(grown.take(grown.len() as int) =~= grown);
                    assert forall|i: int| 0 <= i < done.len() implies #[trigger] offset_after(
                        grown,
                        i,
                    ) == offset_after(done, i) by {
                        assert(grown.take(i + 1) =~= done.take(i + 1));
                    }
                    done = grown;
                }
                items.push((command, next));
                pos = next;
            },
        }
    }
}

} // verus!
