//! Replay: what a directory of segments means.
//!
//! The log is the source of truth. Reading the segments in ascending order
//! and applying each record in turn gives the contents of the store and the
//! index into the log. This module defines both as functions of the
//! directory, proves that the index so built points at the record that holds
//! the current value of each live key, and provides the executable replay
//! that rebuilds the index from the bytes.

use crate::command::{decode_command, encoding, Command, Record};
use crate::error::KvsError;
use crate::index::{CommandMetadata, Index};
use crate::quoting::{lemma_occurs_at_extend, occurs_at};
use crate::segment::{
    lemma_empty_log,
    lemma_log_broken,
    lemma_log_concat,
    lemma_log_extend,
    lemma_log_push,
    lemma_read_log,
    lemma_readable_unique,
    lemma_records_of_log,
    log_bytes,
    read_records,
    readable,
    records_of,
    valid_log,
    Segment,
    SegmentView,
};
use vstd::prelude::*;

verus! {

/// The contents of a store: the value of each live key.
pub type Contents = Map<Seq<char>, Seq<char>>;

/// The index of a store: the place of the latest record of each live key.
pub type Places = Map<Seq<char>, CommandMetadata>;

/// What replay has built so far: the index, and the number of bytes taken up
/// by records that later ones displaced.
pub struct Replay {
    pub index: Places,
    pub stale: u64,
}

/// The contents after one more record.
pub open spec fn apply(m: Contents, r: Record) -> Contents {
    match r {
        Record::Put { key, value } => m.insert(key, value),
        Record::Remove { key } => m.remove(key),
    }
}

/// The contents after the records `rs`, applied in order.
pub open spec fn apply_all(m: Contents, rs: Seq<Record>) -> Contents
    decreases rs.len(),
{
    if rs.len() == 0 {
        m
    } else {
        apply(apply_all(m, rs.drop_last()), rs.last())
    }
}

/// The contents that a directory of segments holds.
pub open spec fn dir_contents(segs: Seq<SegmentView>) -> Contents
    decreases segs.len(),
{
    if segs.len() == 0 {
        Map::empty()
    } else {
        apply_all(dir_contents(segs.drop_last()), records_of(segs.last().data))
    }
}

/// The place of a record of `len` bytes at offset `pos` of segment `id`.
pub open spec fn place(id: u64, pos: nat, len: nat) -> CommandMetadata {
    CommandMetadata { file_index: id, position: pos as u64, length: len as u64 }
}

/// The length of the record that the index holds for `key`, or 0.
pub open spec fn displaced(index: Places, key: Seq<char>) -> u64 {
    if index.contains_key(key) {
        index[key].length
    } else {
        0
    }
}

/// The index after a record that lies at `meta`.
pub open spec fn index_step(index: Places, r: Record, meta: CommandMetadata) -> Places {
    match r {
        Record::Put { key, .. } => index.insert(key, meta),
        Record::Remove { key } => index.remove(key),
    }
}

/// The state of replay after the record `r`, which lies at offset `pos` of
/// segment `id`: the index entry that it displaces, if any, becomes stale.
pub open spec fn replay_step(st: Replay, r: Record, id: u64, pos: nat) -> Replay {
    Replay {
        index: index_step(st.index, r, place(id, pos, encoding(r).len())),
        stale: st.stale.saturating_add(displaced(st.index, r.key())),
    }
}

/// The state from which the replay of a segment starts: the index built so
/// far, and no stale bytes.
pub open spec fn fresh(index: Places) -> Replay {
    Replay { index, stale: 0 }
}

/// The state of replay after the records `rs` of segment `id`.
pub open spec fn replay_log(st: Replay, id: u64, rs: Seq<Record>) -> Replay
    decreases rs.len(),
{
    if rs.len() == 0 {
        st
    } else {
        replay_step(
            replay_log(st, id, rs.drop_last()),
            rs.last(),
            id,
            log_bytes(rs.drop_last()).len(),
        )
    }
}

/// The state of replay after the segments `segs`, starting from the index
/// `index`. The stale bytes of each segment are counted from zero and added
/// up.
pub open spec fn replay_dir(index: Places, segs: Seq<SegmentView>) -> Replay
    decreases segs.len(),
{
    if segs.len() == 0 {
        Replay { index, stale: 0 }
    } else {
        let before = replay_dir(index, segs.drop_last());
        let last = replay_log(
            fresh(before.index),
            segs.last().id,
            records_of(segs.last().data),
        );
        Replay { index: last.index, stale: before.stale.saturating_add(last.stale) }
    }
}

/// The mathematical value of a directory of segments.
pub open spec fn dir_view(segments: Seq<Segment>) -> Seq<SegmentView> {
    segments.map_values(|s: Segment| s@)
}

/// A segment without records.
pub open spec fn empty_segment(id: u64) -> SegmentView {
    SegmentView { id, data: Seq::empty() }
}

/// The index after the segments `segs` were replayed, in their order, up to
/// the first that is not a log; of that one, the records that can be read
/// are replayed.
pub open spec fn replay_while_valid(index: Places, segs: Seq<SegmentView>) -> Places
    decreases segs.len(),
{
    if segs.len() == 0 {
        index
    } else {
        let after = replay_log(fresh(index), segs[0].id, read_records(segs[0].data)).index;
        if valid_log(segs[0].data) {
            replay_while_valid(after, segs.skip(1))
        } else {
            after
        }
    }
}

/// Whether the segment ids rise strictly.
pub open spec fn ascending(segs: Seq<SegmentView>) -> bool {
    forall|i: int, j: int| 0 <= i < j < segs.len() ==> segs[i].id < segs[j].id
}

/// Whether every segment is a log.
pub open spec fn all_valid(segs: Seq<SegmentView>) -> bool {
    forall|i: int| 0 <= i < segs.len() ==> valid_log(#[trigger] segs[i].data)
}

/// Whether every offset into every segment fits the index.
pub open spec fn all_fit(segs: Seq<SegmentView>) -> bool {
    forall|i: int| 0 <= i < segs.len() ==> (#[trigger] segs[i]).data.len() <= u64::MAX
}

/// Whether `bytes` are what lies at `meta` in the directory.
pub open spec fn extent_holds(segs: Seq<SegmentView>, meta: CommandMetadata, bytes: Seq<u8>)
    -> bool {
    exists|j: int|
        0 <= j < segs.len() && (#[trigger] segs[j]).id == meta.file_index && meta.length
            == bytes.len() && occurs_at(segs[j].data, meta.position as int, bytes)
}

/// Whether the index matches the contents: it has an entry for each live
/// key and for no other, and each entry is the place of a record that sets
/// its key to the key's current value.
pub open spec fn index_matches(segs: Seq<SegmentView>, index: Places, m: Contents) -> bool {
    &&& forall|k: Seq<char>| index.contains_key(k) <==> m.contains_key(k)
    &&& forall|k: Seq<char>| #[trigger]
        index.contains_key(k) ==> extent_holds(
            segs,
            index[k],
            encoding(Record::Put { key: k, value: m[k] }),
        )
}

/// The directory after `bytes` were appended to its last segment.
pub open spec fn dir_append(segs: Seq<SegmentView>, bytes: Seq<u8>) -> Seq<SegmentView> {
    segs.update(
        segs.len() - 1,
        SegmentView { id: segs.last().id, data: segs.last().data + bytes },
    )
}

/// Applying one more record after others.
pub proof fn lemma_apply_all_push(m: Contents, rs: Seq<Record>, r: Record)
    ensures
        apply_all(m, rs.push(r)) == apply(apply_all(m, rs), r),
{
    assert(rs.push(r).drop_last() =~= rs);
}

/// Replaying one more record after others.
pub proof fn lemma_replay_log_push(st: Replay, id: u64, rs: Seq<Record>, r: Record)
    ensures
        replay_log(st, id, rs.push(r)) == replay_step(
            replay_log(st, id, rs),
            r,
            id,
            log_bytes(rs).len(),
        ),
{
    assert(rs.push(r).drop_last() =~= rs);
}

/// A matching index still matches after a record is appended to the last
/// segment and applied to index and contents.
pub proof fn lemma_append_matches(segs: Seq<SegmentView>, index: Places, m: Contents, r: Record)
    requires
        segs.len() > 0,
        index_matches(segs, index, m),
        segs.last().data.len() + encoding(r).len() <= u64::MAX,
    ensures
        index_matches(
            dir_append(segs, encoding(r)),
            index_step(
                index,
                r,
                place(segs.last().id, segs.last().data.len(), encoding(r).len()),
            ),
            apply(m, r),
        ),
{
    let after = dir_append(segs, encoding(r));
    let meta = place(segs.last().id, segs.last().data.len(), encoding(r).len());
    let index2 = index_step(index, r, meta);
    let m2 = apply(m, r);
    let n = segs.len() - 1;
    assert forall|k: Seq<char>| #[trigger] index2.contains_key(k) implies extent_holds(
        after,
        index2[k],
        encoding(Record::Put { key: k, value: m2[k] }),
    ) by {
        if r is Put && k == r.key() {
            assert(after[n].id == meta.file_index);
            assert(after[n].data.subrange(
                meta.position as int,
                meta.position + encoding(r).len(),
            ) =~= encoding(r));
        } else {
            assert(index.contains_key(k));
            let bytes = encoding(Record::Put { key: k, value: m[k] });
            let j = choose|j: int|
                0 <= j < segs.len() && (#[trigger] segs[j]).id == index[k].file_index
                    && index[k].length == bytes.len() && occurs_at(
                    segs[j].data,
                    index[k].position as int,
                    bytes,
                );
            if j == n {
                lemma_occurs_at_extend(segs[j].data, encoding(r), index[k].position as int, bytes);
            }
            assert(after[j].id == index[k].file_index);
        }
    }
}

/// A matching index still matches after an empty segment is added to the
/// directory.
pub proof fn lemma_new_segment_matches(
    segs: Seq<SegmentView>,
    index: Places,
    m: Contents,
    id: u64,
)
    requires
        index_matches(segs, index, m),
    ensures
        index_matches(segs.push(empty_segment(id)), index, m),
{
    let after = segs.push(empty_segment(id));
    assert forall|k: Seq<char>| #[trigger] index.contains_key(k) implies extent_holds(
        after,
        index[k],
        encoding(Record::Put { key: k, value: m[k] }),
    ) by {
        let bytes = encoding(Record::Put { key: k, value: m[k] });
        let j = choose|j: int|
            0 <= j < segs.len() && (#[trigger] segs[j]).id == index[k].file_index
                && index[k].length == bytes.len() && occurs_at(
                segs[j].data,
                index[k].position as int,
                bytes,
            );
        assert(after[j].id == index[k].file_index);
    }
}

/// An empty segment at the end of a directory changes neither the contents
/// nor what replay builds.
pub proof fn lemma_new_segment_replay(index: Places, segs: Seq<SegmentView>, id: u64)
    ensures
        dir_contents(segs.push(empty_segment(id))) == dir_contents(segs),
        replay_dir(index, segs.push(empty_segment(id))) == replay_dir(
            index,
            segs,
        ),
{
    let after = segs.push(empty_segment(id));
    assert(after.drop_last() =~= segs);
    lemma_empty_log();
}

/// The first `n` records of the last segment of a directory, replayed after
/// the segments before it, give an index that matches the contents.
proof fn lemma_replay_log_matches(segs: Seq<SegmentView>, index: Places, m: Contents, n: int)
    requires
        segs.len() > 0,
        valid_log(segs.last().data),
        segs.last().data.len() <= u64::MAX,
        0 <= n <= records_of(segs.last().data).len(),
        index_matches(segs.drop_last(), index, m),
    ensures
        ({
            let rs = records_of(segs.last().data).take(n);
            let part = segs.update(
                segs.len() - 1,
                SegmentView { id: segs.last().id, data: log_bytes(rs) },
            );
            let st = replay_log(fresh(index), segs.last().id, rs);
            index_matches(part, st.index, apply_all(m, rs))
        }),
    decreases n,
{
    let id = segs.last().id;
    let all = records_of(segs.last().data);
    let rs = all.take(n);
    let part = segs.update(segs.len() - 1, SegmentView { id, data: log_bytes(rs) });
    if n == 0 {
        assert(rs =~= Seq::<Record>::empty());
        assert(log_bytes(rs) =~= Seq::<u8>::empty());
        lemma_new_segment_matches(segs.drop_last(), index, m, id);
        assert(part =~= segs.drop_last().push(empty_segment(id)));
    } else {
        let before = all.take(n - 1);
        let r = all[n - 1];
        lemma_replay_log_matches(segs, index, m, n - 1);
        let part0 = segs.update(segs.len() - 1, SegmentView { id, data: log_bytes(before) });
        let st0 = replay_log(fresh(index), id, before);
        assert(rs =~= before.push(r));
        lemma_log_push(before, r);
        lemma_replay_log_push(fresh(index), id, before, r);
        lemma_apply_all_push(m, before, r);
        assert(log_bytes(rs).len() <= segs.last().data.len()) by {
            assert(rs + all.skip(n) =~= all);
            lemma_log_concat(rs, all.skip(n));
        }
        lemma_append_matches(part0, st0.index, apply_all(m, before), r);
        assert(dir_append(part0, encoding(r)) =~= part);
    }
}

/// Replay builds an index that matches the contents: each entry is the
/// place of the record that sets its key to the key's current value, and the
/// keys without an entry are those that were never set or were removed last.
pub proof fn lemma_replay_matches(segs: Seq<SegmentView>)
    requires
        all_valid(segs),
        all_fit(segs),
    ensures
        index_matches(segs, replay_dir(Map::empty(), segs).index, dir_contents(segs)),
    decreases segs.len(),
{
    if segs.len() > 0 {
        let init = segs.drop_last();
        assert(all_valid(init)) by {
            assert forall|i: int| 0 <= i < init.len() implies valid_log(
                #[trigger] init[i].data,
            ) by {
                assert(init[i] == segs[i]);
            }
        }
        assert(all_fit(init)) by {
            assert forall|i: int| 0 <= i < init.len() implies (#[trigger] init[i]).data.len()
                <= u64::MAX by {
                assert(init[i] == segs[i]);
            }
        }
        lemma_replay_matches(init);
        let last = segs.last();
        assert(segs[segs.len() - 1] == last);
        let all = records_of(last.data);
        lemma_replay_log_matches(
            segs,
            replay_dir(Map::empty(), init).index,
            dir_contents(init),
            all.len() as int,
        );
        assert(all.take(all.len() as int) =~= all);
        assert(segs.update(segs.len() - 1, SegmentView { id: last.id, data: log_bytes(all) })
            =~= segs);
    }
}

/// Applies one record of the log to the index.
///
/// `pos` is the offset at which the record starts in segment `file_index`
/// and `next_pos` the offset behind it. Returns the length of the record
/// that `command` displaces: the one that the index held for its key, or 0.
pub fn load_command(
    map: &mut Index,
    command: Command,
    file_index: u64,
    pos: u64,
    next_pos: u64,
) -> (stale: u64)
    requires
        old(map).wf(),
        pos <= next_pos,
    ensures
        final(map).wf(),
        final(map)@ == index_step(
            old(map)@,
            command@,
            place(file_index, pos as nat, (next_pos - pos) as nat),
        ),
        stale == displaced(old(map)@, command@.key()),
{
    let old_metadata = match command {
        Command::Put { key, value } => {
            map.insert(key, CommandMetadata { file_index, position: pos, length: next_pos - pos })
        },
        Command::Remove { key } => { map.remove(key.as_str()) },
    };
    match old_metadata {
        Some(metadata) => metadata.length,
        None => 0,
    }
}

/// Replays one segment into the index.
///
/// Reads the records of `data` from its start and applies each to `map`.
/// Returns the number of bytes of the records that were displaced on the
/// way, or `UnexpectedCommand` where `data` is not a log.
pub fn load_file(file_index: u64, data: &[u8], map: &mut Index) -> (r: Result<u64, KvsError>)
    requires
        old(map).wf(),
    ensures
        final(map).wf(),
        final(map)@ == replay_log(fresh(old(map)@), file_index, read_records(data@)).index,
        match r {
            Ok(stale) => {
                &&& valid_log(data@)
                &&& read_records(data@) == records_of(data@)
                &&& stale == replay_log(fresh(old(map)@), file_index, records_of(data@)).stale
            },
            Err(e) => e is UnexpectedCommand && !valid_log(data@),
        },
{
    let ghost start = fresh(map@);
    let ghost mut done: Seq<Record> = Seq::empty();
    let mut pos: usize = 0;
    let mut stale: u64 = 0;
    proof {
        assert(data@.subrange(0, 0) =~= log_bytes(done));
    }
    loop
        invariant
            map.wf(),
            start == fresh(old(map)@),
            pos <= data.len(),
            data@.subrange(0, pos as int) == log_bytes(done),
            map@ == replay_log(start, file_index, done).index,
            stale == replay_log(start, file_index, done).stale,
        decreases data.len() - pos,
    {
        match decode_command(data, pos) {
            Err(e) => {
                proof {
                    lemma_log_broken(data@, pos as int, done);
                    assert(readable(data@, done));
                    lemma_readable_unique(data@, done, read_records(data@));
                }
                return Err(e);
            },
            Ok(None) => {
                proof {
                    assert(data@.subrange(0, pos as int) =~= data@);
                    lemma_records_of_log(done);
                    lemma_read_log(data@);
                }
                return Ok(stale);
            },
            Ok(Some((command, next_pos))) => {
                proof {
                    lemma_log_extend(data@, pos as int, done, command@);
                    lemma_replay_log_push(start, file_index, done, command@);
                    done = done.push(command@);
                }
                let displaced = load_command(map, command, file_index, pos as u64, next_pos as u64);
                stale = stale.saturating_add(displaced);
                pos = next_pos;
            },
        }
    }
}

/// Replays the segments of a directory, in their order, into the index.
///
/// Returns the number of bytes of the records that were displaced on the
/// way, or `UnexpectedCommand` where one of the segments is not a log.
pub fn load_files(segments: &Vec<Segment>, map: &mut Index) -> (r: Result<u64, KvsError>)
    requires
        old(map).wf(),
    ensures
        final(map).wf(),
        final(map)@ == replay_while_valid(old(map)@, dir_view(segments@)),
        match r {
            Ok(stale) => {
                &&& all_valid(dir_view(segments@))
                &&& final(map)@ == replay_dir(old(map)@, dir_view(segments@)).index
                &&& stale == replay_dir(old(map)@, dir_view(segments@)).stale
            },
            Err(e) => e is UnexpectedCommand && !all_valid(dir_view(segments@)),
        },
{
    let ghost segs = dir_view(segments@);
    let ghost start = map@;
    let mut total: u64 = 0;
    let mut i: usize = 0;
    proof {
        assert(segs.skip(0) =~= segs);
    }
    while i < segments.len()
        invariant
            map.wf(),
            i <= segments.len(),
            segs == dir_view(segments@),
            all_valid(segs.take(i as int)),
            start == old(map)@,
            replay_while_valid(start, segs) == replay_while_valid(map@, segs.skip(i as int)),
            map@ == replay_dir(start, segs.take(i as int)).index,
            total == replay_dir(start, segs.take(i as int)).stale,
        decreases segments.len() - i,
    {
        let ghost before = segs.take(i as int);
        let ghost upto = segs.take(i as int + 1);
        proof {
            assert(segs.skip(i as int)[0] == segs[i as int]);
            assert(segs.skip(i as int).skip(1) =~= segs.skip(i as int + 1));
            assert(upto.drop_last() =~= before);
            assert(upto.last() == segs[i as int]);
            assert(segs[i as int] == segments@[i as int]@);
        }
        match load_file(segments[i].id, segments[i].data.as_slice(), map) {
            Err(e) => {
                proof {
                    assert(!valid_log(segs[i as int].data));
                }
                return Err(e);
            },
            Ok(stale) => {
                total = total.saturating_add(stale);
                proof {
                    assert forall|j: int| 0 <= j < upto.len() implies valid_log(
                        #[trigger] upto[j].data,
                    ) by {
                        if j < i {
                            assert(before[j] == upto[j]);
                        }
                    }
                }
            },
        }
        i += 1;
    }
    proof {
        assert(segs.take(segments.len() as int) =~= segs);
        assert(segs.skip(segments.len() as int) =~= Seq::<SegmentView>::empty());
    }
    Ok(total)
}

} // verus!
