//! What the store promises over time.
//!
//! The operations of a store have contracts that say how each of them
//! changes the contents. The theorems here say what follows for whole
//! histories: the last write to a key wins, a store that is opened again on
//! its directory holds what it held, opening is idempotent on the index, a
//! compacted directory is as large as the live records and no larger, and a
//! key that is overwritten again and again makes the store compact.

use crate::command::{encoding, Record};
use crate::compaction::{
    keys_rise,
    lemma_log_size,
    lists_live_keys,
    live_records,
    records_size,
    total_size,
};
use crate::kv::{compaction_of, lemma_opened_valid, next_id, opened, settled, StoreState};
use crate::replay::{
    apply,
    apply_all,
    lemma_apply_all_push,
    lemma_new_segment_replay,
    Contents,
};
use crate::segment::{log_bytes, SegmentView};
use vstd::prelude::*;

verus! {

/// The contents of a store that started empty and saw the writes `ops`:
/// each `Put` stands for a `set`, each `Remove` for a `remove`. A `remove` of
/// an absent key fails and changes nothing, which is what applying its
/// record does.
pub open spec fn contents_after(ops: Seq<Record>) -> Contents {
    apply_all(Map::empty(), ops)
}

/// Whether no write behind position `i` of `ops` is to `key`.
pub open spec fn last_on_key(ops: Seq<Record>, i: int, key: Seq<char>) -> bool {
    forall|j: int| i < j < ops.len() ==> (#[trigger] ops[j]).key() != key
}

/// Whether the last write to `key` in `ops` sets it to `value`.
pub open spec fn last_write_sets(ops: Seq<Record>, key: Seq<char>, value: Seq<char>) -> bool {
    exists|i: int|
        0 <= i < ops.len() && #[trigger] ops[i] == (Record::Put { key, value }) && last_on_key(
            ops,
            i,
            key,
        )
}

/// The last write wins: after any history of writes, a key has the value
/// `value` exactly when the last write to it set it to `value`.
pub proof fn lemma_last_write_wins(ops: Seq<Record>, key: Seq<char>, value: Seq<char>)
    ensures
        (contents_after(ops).contains_key(key) && contents_after(ops)[key] == value)
            <==> last_write_sets(ops, key, value),
    decreases ops.len(),
{
    if ops.len() > 0 {
        let init = ops.drop_last();
        let last = ops.last();
        let n = ops.len() - 1;
        lemma_last_write_wins(init, key, value);
        assert(init.push(last) =~= ops);
        lemma_apply_all_push(Map::empty(), init, last);
        let before = contents_after(init);
        let after = contents_after(ops);
        assert(after == apply(before, last));
        if after.contains_key(key) && after[key] == value {
            if last.key() == key {
                assert(ops[n] == (Record::Put { key, value }));
                assert(last_on_key(ops, n, key));
            } else {
                let i = choose|i: int|
                    0 <= i < init.len() && #[trigger] init[i] == (Record::Put { key, value })
                        && last_on_key(init, i, key);
                assert(ops[i] == init[i]);
                assert(last_on_key(ops, i, key)) by {
                    assert forall|j: int| i < j < ops.len() implies (#[trigger] ops[j]).key()
                        != key by {
                        if j < n {
                            assert(ops[j] == init[j]);
                        }
                    }
                }
            }
        }
        if last_write_sets(ops, key, value) {
            let i = choose|i: int|
                0 <= i < ops.len() && #[trigger] ops[i] == (Record::Put { key, value })
                    && last_on_key(ops, i, key);
            if i < n {
                assert(ops[n].key() != key);
                assert(init[i] == ops[i]);
                assert(last_on_key(init, i, key)) by {
                    assert forall|j: int| i < j < init.len() implies (#[trigger] init[j]).key()
                        != key by {
                        assert(init[j] == ops[j]);
                    }
                }
                assert(last_write_sets(init, key, value));
            }
        }
    }
}

/// Durability: a store that is opened again on its own directory is valid
/// and holds the contents and the index that it held.
///
/// The id of the active segment must leave room for that of the segment
/// which opening adds.
pub proof fn lemma_reopen_preserves(s: StoreState, threshold: u64)
    requires
        s.valid(),
        s.current_index < u64::MAX,
    ensures
        opened(s.segments, threshold).valid(),
        opened(s.segments, threshold).contents() == s.contents(),
        opened(s.segments, threshold).index == s.index,
{
    lemma_opened_valid(s.segments, threshold);
    lemma_new_segment_replay(Map::empty(), s.segments, next_id(s.segments));
}

/// Replay is idempotent: opening a directory, and opening again what the
/// first opening left, give the same index.
pub proof fn lemma_replay_idempotent(segs: Seq<SegmentView>, threshold: u64)
    ensures
        opened(opened(segs, threshold).segments, threshold).index == opened(segs, threshold).index,
{
    lemma_new_segment_replay(Map::empty(), segs, next_id(segs));
}

/// Compaction reclaims space: the segments of a compacted store take up as
/// many bytes as the records of the live keys, one for each key, and no
/// more.
pub proof fn lemma_compaction_reclaims(before: StoreState, after: StoreState)
    requires
        compaction_of(before, after),
    ensures
        exists|keys: Seq<Seq<char>>|
            lists_live_keys(keys, before.contents()) && total_size(after.segments) == records_size(
                #[trigger] live_records(keys, before.contents()),
            ),
{
    let m = before.contents();
    let keys = choose|keys: Seq<Seq<char>>|
        lists_live_keys(keys, m) && keys_rise(keys) && after.segments[0].data == log_bytes(
            #[trigger] live_records(keys, m),
        );
    lemma_log_size(live_records(keys, m));
    let segs = after.segments;
    assert(segs.drop_last().drop_last() =~= Seq::<SegmentView>::empty());
    assert(segs.drop_last().last() == segs[0]);
    assert(segs.last() == segs[1]);
    assert(total_size(segs.drop_last().drop_last()) == 0);
    assert(total_size(segs.drop_last()) == segs[0].data.len());
    assert(total_size(segs) == segs[0].data.len() + segs[1].data.len());
}

/// Whether `states` are the states that a store goes through when the
/// records `writes` are written to it one after the other: each record is
/// appended to the state before it, and the store is then settled.
pub open spec fn is_run(states: Seq<StoreState>, writes: Seq<Record>) -> bool {
    &&& states.len() == writes.len() + 1
    &&& forall|i: int| 0 <= i < states.len() ==> (#[trigger] states[i]).valid()
    &&& forall|i: int|
        0 <= i < writes.len() ==> settled(
            states[i].appended(#[trigger] writes[i]),
            states[i + 1],
        )
}

/// Whether write `i` of a run compacts the log.
pub open spec fn compacts(states: Seq<StoreState>, writes: Seq<Record>, i: int) -> bool {
    states[i].appended(writes[i]).compactable()
}

/// After every write the stale bytes are within the threshold, as long as
/// segment ids are left; after a write that compacts, no byte is stale.
pub proof fn lemma_stale_within_threshold(states: Seq<StoreState>, writes: Seq<Record>, i: int)
    requires
        is_run(states, writes),
        0 <= i < writes.len(),
        states[i].current_index <= u64::MAX - 2,
    ensures
        states[i + 1].threshold == states[i].threshold,
        states[i + 1].uncompacted <= states[i + 1].threshold,
        compacts(states, writes, i) ==> states[i + 1].uncompacted == 0,
{
    assert(settled(states[i].appended(writes[i]), states[i + 1]));
}

/// As long as no write of a run compacts, writes that set one key again
/// and again count each record but the last as stale.
proof fn lemma_overwrites_count(
    states: Seq<StoreState>,
    writes: Seq<Record>,
    key: Seq<char>,
    k: int,
)
    requires
        is_run(states, writes),
        forall|i: int| 0 <= i < writes.len() ==> (#[trigger] writes[i]) is Put && writes[i].key() == key,
        states[0].current_index <= u64::MAX - 2,
        states[0].threshold < u64::MAX,
        1 <= k <= writes.len(),
        forall|i: int| 0 <= i < k ==> !compacts(states, writes, i),
    ensures
        states[k].current_index == states[0].current_index,
        states[k].threshold == states[0].threshold,
        states[k].index.contains_key(key),
        states[k].index[key].length == encoding(writes[k - 1]).len(),
        records_size(writes.take(k - 1)) <= states[k].uncompacted <= states[0].threshold,
    decreases k,
{
    let before = states[k - 1];
    let w = writes[k - 1];
    let after = states[k];
    assert(w is Put && w.key() == key);
    assert(!compacts(states, writes, k - 1));
    assert(settled(before.appended(w), after));
    assert(after == before.appended(w));
    assert(after.valid());
    let n = before.segments.len() - 1;
    assert(after.segments[n].data == before.segments.last().data + encoding(w));
    assert(after.segments[n].data.len() <= u64::MAX);
    if k == 1 {
        assert(writes.take(0) =~= Seq::<Record>::empty());
    } else {
        lemma_overwrites_count(states, writes, key, k - 1);
        assert(writes.take(k - 1).drop_last() =~= writes.take(k - 2));
        assert(writes.take(k - 1).last() == writes[k - 2]);
    }
}

/// Overwriting compacts: where a run sets one key again and again, and the
/// records written before the last one take up more bytes than the
/// threshold, one of the writes compacts the log. Segment ids must be left
/// at the start, and the threshold must be below the largest number.
pub proof fn lemma_overwrites_compact(
    states: Seq<StoreState>,
    writes: Seq<Record>,
    key: Seq<char>,
)
    requires
        is_run(states, writes),
        writes.len() >= 1,
        forall|i: int| 0 <= i < writes.len() ==> (#[trigger] writes[i]) is Put && writes[i].key() == key,
        states[0].current_index <= u64::MAX - 2,
        states[0].threshold < u64::MAX,
        records_size(writes.drop_last()) > states[0].threshold,
    ensures
        exists|i: int| 0 <= i < writes.len() && compacts(states, writes, i),
{
    if forall|i: int| 0 <= i < writes.len() ==> !compacts(states, writes, i) {
        lemma_overwrites_count(states, writes, key, writes.len() as int);
        assert(writes.take(writes.len() - 1) =~= writes.drop_last());
    }
}

} // verus!
