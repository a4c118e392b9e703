//! What compaction writes: one record for each live key.
//!
//! A compacted segment holds, for each live key in the order of the keys, the
//! record that sets the key to its current value, and nothing else. Replaying such
//! a segment gives the contents back, displaces nothing, and puts each key
//! at the offset at which its record was written.

use crate::command::{encoding, Record};
use crate::index::precedes;
use crate::replay::{
    apply_all,
    fresh,
    lemma_apply_all_push,
    lemma_replay_log_push,
    place,
    replay_log,
    Contents,
};
use crate::segment::{log_bytes, SegmentView};
use vstd::prelude::*;
use vstd::utf8::*;

verus! {

/// The records that set each of `keys`, in this order, to its value in `m`.
pub open spec fn live_records(keys: Seq<Seq<char>>, m: Contents) -> Seq<Record> {
    Seq::new(keys.len(), |i: int| Record::Put { key: keys[i], value: m[keys[i]] })
}

/// Whether `k` is one of `keys`.
pub open spec fn among(keys: Seq<Seq<char>>, k: Seq<char>) -> bool {
    exists|j: int| 0 <= j < keys.len() && #[trigger] keys[j] == k
}

/// Whether `keys` lists the live keys of `m`, each of them once.
pub open spec fn lists_live_keys(keys: Seq<Seq<char>>, m: Contents) -> bool {
    &&& keys.no_duplicates()
    &&& forall|k: Seq<char>| among(keys, k) <==> m.contains_key(k)
}

/// Whether the keys rise in the order of their bytes.
pub open spec fn keys_rise(keys: Seq<Seq<char>>) -> bool {
    forall|i: int, j: int|
        0 <= i < j < keys.len() ==> precedes(encode_utf8(keys[i]), encode_utf8(keys[j]))
}

/// Whether `data` is the compacted image of `m`: a log with exactly one
/// record for each live key, which sets the key to its value; the records
/// stand in the order of their keys.
pub open spec fn live_image(data: Seq<u8>, m: Contents) -> bool {
    exists|keys: Seq<Seq<char>>|
        lists_live_keys(keys, m) && keys_rise(keys) && data == log_bytes(
            #[trigger] live_records(keys, m),
        )
}

/// The number of bytes that the records `rs` take up.
pub open spec fn records_size(rs: Seq<Record>) -> nat
    decreases rs.len(),
{
    if rs.len() == 0 {
        0
    } else {
        records_size(rs.drop_last()) + encoding(rs.last()).len()
    }
}

/// The number of bytes in all the segments of a directory.
pub open spec fn total_size(segs: Seq<SegmentView>) -> nat
    decreases segs.len(),
{
    if segs.len() == 0 {
        0
    } else {
        total_size(segs.drop_last()) + segs.last().data.len()
    }
}

/// A log is as long as its records together.
pub proof fn lemma_log_size(rs: Seq<Record>)
    ensures
        log_bytes(rs).len() == records_size(rs),
    decreases rs.len(),
{
    if rs.len() > 0 {
        lemma_log_size(rs.drop_last());
    }
}

/// Replaying the first `k` records of a compacted image, from an empty
/// index, displaces nothing, gives each of their keys its value, and puts
/// each key at the offset at which its record stands.
pub proof fn lemma_replay_puts(id: u64, keys: Seq<Seq<char>>, m: Contents, k: int)
    requires
        keys.no_duplicates(),
        0 <= k <= keys.len(),
    ensures
        ({
            let all = live_records(keys, m);
            let st = replay_log(fresh(Map::empty()), id, all.take(k));
            let c = apply_all(Map::empty(), all.take(k));
            &&& st.stale == 0
            &&& forall|x: Seq<char>|
                st.index.contains_key(x) <==> exists|j: int| 0 <= j < k && #[trigger] keys[j] == x
            &&& forall|j: int|
                0 <= j < k ==> st.index[#[trigger] keys[j]] == place(
                    id,
                    log_bytes(all.take(j)).len(),
                    encoding(all[j]).len(),
                )
            &&& forall|x: Seq<char>|
                c.contains_key(x) <==> exists|j: int| 0 <= j < k && #[trigger] keys[j] == x
            &&& forall|j: int| 0 <= j < k ==> c[#[trigger] keys[j]] == m[keys[j]]
        }),
    decreases k,
{
    let all = live_records(keys, m);
    if k == 0 {
        assert(all.take(0) =~= Seq::<Record>::empty());
    } else {
        lemma_replay_puts(id, keys, m, k - 1);
        let before = all.take(k - 1);
        let r = all[k - 1];
        assert(all.take(k) =~= before.push(r));
        lemma_replay_log_push(fresh(Map::empty()), id, before, r);
        lemma_apply_all_push(Map::empty(), before, r);
        let st0 = replay_log(fresh(Map::empty()), id, before);
        let c0 = apply_all(Map::empty(), before);
        let st = replay_log(fresh(Map::empty()), id, all.take(k));
        let c = apply_all(Map::empty(), all.take(k));
        assert(!st0.index.contains_key(keys[k - 1])) by {
            if st0.index.contains_key(keys[k - 1]) {
                let j = choose|j: int| 0 <= j < k - 1 && #[trigger] keys[j] == keys[k - 1];
                assert(keys[j] == keys[k - 1]);
            }
        }
        assert forall|x: Seq<char>|
            st.index.contains_key(x) <==> exists|j: int| 0 <= j < k && #[trigger] keys[j] == x by {
            if st.index.contains_key(x) {
                if x == keys[k - 1] {
                    assert(keys[k - 1] == x);
                } else {
                    let j = choose|j: int| 0 <= j < k - 1 && #[trigger] keys[j] == x;
                    assert(0 <= j < k && keys[j] == x);
                }
            }
            if exists|j: int| 0 <= j < k && #[trigger] keys[j] == x {
                let j = choose|j: int| 0 <= j < k && #[trigger] keys[j] == x;
                if j < k - 1 {
                    assert(0 <= j < k - 1 && keys[j] == x);
                }
            }
        }
        assert forall|x: Seq<char>|
            c.contains_key(x) <==> exists|j: int| 0 <= j < k && #[trigger] keys[j] == x by {
            if c.contains_key(x) {
                if x == keys[k - 1] {
                    assert(keys[k - 1] == x);
                } else {
                    let j = choose|j: int| 0 <= j < k - 1 && #[trigger] keys[j] == x;
                    assert(0 <= j < k && keys[j] == x);
                }
            }
            if exists|j: int| 0 <= j < k && #[trigger] keys[j] == x {
                let j = choose|j: int| 0 <= j < k && #[trigger] keys[j] == x;
                if j < k - 1 {
                    assert(0 <= j < k - 1 && keys[j] == x);
                }
            }
        }
        assert forall|j: int| 0 <= j < k implies st.index[#[trigger] keys[j]] == place(
            id,
            log_bytes(all.take(j)).len(),
            encoding(all[j]).len(),
        ) by {
            if j < k - 1 {
                assert(keys[j] != keys[k - 1]);
            }
        }
        assert forall|j: int| 0 <= j < k implies c[#[trigger] keys[j]] == m[keys[j]] by {
            if j < k - 1 {
                assert(keys[j] != keys[k - 1]);
            }
        }
    }
}

} // verus!
