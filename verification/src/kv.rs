//! The storage engine.
//!
//! A [`KvStore`] owns a directory of segments and the index into it. Writes
//! append a record to the active segment, the one with the largest id, and
//! update the index; reads follow the index into the log. The index is always
//! exactly what replaying the directory would build, so a store that is
//! dropped and opened again on the same directory holds the same contents.

use crate::command::{
    decode_command,
    encoding,
    lemma_encoding_nonempty,
    lemma_record_at_unique,
    record_at,
    Command,
    Record,
};
use crate::compaction::{
    among,
    keys_rise,
    lemma_replay_puts,
    lists_live_keys,
    live_image,
    live_records,
};
use crate::error::KvsError;
use crate::index::{
    distinct_keys,
    entries_map,
    has_key,
    lemma_entry_in_map,
    position_of,
    precedes,
    same_text,
    sorted_keys,
    CommandMetadata,
    Index,
    IndexEntry,
};
use crate::journal::{
    deletions,
    effects,
    holds_id,
    image_of,
    lemma_deletions,
    lemma_image_append,
    lemma_image_pair,
    lemma_image_push,
    lemma_perform_concat,
    perform_all,
    DiskAction,
    DiskImage,
    Effect,
    Journal,
};
use crate::quoting::occurs_at;
use crate::replay::{
    all_fit,
    all_valid,
    apply,
    apply_all,
    ascending,
    dir_append,
    dir_contents,
    dir_view,
    displaced,
    empty_segment,
    extent_holds,
    fresh,
    index_matches,
    index_step,
    lemma_apply_all_push,
    lemma_new_segment_replay,
    lemma_replay_log_push,
    lemma_replay_matches,
    load_command,
    load_files,
    place,
    replay_dir,
    replay_log,
    Contents,
    Places,
};
use crate::segment::{
    lemma_empty_log,
    lemma_log_append,
    lemma_log_push,
    lemma_records_of_log,
    log_bytes,
    records_of,
    valid_log,
    Segment,
    SegmentView,
};
use vstd::prelude::*;
use vstd::utf8::*;

verus! {

/// The number of stale bytes above which a write compacts the log, unless
/// the store was opened with another threshold.
pub const COMPACTION_THRESHOLD: u64 = 1024 * 1024;

/// The mathematical value of a [`KvStore`].
pub struct StoreState {
    /// The directory: the segments in ascending order of their ids.
    pub segments: Seq<SegmentView>,
    /// The place of the latest record of each live key.
    pub index: Places,
    /// The id of the active segment.
    pub current_index: u64,
    /// An estimate of the bytes taken up by records that are no longer live.
    pub uncompacted: u64,
    /// The number of stale bytes above which a write compacts the log.
    pub threshold: u64,
}

/// The record that sets `key` to `value`.
pub open spec fn put_record(key: Seq<char>, value: Seq<char>) -> Record {
    Record::Put { key, value }
}

/// The record that removes `key`.
pub open spec fn remove_record(key: Seq<char>) -> Record {
    Record::Remove { key }
}

/// The creation of the file of segment `id`.
pub open spec fn created(id: u64) -> Effect {
    Effect::Create { id }
}

/// The appending of `data` to the file of segment `id`.
pub open spec fn extended(id: u64, data: Seq<u8>) -> Effect {
    Effect::Append { id, data }
}

/// The id of the segment that a store opens for writing on a directory.
pub open spec fn next_id(segs: Seq<SegmentView>) -> u64 {
    if segs.len() == 0 {
        1
    } else {
        (segs.last().id + 1) as u64
    }
}

/// The store that opening the directory `segs` gives: the index and the
/// stale bytes are those of replay, and a fresh segment is the active one.
pub open spec fn opened(segs: Seq<SegmentView>, threshold: u64) -> StoreState {
    StoreState {
        segments: segs.push(empty_segment(next_id(segs))),
        index: replay_dir(Map::empty(), segs).index,
        current_index: next_id(segs),
        uncompacted: replay_dir(Map::empty(), segs).stale,
        threshold,
    }
}

/// The store made of the given parts.
pub open spec fn store_of(
    segments: Seq<SegmentView>,
    index: Places,
    current_index: u64,
    uncompacted: u64,
    threshold: u64,
) -> StoreState {
    StoreState { segments, index, current_index, uncompacted, threshold }
}

impl StoreState {
    /// The contents of the store: what its log says.
    pub open spec fn contents(self) -> Contents {
        dir_contents(self.segments)
    }

    /// The invariant of a store. The segment ids rise, the last segment is
    /// the active one, every segment is a log, and the index is what replay
    /// builds from the directory.
    pub open spec fn valid(self) -> bool {
        &&& self.segments.len() > 0
        &&& ascending(self.segments)
        &&& self.segments.last().id == self.current_index
        &&& all_valid(self.segments)
        &&& all_fit(self.segments)
        &&& self.index == replay_dir(Map::empty(), self.segments).index
    }

    /// The store after the record `r` was appended to the active segment:
    /// the index follows the record, and the record that it displaces, if
    /// any, is counted as stale.
    pub open spec fn appended(self, r: Record) -> StoreState {
        StoreState {
            segments: dir_append(self.segments, encoding(r)),
            index: index_step(
                self.index,
                r,
                place(self.current_index, self.segments.last().data.len(), encoding(r).len()),
            ),
            current_index: self.current_index,
            uncompacted: self.uncompacted.saturating_add(displaced(self.index, r.key())),
            threshold: self.threshold,
        }
    }

    /// Whether compaction is due: more bytes are stale than the threshold
    /// allows, and two more segment ids can be had.
    pub open spec fn compactable(self) -> bool {
        self.uncompacted > self.threshold && self.current_index <= u64::MAX - 2
    }
}

/// In a valid store the index matches the contents: a key has an entry
/// exactly when it is live, and the entry is the place of the record that
/// sets the key to its current value.
pub proof fn lemma_valid_matches(s: StoreState)
    requires
        s.valid(),
    ensures
        index_matches(s.segments, s.index, s.contents()),
{
    lemma_replay_matches(s.segments);
}

/// Appending a record to a valid store gives a valid store whose contents
/// are the old ones with the record applied.
pub proof fn lemma_appended_valid(s: StoreState, r: Record)
    requires
        s.valid(),
        s.segments.last().data.len() + encoding(r).len() <= u64::MAX,
    ensures
        s.appended(r).valid(),
        s.appended(r).contents() == apply(s.contents(), r),
{
    let after = s.appended(r);
    let n = s.segments.len() - 1;
    let last = s.segments.last();
    assert(s.segments[n] == last);
    let rs = records_of(last.data);
    assert(valid_log(last.data));
    assert(log_bytes(rs) == last.data);
    lemma_log_append(last.data, r);
    assert(after.segments.drop_last() =~= s.segments.drop_last());
    assert(after.segments.last().data == last.data + encoding(r));
    let before = replay_dir(Map::empty(), s.segments.drop_last());
    lemma_replay_log_push(fresh(before.index), last.id, rs, r);
    lemma_apply_all_push(dir_contents(s.segments.drop_last()), rs, r);
    assert forall|i: int| 0 <= i < after.segments.len() implies valid_log(
        #[trigger] after.segments[i].data,
    ) by {
        if i < n {
            assert(after.segments[i] == s.segments[i]);
        }
    }
    assert forall|i: int| 0 <= i < after.segments.len() implies (#[trigger] after.segments[i]).data.len()
        <= u64::MAX by {
        if i < n {
            assert(after.segments[i] == s.segments[i]);
        }
    }
    assert forall|i: int, j: int| 0 <= i < j < after.segments.len() implies after.segments[i].id
        < after.segments[j].id by {
        assert(after.segments[i].id == s.segments[i].id);
        assert(after.segments[j].id == s.segments[j].id);
    }
}

/// Opening a directory of logs gives a valid store with the contents of the
/// directory.
pub proof fn lemma_opened_valid(segs: Seq<SegmentView>, threshold: u64)
    requires
        ascending(segs),
        all_valid(segs),
        all_fit(segs),
        segs.len() > 0 ==> segs.last().id < u64::MAX,
    ensures
        opened(segs, threshold).valid(),
        opened(segs, threshold).contents() == dir_contents(segs),
{
    let s = opened(segs, threshold);
    let id = next_id(segs);
    lemma_new_segment_replay(Map::empty(), segs, id);
    lemma_empty_log();
    assert forall|i: int| 0 <= i < s.segments.len() implies valid_log(
        #[trigger] s.segments[i].data,
    ) by {
        if i < segs.len() {
            assert(s.segments[i] == segs[i]);
        }
    }
    assert forall|i: int| 0 <= i < s.segments.len() implies (#[trigger] s.segments[i]).data.len()
        <= u64::MAX by {
        if i < segs.len() {
            assert(s.segments[i] == segs[i]);
        }
    }
    assert forall|i: int, j: int| 0 <= i < j < s.segments.len() implies s.segments[i].id
        < s.segments[j].id by {
        if j < segs.len() {
            assert(s.segments[j] == segs[j]);
        } else {
            assert(s.segments[i] == segs[i]);
            if i < segs.len() - 1 {
                assert(segs[i].id < segs[segs.len() - 1].id);
            }
        }
    }
}

/// A persistent key–value store: a directory of log segments with an index
/// from each live key to the place of its latest record.
pub struct KvStore {
    segments: Vec<Segment>,
    map: Index,
    current_index: u64,
    uncompacted_bytes: u64,
    threshold: u64,
    journal: Journal,
}

impl View for KvStore {
    type V = StoreState;

    closed spec fn view(&self) -> StoreState {
        StoreState {
            segments: dir_view(self.segments@),
            index: self.map@,
            current_index: self.current_index,
            uncompacted: self.uncompacted_bytes,
            threshold: self.threshold,
        }
    }
}

/// Reads the record that lies at `metadata` in the segment `data`.
///
/// `Ok` exactly when the bytes of the extent are the encoding of a record;
/// `UnexpectedCommand` when the extent leaves the segment or holds anything
/// else.
pub fn read_command(data: &[u8], metadata: &CommandMetadata) -> (r: Result<Command, KvsError>)
    ensures
        match r {
            Ok(c) => metadata.length == encoding(c@).len() && record_at(
                data@,
                metadata.position as int,
                c@,
            ),
            Err(e) => e is UnexpectedCommand && forall|rec: Record|
                !(metadata.length == encoding(rec).len() && record_at(
                    data@,
                    metadata.position as int,
                    rec,
                )),
        },
{
    if metadata.position > data.len() as u64 {
        return Err(KvsError::UnexpectedCommand);
    }
    let pos = metadata.position as usize;
    match decode_command(data, pos) {
        Ok(Some((command, next))) => {
            if (next - pos) as u64 == metadata.length {
                Ok(command)
            } else {
                proof {
                    assert forall|rec: Record|
                        !(metadata.length == encoding(rec).len() && record_at(
                            data@,
                            metadata.position as int,
                            rec,
                        )) by {
                        if record_at(data@, metadata.position as int, rec) {
                            lemma_record_at_unique(data@, pos as int, rec, command@);
                        }
                    }
                }
                Err(KvsError::UnexpectedCommand)
            }
        },
        Ok(None) => {
            proof {
                assert forall|rec: Record|
                    !(metadata.length == encoding(rec).len() && record_at(
                        data@,
                        metadata.position as int,
                        rec,
                    )) by {
                    lemma_encoding_nonempty(rec);
                }
            }
            Err(KvsError::UnexpectedCommand)
        },
        Err(e) => Err(e),
    }
}

/// Whether `bytes` are what lies at `metadata` in the segment `seg`.
pub open spec fn lies_at(seg: SegmentView, metadata: CommandMetadata, bytes: Seq<u8>) -> bool {
    &&& seg.id == metadata.file_index
    &&& metadata.length == bytes.len()
    &&& occurs_at(seg.data, metadata.position as int, bytes)
}

/// In a directory with rising ids, an extent holds at most one record.
pub proof fn lemma_extent_unique(
    segs: Seq<SegmentView>,
    metadata: CommandMetadata,
    r1: Record,
    r2: Record,
)
    requires
        ascending(segs),
        extent_holds(segs, metadata, encoding(r1)),
        extent_holds(segs, metadata, encoding(r2)),
    ensures
        r1 == r2,
{
    let j1 = choose|j: int|
        0 <= j < segs.len() && (#[trigger] segs[j]).id == metadata.file_index && metadata.length
            == encoding(r1).len() && occurs_at(
            segs[j].data,
            metadata.position as int,
            encoding(r1),
        );
    let j2 = choose|j: int|
        0 <= j < segs.len() && (#[trigger] segs[j]).id == metadata.file_index && metadata.length
            == encoding(r2).len() && occurs_at(
            segs[j].data,
            metadata.position as int,
            encoding(r2),
        );
    if j1 < j2 {
        assert(segs[j1].id < segs[j2].id);
    }
    if j2 < j1 {
        assert(segs[j2].id < segs[j1].id);
    }
    lemma_record_at_unique(segs[j1].data, metadata.position as int, r1, r2);
}

/// Reads the value that the record at `metadata` gives to `key`.
///
/// The directory and the extent are taken as they come: nothing is assumed
/// of them. `Ok` exactly when a segment with the id of the extent holds
/// there, in exactly its length, a record that sets `key`; the result is
/// then the value of that record. `UnexpectedCommand` in every other case:
/// no such segment, an extent that leaves its segment, bytes that are no
/// record, the record of a removal, or a record for another key.
pub fn read_value(segments: &Vec<Segment>, metadata: &CommandMetadata, key: &str) -> (r: Result<
    String,
    KvsError,
>)
    ensures
        match r {
            Ok(v) => extent_holds(
                dir_view(segments@),
                *metadata,
                encoding(put_record(key@, v@)),
            ),
            Err(e) => e is UnexpectedCommand && forall|v: Seq<char>|
                !extent_holds(dir_view(segments@), *metadata, encoding(put_record(key@, v))),
        },
{
    let ghost segs = dir_view(segments@);
    let mut j: usize = 0;
    while j < segments.len()
        invariant
            j <= segments.len(),
            segs == dir_view(segments@),
            forall|k: int, v: Seq<char>|
                0 <= k < j ==> !#[trigger] lies_at(
                    segs[k],
                    *metadata,
                    encoding(put_record(key@, v)),
                ),
        decreases segments.len() - j,
    {
        let ghost seg = segs[j as int];
        proof {
            assert(seg == segments@[j as int]@);
        }
        if segments[j].id == metadata.file_index {
            match read_command(segments[j].data.as_slice(), metadata) {
                Ok(command) => {
                    let ghost read = command@;
                    match command {
                        Command::Put { key: found, value } => {
                            if same_text(found.as_str(), key) {
                                proof {
                                    assert(lies_at(
                                        segs[j as int],
                                        *metadata,
                                        encoding(put_record(key@, value@)),
                                    ));
                                }
                                return Ok(value);
                            }
                        },
                        Command::Remove { .. } => {},
                    }
                    proof {
                        assert forall|v: Seq<char>|
                            !#[trigger] lies_at(
                                seg,
                                *metadata,
                                encoding(put_record(key@, v)),
                            ) by {
                            if lies_at(seg, *metadata, encoding(put_record(key@, v))) {
                                lemma_record_at_unique(
                                    seg.data,
                                    metadata.position as int,
                                    put_record(key@, v),
                                    read,
                                );
                            }
                        }
                    }
                },
                Err(_) => {
                    proof {
                        assert forall|v: Seq<char>|
                            !#[trigger] lies_at(
                                seg,
                                *metadata,
                                encoding(put_record(key@, v)),
                            ) by {
                            assert(!(metadata.length == encoding(put_record(key@, v)).len()
                                && record_at(
                                seg.data,
                                metadata.position as int,
                                put_record(key@, v),
                            )));
                        }
                    }
                },
            }
        }
        proof {
            assert forall|k: int, v: Seq<char>| 0 <= k < j + 1 implies !#[trigger] lies_at(
                segs[k],
                *metadata,
                encoding(put_record(key@, v)),
            ) by {
                if k == j {
                    assert(segs[k] == seg);
                    assert(!lies_at(seg, *metadata, encoding(put_record(key@, v))));
                }
            }
        }
        j += 1;
    }
    proof {
        assert forall|v: Seq<char>|
            !extent_holds(segs, *metadata, encoding(put_record(key@, v))) by {
            let bytes = encoding(put_record(key@, v));
            if extent_holds(segs, *metadata, bytes) {
                let k = choose|k: int|
                    0 <= k < segs.len() && (#[trigger] segs[k]).id == metadata.file_index
                        && metadata.length == bytes.len() && occurs_at(
                        segs[k].data,
                        metadata.position as int,
                        bytes,
                    );
                assert(lies_at(segs[k], *metadata, bytes));
            }
        }
    }
    Err(KvsError::UnexpectedCommand)
}

impl KvStore {
    /// The invariant of the store: that of its index and that of its value.
    pub closed spec fn wf(&self) -> bool {
        &&& self.map.wf()
        &&& self@.valid()
        &&& self.journal.disk() == image_of(self@.segments)
    }

    /// The segment files as they were when the pending actions were last
    /// taken.
    pub closed spec fn synced(&self) -> DiskImage {
        self.journal.synced()
    }

    /// The effects of the actions on the segment files that are pending:
    /// performed in order on the files as they were, they make the files
    /// hold the segments of the store.
    pub closed spec fn pending(&self) -> Seq<Effect> {
        self.journal.pending()
    }

    /// What the invariant of the store says of its value: the value is
    /// valid, and the pending actions, performed on the files as they were
    /// when actions were last taken, make them hold the segments.
    pub proof fn lemma_wf(&self)
        requires
            self.wf(),
        ensures
            self@.valid(),
            perform_all(self.synced(), self.pending()) == image_of(self@.segments),
    {
    }

    /// Makes a store of its parts: the directory, the index into it, the id
    /// of the active segment and the count of stale bytes. The threshold is
    /// [`COMPACTION_THRESHOLD`].
    pub fn new(
        segments: Vec<Segment>,
        map: Index,
        current_index: u64,
        uncompacted_bytes: u64,
    ) -> (store: KvStore)
        requires
            map.wf(),
            store_of(
                dir_view(segments@),
                map@,
                current_index,
                uncompacted_bytes,
                COMPACTION_THRESHOLD,
            ).valid(),
        ensures
            store.wf(),
            store@ == store_of(
                dir_view(segments@),
                map@,
                current_index,
                uncompacted_bytes,
                COMPACTION_THRESHOLD,
            ),
            store.synced() == image_of(dir_view(segments@)),
            store.pending() == Seq::<Effect>::empty(),
    {
        let journal = Journal::start(Ghost(image_of(dir_view(segments@))));
        KvStore {
            segments,
            map,
            current_index,
            uncompacted_bytes,
            threshold: COMPACTION_THRESHOLD,
            journal,
        }
    }

    /// Opens a store on a directory, with the default threshold.
    ///
    /// The segments are replayed in their order to rebuild the index, and a
    /// fresh segment with the next id becomes the active one. Fails with
    /// `UnexpectedCommand` exactly when one of the segments is not a log.
    pub fn open(segments: Vec<Segment>) -> (r: Result<KvStore, KvsError>)
        requires
            ascending(dir_view(segments@)),
            segments.len() > 0 ==> segments@.last().id < u64::MAX,
        ensures
            match r {
                Ok(store) => {
                    &&& all_valid(dir_view(segments@))
                    &&& store.wf()
                    &&& store@ == opened(dir_view(segments@), COMPACTION_THRESHOLD)
                    &&& store@.contents() == dir_contents(dir_view(segments@))
                    &&& store.synced() == image_of(dir_view(segments@))
                    &&& store.pending() == seq![created(next_id(dir_view(segments@)))]
                },
                Err(e) => e is UnexpectedCommand && !all_valid(dir_view(segments@)),
            },
    {
        KvStore::open_with_threshold(segments, COMPACTION_THRESHOLD)
    }

    /// Opens a store on a directory as [`KvStore::open`] does, with
    /// `threshold` as the number of stale bytes above which a write compacts
    /// the log.
    pub fn open_with_threshold(segments: Vec<Segment>, threshold: u64) -> (r: Result<
        KvStore,
        KvsError,
    >)
        requires
            ascending(dir_view(segments@)),
            segments.len() > 0 ==> segments@.last().id < u64::MAX,
        ensures
            match r {
                Ok(store) => {
                    &&& all_valid(dir_view(segments@))
                    &&& store.wf()
                    &&& store@ == opened(dir_view(segments@), threshold)
                    &&& store@.contents() == dir_contents(dir_view(segments@))
                    &&& store.synced() == image_of(dir_view(segments@))
                    &&& store.pending() == seq![created(next_id(dir_view(segments@)))]
                },
                Err(e) => e is UnexpectedCommand && !all_valid(dir_view(segments@)),
            },
    {
        let ghost segs = dir_view(segments@);
        let mut map = Index::new();
        let stale = match load_files(&segments, &mut map) {
            Ok(stale) => stale,
            Err(e) => {
                return Err(e);
            },
        };
        let new_index: u64 = if segments.len() == 0 {
            1
        } else {
            segments[segments.len() - 1].id + 1
        };
        proof {
            if segments.len() > 0 {
                assert(segs.last() == segments@.last()@);
            }
            assert(new_index == next_id(segs));
            assert forall|i: int| 0 <= i < segs.len() implies (#[trigger] segs[i]).data.len()
                <= u64::MAX by {
                assert(segs[i].data == segments@[i].data@);
                assert(segments@[i].data.len() <= usize::MAX);
            }
            lemma_opened_valid(segs, threshold);
        }
        let mut journal = Journal::start(Ghost(image_of(segs)));
        journal.note(DiskAction::Create { id: new_index });
        let mut segments = segments;
        segments.push(Segment { id: new_index, data: Vec::new() });
        proof {
            assert(dir_view(segments@) =~= segs.push(empty_segment(new_index)));
            lemma_image_push(segs, new_index);
            assert(journal.pending() =~= seq![created(new_index)]);
        }
        Ok(
            KvStore {
                segments,
                map,
                current_index: new_index,
                uncompacted_bytes: stale,
                threshold,
                journal,
            },
        )
    }

    /// The position in the directory of the segment with the id `id`.
    fn find_segment(&self, id: u64) -> (r: Option<usize>)
        ensures
            match r {
                Some(j) => j < self.segments@.len() && self.segments@[j as int].id == id,
                None => forall|j: int| 0 <= j < self.segments@.len() ==> self.segments@[j].id != id,
            },
    {
        let mut j: usize = 0;
        while j < self.segments.len()
            invariant
                j <= self.segments@.len(),
                forall|k: int| 0 <= k < j ==> self.segments@[k].id != id,
            decreases self.segments.len() - j,
        {
            if self.segments[j].id == id {
                return Some(j);
            }
            j += 1;
        }
        None
    }

    /// The position in the directory of the segment in which `bytes` lie at
    /// `metadata`.
    fn locate(&self, metadata: &CommandMetadata, bytes: Ghost<Seq<u8>>) -> (j: usize)
        requires
            ascending(dir_view(self.segments@)),
            extent_holds(dir_view(self.segments@), *metadata, bytes@),
        ensures
            j < self.segments@.len(),
            metadata.length == bytes@.len(),
            occurs_at(self.segments@[j as int].data@, metadata.position as int, bytes@),
    {
        let ghost segs = dir_view(self.segments@);
        let ghost j0 = choose|j: int|
            0 <= j < segs.len() && (#[trigger] segs[j]).id == metadata.file_index
                && metadata.length == bytes@.len() && occurs_at(
                segs[j].data,
                metadata.position as int,
                bytes@,
            );
        proof {
            assert(segs[j0].id == self.segments@[j0].id);
        }
        match self.find_segment(metadata.file_index) {
            Some(j) => {
                proof {
                    assert(segs[j as int].id == metadata.file_index);
                    if j < j0 {
                        assert(segs[j as int].id < segs[j0].id);
                    }
                    if j0 < j {
                        assert(segs[j0].id < segs[j as int].id);
                    }
                    assert(segs[j as int].data == self.segments@[j as int].data@);
                }
                j
            },
            None => {
                assert(false);
                0
            },
        }
    }

    /// The value of `key`, or `None` where the key is not in the store.
    ///
    /// The index says where the latest record of the key lies; the value is
    /// read from there with [`read_value`], which checks the extent. In a
    /// store that keeps its invariant the check cannot fail. The store is
    /// left as it was.
    pub fn get(&mut self, key: String) -> (r: Result<Option<String>, KvsError>)
        requires
            old(self).wf(),
        ensures
            final(self).wf(),
            final(self)@ == old(self)@,
            final(self).synced() == old(self).synced(),
            final(self).pending() == old(self).pending(),
            match r {
                Ok(Some(value)) => {
                    &&& old(self)@.contents().contains_key(key@)
                    &&& old(self)@.contents()[key@] == value@
                },
                Ok(None) => !old(self)@.contents().contains_key(key@),
                Err(_) => false,
            },
    {
        proof {
            lemma_valid_matches(self@);
        }
        let ghost m = self@.contents();
        let metadata = match self.map.get(key.as_str()) {
            Some(metadata) => metadata,
            None => {
                return Ok(None);
            },
        };
        let ghost wanted = put_record(key@, m[key@]);
        proof {
            assert(self@.index.contains_key(key@));
            assert(extent_holds(self@.segments, metadata, encoding(wanted)));
        }
        match read_value(&self.segments, &metadata, key.as_str()) {
            Ok(value) => {
                proof {
                    lemma_extent_unique(
                        self@.segments,
                        metadata,
                        put_record(key@, value@),
                        wanted,
                    );
                }
                Ok(Some(value))
            },
            Err(e) => Err(e),
        }
    }
}

/// Whether `after` is the store `before` compacted.
///
/// Two segment ids are taken: the first new segment holds one record for
/// each live key, in the order of the keys, and nothing else; the second is
/// empty and is the active one. The older segments are gone, no byte is
/// stale, and the contents are what they were.
pub open spec fn compaction_of(before: StoreState, after: StoreState) -> bool {
    &&& after.segments.len() == 2
    &&& after.segments[0].id == before.current_index + 1
    &&& live_image(after.segments[0].data, before.contents())
    &&& after.segments[1] == empty_segment((before.current_index + 2) as u64)
    &&& after.current_index == before.current_index + 2
    &&& after.uncompacted == 0
    &&& after.threshold == before.threshold
    &&& after.valid()
    &&& after.contents() == before.contents()
}

/// What compaction does to the segment files: the compacted segment is
/// created and filled, the new active segment is created, and every segment
/// that the directory held before is deleted.
pub open spec fn compaction_effects(before: StoreState, after: StoreState) -> Seq<Effect> {
    seq![
        created(after.segments[0].id),
        extended(after.segments[0].id, after.segments[0].data),
        created(after.current_index),
    ] + deletions(before.segments, before.segments.len() as int)
}

/// What settling the store `s` does to the segment files: what compaction
/// does where compaction is due, and nothing where it is not.
pub open spec fn settling_effects(s: StoreState, after: StoreState) -> Seq<Effect> {
    if s.compactable() {
        compaction_effects(s, after)
    } else {
        Seq::empty()
    }
}

/// Whether `after` is what a write leaves of the store `s`, to which the
/// write has appended its record: the compacted store where compaction is
/// due, and `s` itself where it is not.
pub open spec fn settled(s: StoreState, after: StoreState) -> bool {
    if s.compactable() {
        compaction_of(s, after)
    } else {
        after == s
    }
}

/// The keys of the entries, in their order.
spec fn entry_keys(entries: Seq<IndexEntry>) -> Seq<Seq<char>> {
    Seq::new(entries.len(), |j: int| entries[j].key@)
}

/// The directory that compaction leaves: the compacted segment `id` and an
/// empty segment behind it.
spec fn compacted_dir(id: u64, data: Seq<u8>) -> Seq<SegmentView> {
    seq![SegmentView { id, data }, empty_segment((id + 1) as u64)]
}

/// Two mappings are the same when both hold exactly the keys of a list and
/// agree on each of them.
proof fn lemma_same_on_keys<V>(keys: Seq<Seq<char>>, a: Map<Seq<char>, V>, b: Map<Seq<char>, V>)
    requires
        forall|x: Seq<char>|
            a.contains_key(x) <==> exists|j: int| 0 <= j < keys.len() && #[trigger] keys[j] == x,
        forall|x: Seq<char>| b.contains_key(x) <==> among(keys, x),
        forall|j: int|
            0 <= j < keys.len() ==> a.contains_key(#[trigger] keys[j]) ==> a[keys[j]]
                == b[keys[j]],
    ensures
        a == b,
{
    assert forall|x: Seq<char>| a.contains_key(x) <==> b.contains_key(x) by {
        assert(among(keys, x) <==> exists|j: int| 0 <= j < keys.len() && #[trigger] keys[j] == x);
    }
    assert forall|x: Seq<char>| a.contains_key(x) implies a[x] == b[x] by {
        let j = choose|j: int| 0 <= j < keys.len() && #[trigger] keys[j] == x;
        assert(a.contains_key(keys[j]));
        assert(a[keys[j]] == b[keys[j]]);
    }
    assert(a =~= b);
}

/// The directory that compaction leaves is well-formed, and replaying it is
/// replaying the records of its first segment from an empty index.
proof fn lemma_compacted_dir(id: u64, rs: Seq<Record>)
    requires
        id < u64::MAX,
        log_bytes(rs).len() <= u64::MAX,
    ensures
        ({
            let dir = compacted_dir(id, log_bytes(rs));
            &&& ascending(dir)
            &&& all_valid(dir)
            &&& all_fit(dir)
            &&& replay_dir(Map::empty(), dir).index == replay_log(
                fresh(Map::empty()),
                id,
                rs,
            ).index
            &&& dir_contents(dir) == apply_all(Map::empty(), rs)
        }),
{
    let first = SegmentView { id, data: log_bytes(rs) };
    let dir = compacted_dir(id, log_bytes(rs));
    let single = seq![first];
    lemma_records_of_log(rs);
    lemma_empty_log();
    assert(single.drop_last() =~= Seq::<SegmentView>::empty());
    assert(single.last() == first);
    assert(dir =~= single.push(empty_segment((id + 1) as u64)));
    lemma_new_segment_replay(Map::empty(), single, (id + 1) as u64);
    assert(replay_dir(Map::empty(), Seq::<SegmentView>::empty()).index =~= Map::empty());
    assert(dir_contents(Seq::<SegmentView>::empty()) =~= Map::empty());
    assert(replay_dir(Map::empty(), single).index == replay_log(
        fresh(Map::empty()),
        id,
        rs,
    ).index);
    assert(dir_contents(single) == apply_all(Map::empty(), rs));
    assert(dir[0] == first);
    assert(dir[1] == empty_segment((id + 1) as u64));
    assert(all_valid(dir)) by {
        assert forall|i: int| 0 <= i < dir.len() implies valid_log(#[trigger] dir[i].data) by {
            if i == 0 {
                assert(dir[i].data == log_bytes(rs));
            } else {
                assert(dir[i].data == Seq::<u8>::empty());
            }
        }
    }
    assert(all_fit(dir)) by {
        assert forall|i: int| 0 <= i < dir.len() implies (#[trigger] dir[i]).data.len()
            <= u64::MAX by {
            if i == 0 {
                assert(dir[i].data == log_bytes(rs));
            } else {
                assert(dir[i].data == Seq::<u8>::empty());
            }
        }
    }
    assert(ascending(dir));
}

/// The directory that compaction leaves is valid, holds the contents that
/// were compacted, and replays to the index whose entries lie at the offsets
/// at which the records were written.
proof fn lemma_compacted(id: u64, keys: Seq<Seq<char>>, m: Contents, index: Places)
    requires
        id < u64::MAX,
        lists_live_keys(keys, m),
        log_bytes(live_records(keys, m)).len() <= u64::MAX,
        forall|x: Seq<char>| index.contains_key(x) <==> m.contains_key(x),
        forall|j: int|
            0 <= j < keys.len() ==> index[#[trigger] keys[j]] == place(
                id,
                log_bytes(live_records(keys, m).take(j)).len(),
                encoding(live_records(keys, m)[j]).len(),
            ),
    ensures
        ({
            let dir = compacted_dir(id, log_bytes(live_records(keys, m)));
            &&& ascending(dir)
            &&& all_valid(dir)
            &&& all_fit(dir)
            &&& replay_dir(Map::empty(), dir).index == index
            &&& dir_contents(dir) == m
        }),
{
    let rs = live_records(keys, m);
    lemma_replay_puts(id, keys, m, keys.len() as int);
    assert(rs.take(keys.len() as int) =~= rs);
    lemma_compacted_dir(id, rs);
    let st = replay_log(fresh(Map::empty()), id, rs);
    let c = apply_all(Map::empty(), rs);
    lemma_same_on_keys(keys, c, m);
    lemma_same_on_keys(keys, st.index, index);
}

/// Once the entries of a matching index have been moved, in their order,
/// to the places of their records in a compacted segment, the segment is a
/// compacted image of the contents, and the directory that it makes with an
/// empty segment behind it is valid and replays to the moved index.
proof fn lemma_compact_done(
    id: u64,
    entries0: Seq<IndexEntry>,
    entries: Seq<IndexEntry>,
    m: Contents,
)
    requires
        id < u64::MAX,
        sorted_keys(entries0),
        distinct_keys(entries0),
        distinct_keys(entries),
        entries.len() == entries0.len(),
        forall|j: int|
            0 <= j < entries.len() ==> (#[trigger] entries[j]).key@ == entries0[j].key@,
        forall|x: Seq<char>| entries_map(entries0).contains_key(x) <==> m.contains_key(x),
        log_bytes(live_records(entry_keys(entries0), m)).len() <= u64::MAX,
        forall|j: int|
            0 <= j < entries.len() ==> (#[trigger] entries[j]).meta == place(
                id,
                log_bytes(live_records(entry_keys(entries0), m).take(j)).len(),
                encoding(live_records(entry_keys(entries0), m)[j]).len(),
            ),
    ensures
        ({
            let keys = entry_keys(entries0);
            let dir = compacted_dir(id, log_bytes(live_records(keys, m)));
            &&& lists_live_keys(keys, m)
            &&& live_image(log_bytes(live_records(keys, m)), m)
            &&& ascending(dir)
            &&& all_valid(dir)
            &&& all_fit(dir)
            &&& replay_dir(Map::empty(), dir).index == entries_map(entries)
            &&& dir_contents(dir) == m
        }),
{
    let keys = entry_keys(entries0);
    let all = live_records(keys, m);
    let index = entries_map(entries);
    assert(keys_rise(keys)) by {
        assert forall|a: int, b: int| 0 <= a < b < keys.len() implies precedes(
            encode_utf8(keys[a]),
            encode_utf8(keys[b]),
        ) by {
            assert(entries0[a].key@ == keys[a]);
            assert(entries0[b].key@ == keys[b]);
        }
    }
    assert(keys.no_duplicates()) by {
        assert forall|a: int, b: int|
            0 <= a < keys.len() && 0 <= b < keys.len() && a != b implies keys[a] != keys[b] by {
            assert(entries0[a].key@ == keys[a]);
            assert(entries0[b].key@ == keys[b]);
        }
    }
    assert forall|x: Seq<char>| among(keys, x) <==> m.contains_key(x) by {
        if among(keys, x) {
            let j = choose|j: int| 0 <= j < keys.len() && #[trigger] keys[j] == x;
            assert(entries0[j].key@ == x);
            assert(has_key(entries0, x));
        }
        if m.contains_key(x) {
            assert(has_key(entries0, x));
            let j = position_of(entries0, x);
            assert(keys[j] == x);
        }
    }
    assert forall|x: Seq<char>| index.contains_key(x) <==> m.contains_key(x) by {
        if index.contains_key(x) {
            let j = position_of(entries, x);
            assert(entries[j].key@ == x);
            assert(entries0[j].key@ == x);
            assert(has_key(entries0, x));
        }
        if m.contains_key(x) {
            assert(has_key(entries0, x));
            let j = position_of(entries0, x);
            assert(entries[j].key@ == x);
            assert(has_key(entries, x));
        }
    }
    assert forall|j: int| 0 <= j < keys.len() implies index[#[trigger] keys[j]] == place(
        id,
        log_bytes(all.take(j)).len(),
        encoding(all[j]).len(),
    ) by {
        lemma_entry_in_map(entries, j);
        assert(entries[j].key@ == keys[j]);
    }
    lemma_compacted(id, keys, m, index);
}

/// A store that holds the directory that compaction leaves, with the index
/// that replay builds from it and no stale byte, is the compacted store.
proof fn lemma_compaction_result(
    before: StoreState,
    after: StoreState,
    id: u64,
    image: Seq<u8>,
    index: Places,
)
    requires
        id == before.current_index + 1,
        id < u64::MAX,
        after == store_of(
            compacted_dir(id, image),
            index,
            (id + 1) as u64,
            0,
            before.threshold,
        ),
        live_image(image, before.contents()),
        ascending(compacted_dir(id, image)),
        all_valid(compacted_dir(id, image)),
        all_fit(compacted_dir(id, image)),
        replay_dir(Map::empty(), compacted_dir(id, image)).index == index,
        dir_contents(compacted_dir(id, image)) == before.contents(),
    ensures
        compaction_of(before, after),
{
    let dir = compacted_dir(id, image);
    assert(dir.len() == 2);
    assert(dir[0].id == id);
    assert(dir[0].data == image);
    assert(dir[1] == empty_segment((id + 1) as u64));
    assert(dir.last() == dir[1]);
}

/// Appends the `len` bytes of `src` that start at `start` to `out`.
fn copy_range(src: &[u8], start: usize, len: usize, out: &mut Vec<u8>)
    requires
        start + len <= src.len(),
    ensures
        final(out)@ == old(out)@ + src@.subrange(start as int, start + len),
{
    let ghost before = out@;
    let mut i: usize = 0;
    while i < len
        invariant
            i <= len,
            start + len <= src.len(),
            out@ == before + src@.subrange(start as int, start + i),
        decreases len - i,
    {
        out.push(src[start + i]);
        proof {
            assert(out@ =~= before + src@.subrange(start as int, start + i + 1));
        }
        i += 1;
    }
}

impl KvStore {
    /// The segments of the store, in ascending order of their ids; the last
    /// one is the active segment.
    pub fn segments(&self) -> (segments: &Vec<Segment>)
        ensures
            dir_view(segments@) == self@.segments,
    {
        &self.segments
    }

    /// The id of the active segment.
    pub fn current_index(&self) -> (id: u64)
        ensures
            id == self@.current_index,
    {
        self.current_index
    }

    /// The place of the latest record of `key`, or `None` where the key is
    /// not in the store.
    pub fn metadata(&self, key: &str) -> (r: Option<CommandMetadata>)
        requires
            self.wf(),
        ensures
            r == if self@.index.contains_key(key@) {
                Some(self@.index[key@])
            } else {
                None
            },
    {
        self.map.get(key)
    }

    /// The number of stale bytes above which a write compacts the log.
    pub fn threshold(&self) -> (n: u64)
        ensures
            n == self@.threshold,
    {
        self.threshold
    }

    /// The estimate of the bytes taken up by records that are no longer live.
    pub fn uncompacted_bytes(&self) -> (n: u64)
        ensures
            n == self@.uncompacted,
    {
        self.uncompacted_bytes
    }

    /// Appends `command` to the active segment, points the index at it and
    /// counts the record that it displaces as stale.
    fn append(&mut self, command: Command)
        requires
            old(self).wf(),
        ensures
            final(self).wf(),
            final(self)@ == old(self)@.appended(command@),
            final(self)@.contents() == apply(old(self)@.contents(), command@),
            final(self).synced() == old(self).synced(),
            final(self).pending() == old(self).pending().push(
                extended(old(self)@.current_index, encoding(command@)),
            ),
    {
        let ghost before = self@;
        let mut active = match self.segments.pop() {
            Some(active) => active,
            None => {
                assert(false);
                return ;
            },
        };
        proof {
            assert(active@ == before.segments.last());
        }
        let pos = active.data.len();
        let bytes = command.encode();
        copy_range(bytes.as_slice(), 0, bytes.len(), &mut active.data);
        let next_pos = active.data.len();
        self.segments.push(active);
        self.journal.note(DiskAction::Append { id: self.current_index, data: bytes });
        proof {
            assert(bytes@.subrange(0, bytes@.len() as int) =~= bytes@);
            assert(dir_view(self.segments@) =~= dir_append(before.segments, encoding(command@)));
            lemma_appended_valid(before, command@);
            lemma_image_append(before.segments, encoding(command@));
        }
        let stale = load_command(
            &mut self.map,
            command,
            self.current_index,
            pos as u64,
            next_pos as u64,
        );
        self.uncompacted_bytes = self.uncompacted_bytes.saturating_add(stale);
    }

    /// Copies the record of each live key, in the order of the index, into a
    /// buffer that is to become the segment `id`, and points the index at
    /// the copies.
    fn gather(&mut self, id: u64) -> (out: Vec<u8>)
        requires
            old(self).wf(),
        ensures
            final(self).map.wf(),
            final(self).journal == old(self).journal,
            final(self).segments == old(self).segments,
            final(self).current_index == old(self).current_index,
            final(self).uncompacted_bytes == old(self).uncompacted_bytes,
            final(self).threshold == old(self).threshold,
            final(self).map.entries().len() == old(self).map.entries().len(),
            forall|j: int|
                0 <= j < old(self).map.entries().len() ==> (#[trigger] final(self).map.entries()[j]).key@ == old(self).map.entries()[j].key@,
            out@ == log_bytes(
                live_records(entry_keys(old(self).map.entries()), old(self)@.contents()),
            ),
            forall|j: int|
                0 <= j < old(self).map.entries().len() ==> (#[trigger] final(self).map.entries()[j]).meta == place(
                    id,
                    log_bytes(
                        live_records(
                            entry_keys(old(self).map.entries()),
                            old(self)@.contents(),
                        ).take(j),
                    ).len(),
                    encoding(
                        live_records(
                            entry_keys(old(self).map.entries()),
                            old(self)@.contents(),
                        )[j],
                    ).len(),
                ),
    {
        let ghost s0 = self@;
        let ghost m = s0.contents();
        let ghost entries0 = self.map.entries();
        let ghost keys = entry_keys(entries0);
        proof {
            lemma_valid_matches(s0);
        }
        let mut out: Vec<u8> = Vec::new();
        let n = self.map.len();
        let mut i: usize = 0;
        proof {
            assert(live_records(keys, m).take(0) =~= Seq::<Record>::empty());
            assert(out@ =~= log_bytes(Seq::<Record>::empty()));
        }
        while i < n
            invariant
                i <= n,
                n == entries0.len(),
                self.map.wf(),
                self.map.entries().len() == n,
                self.journal == old(self).journal,
                self.segments == old(self).segments,
                self.current_index == old(self).current_index,
                self.uncompacted_bytes == old(self).uncompacted_bytes,
                self.threshold == old(self).threshold,
                dir_view(self.segments@) == s0.segments,
                ascending(s0.segments),
                index_matches(s0.segments, s0.index, m),
                distinct_keys(entries0),
                s0.index == entries_map(entries0),
                keys == entry_keys(entries0),
                forall|j: int|
                    0 <= j < n ==> (#[trigger] self.map.entries()[j]).key@ == entries0[j].key@,
                forall|j: int|
                    i <= j < n ==> (#[trigger] self.map.entries()[j]).meta == entries0[j].meta,
                out@ == log_bytes(live_records(keys, m).take(i as int)),
                forall|j: int|
                    0 <= j < i ==> (#[trigger] self.map.entries()[j]).meta == place(
                        id,
                        log_bytes(live_records(keys, m).take(j)).len(),
                        encoding(live_records(keys, m)[j]).len(),
                    ),
            decreases n - i,
        {
            let metadata = self.map.entry(i).meta;
            let ghost wanted = live_records(keys, m)[i as int];
            proof {
                lemma_entry_in_map(entries0, i as int);
                assert(s0.index.contains_key(entries0[i as int].key@));
                assert(extent_holds(s0.segments, metadata, encoding(wanted)));
            }
            let j = self.locate(&metadata, Ghost(encoding(wanted)));
            let pos = out.len();
            let src = self.segments[j].data.as_slice();
            assert(metadata.position + metadata.length <= src.len());
            copy_range(src, metadata.position as usize, metadata.length as usize, &mut out);
            self.map.relocate(
                i,
                CommandMetadata { file_index: id, position: pos as u64, length: metadata.length },
            );
            proof {
                let all = live_records(keys, m);
                assert(all.take(i as int + 1) =~= all.take(i as int).push(wanted));
                lemma_log_push(all.take(i as int), wanted);
            }
            i += 1;
        }
        proof {
            assert(live_records(keys, m).take(n as int) =~= live_records(keys, m));
        }
        out
    }

    /// Notes what compaction does to the files: the compacted segment `id`
    /// is created and filled with `image`, the segment behind it is created,
    /// and every segment that the directory held is deleted.
    fn note_compaction(&mut self, id: u64, image: &[u8])
        requires
            id < u64::MAX,
            old(self).segments@.len() > 0,
            ascending(dir_view(old(self).segments@)),
            dir_view(old(self).segments@).last().id < id,
            old(self).journal.disk() == image_of(dir_view(old(self).segments@)),
        ensures
            final(self).map == old(self).map,
            final(self).segments == old(self).segments,
            final(self).current_index == old(self).current_index,
            final(self).uncompacted_bytes == old(self).uncompacted_bytes,
            final(self).threshold == old(self).threshold,
            final(self).journal.synced() == old(self).journal.synced(),
            final(self).journal.disk() == image_of(compacted_dir(id, image@)),
            final(self).journal.pending() == old(self).journal.pending() + seq![
                created(id),
                extended(id, image@),
                created((id + 1) as u64),
            ] + deletions(
                dir_view(old(self).segments@),
                old(self).segments@.len() as int,
            ),
    {
        let ghost segs = dir_view(self.segments@);
        let ghost disk0 = self.journal.disk();
        let ghost pending0 = self.journal.pending();
        let mut copy: Vec<u8> = Vec::new();
        copy_range(image, 0, image.len(), &mut copy);
        proof {
            assert(image@.subrange(0, image@.len() as int) =~= image@);
            assert(copy@ =~= image@);
        }
        self.journal.note(DiskAction::Create { id });
        self.journal.note(DiskAction::Append { id, data: copy });
        self.journal.note(DiskAction::Create { id: id + 1 });
        let ghost base = self.journal.pending();
        let ghost disk3 = self.journal.disk();
        proof {
            assert(Seq::<u8>::empty() + image@ =~= image@);
            assert(disk3 == disk0.insert(id, Seq::empty()).insert(id, image@).insert(
                (id + 1) as u64,
                Seq::empty(),
            ));
            assert(base + deletions(segs, 0) =~= base);
            assert(base =~= pending0 + seq![
                created(id),
                extended(id, image@),
                created((id + 1) as u64),
            ]);
        }
        let n = self.segments.len();
        let mut k: usize = 0;
        while k < n
            invariant
                k <= n,
                n == self.segments@.len(),
                segs == dir_view(self.segments@),
                self.map == old(self).map,
                self.segments == old(self).segments,
                self.current_index == old(self).current_index,
                self.uncompacted_bytes == old(self).uncompacted_bytes,
                self.threshold == old(self).threshold,
                self.journal.synced() == old(self).journal.synced(),
                self.journal.pending() == base + deletions(segs, k as int),
            decreases n - k,
        {
            self.journal.note(DiskAction::Delete { id: self.segments[k].id });
            proof {
                assert(segs[k as int].id == self.segments@[k as int].id);
                assert(base + deletions(segs, k as int + 1) =~= (base + deletions(
                    segs,
                    k as int,
                )).push(Effect::Delete { id: segs[k as int].id }));
            }
            k += 1;
        }
        proof {
            let after = self.journal.disk();
            let target = image_of(compacted_dir(id, image@));
            lemma_perform_concat(self.journal.synced(), base, deletions(segs, n as int));
            lemma_deletions(disk3, segs, n as int);
            assert(segs.take(n as int) =~= segs);
            lemma_image_pair(
                SegmentView { id, data: image@ },
                empty_segment((id + 1) as u64),
            );
            assert(!holds_id(segs, id) && !holds_id(
                segs,
                (id + 1) as u64,
            )) by {
                assert forall|j: int| 0 <= j < segs.len() implies (#[trigger] segs[j]).id < id by {
                    if j < segs.len() - 1 {
                        assert(segs[j].id < segs[segs.len() - 1].id);
                    }
                }
            }
            assert forall|x: u64| after.contains_key(x) <==> target.contains_key(x) by {
                assert(after.contains_key(x) <==> (disk3.contains_key(x)
                    && !holds_id(segs, x)));
                assert(disk0.contains_key(x) <==> holds_id(segs, x));
            }
            assert forall|x: u64| after.contains_key(x) implies after[x] == target[x] by {
                assert(after[x] == disk3[x]);
            }
            assert(after =~= target);
        }
    }

    /// Takes the pending actions on the segment files.
    ///
    /// Performed in order on the files as they were when actions were last
    /// taken, the actions make the files hold the segments of the store.
    pub fn take_actions(&mut self) -> (actions: Vec<DiskAction>)
        requires
            old(self).wf(),
        ensures
            final(self).wf(),
            final(self)@ == old(self)@,
            effects(actions@) == old(self).pending(),
            perform_all(old(self).synced(), effects(actions@)) == image_of(old(self)@.segments),
            final(self).synced() == image_of(old(self)@.segments),
            final(self).pending() == Seq::<Effect>::empty(),
    {
        self.journal.take()
    }

    /// Compacts the log where compaction is due, and leaves the store as it
    /// is where it is not.
    ///
    /// Compaction is due when more bytes are stale than the threshold allows.
    /// The record of each live key is then copied into a fresh segment, a
    /// further fresh segment becomes the active one, and all older segments
    /// are dropped. The contents stay what they were.
    pub fn compact(&mut self) -> (r: Result<(), KvsError>)
        requires
            old(self).wf(),
        ensures
            final(self).wf(),
            r is Ok,
            settled(old(self)@, final(self)@),
            final(self)@.contents() == old(self)@.contents(),
            final(self).synced() == old(self).synced(),
            final(self).pending() == old(self).pending() + settling_effects(
                old(self)@,
                final(self)@,
            ),
    {
        if self.uncompacted_bytes <= self.threshold || self.current_index > u64::MAX - 2 {
            assert(self.pending() + Seq::<Effect>::empty() =~= self.pending());
            return Ok(());
        }
        let ghost s0 = self@;
        let ghost entries0 = self.map.entries();
        let id: u64 = self.current_index + 1;
        proof {
            lemma_valid_matches(s0);
        }
        let out = self.gather(id);
        let ghost image = out@;
        assert(image.len() == out.len() <= usize::MAX);
        self.note_compaction(id, out.as_slice());
        let mut dir: Vec<Segment> = Vec::new();
        dir.push(Segment { id, data: out });
        dir.push(Segment { id: id + 1, data: Vec::new() });
        self.segments = dir;
        self.current_index = id + 1;
        self.uncompacted_bytes = 0;
        proof {
            lemma_compact_done(id, entries0, self.map.entries(), s0.contents());
            assert(dir_view(self.segments@) =~= compacted_dir(id, image));
            lemma_compaction_result(s0, self@, id, image, entries_map(self.map.entries()));
        }
        Ok(())
    }

    /// Sets the value of `key` to `value`.
    ///
    /// The record is appended to the active segment and the index pointed at
    /// it; the record that it displaces, if any, is counted as stale. Then
    /// the log is compacted where compaction is due. A value equal to the
    /// current one is written all the same.
    pub fn set(&mut self, key: String, value: String) -> (r: Result<(), KvsError>)
        requires
            old(self).wf(),
        ensures
            final(self).wf(),
            r is Ok,
            settled(old(self)@.appended(put_record(key@, value@)), final(self)@),
            final(self)@.contents() == old(self)@.contents().insert(key@, value@),
            final(self).synced() == old(self).synced(),
            final(self).pending() == old(self).pending().push(
                extended(old(self)@.current_index, encoding(put_record(key@, value@))),
            ) + settling_effects(old(self)@.appended(put_record(key@, value@)), final(self)@),
    {
        self.append(Command::Put { key, value });
        self.compact()
    }

    /// Removes `key` from the store.
    ///
    /// Fails with `KeyNotFound`, and writes nothing, where the key is not in
    /// the store. Otherwise a record of the removal is appended to the active
    /// segment, the key leaves the index, its last record is counted as
    /// stale, and the log is compacted where compaction is due.
    pub fn remove(&mut self, key: String) -> (r: Result<(), KvsError>)
        requires
            old(self).wf(),
        ensures
            final(self).wf(),
            final(self).synced() == old(self).synced(),
            match r {
                Ok(_) => {
                    &&& old(self)@.contents().contains_key(key@)
                    &&& settled(old(self)@.appended(remove_record(key@)), final(self)@)
                    &&& final(self)@.contents() == old(self)@.contents().remove(key@)
                    &&& final(self).pending() == old(self).pending().push(
                        extended(old(self)@.current_index, encoding(remove_record(key@))),
                    ) + settling_effects(
                        old(self)@.appended(remove_record(key@)),
                        final(self)@,
                    )
                },
                Err(e) => {
                    &&& e is KeyNotFound
                    &&& !old(self)@.contents().contains_key(key@)
                    &&& final(self)@ == old(self)@
                    &&& final(self).pending() == old(self).pending()
                },
            },
    {
        proof {
            lemma_valid_matches(self@);
        }
        match self.map.get(key.as_str()) {
            None => Err(KvsError::KeyNotFound),
            Some(_) => {
                self.append(Command::Remove { key });
                self.compact()
            },
        }
    }
}

} // verus!
