//! The in-memory index: for each live key, where its latest record lies.
//!
//! The entries are kept sorted by the bytes of their keys, so a key is found
//! by binary search.

use vstd::prelude::*;
use vstd::utf8::*;

verus! {

/// The place of one record: the segment that holds it, the offset at which
/// it starts there, and its length in bytes, framing included.
#[derive(Debug, Clone, Copy, PartialEq, Eq)]
pub struct CommandMetadata {
    pub file_index: u64,
    pub position: u64,
    pub length: u64,
}

/// One key of the index with the place of its record.
pub struct IndexEntry {
    pub key: String,
    pub meta: CommandMetadata,
}

/// A mapping from keys to the places of their records.
///
/// The entries are kept in the order of their keys, and no key occurs twice.
pub struct Index {
    entries: Vec<IndexEntry>,
}

/// Whether no key occurs twice among the entries.
pub open spec fn distinct_keys(entries: Seq<IndexEntry>) -> bool {
    forall|i: int, j: int|
        0 <= i < entries.len() && 0 <= j < entries.len() && entries[i].key@ == entries[j].key@
            ==> i == j
}

/// Whether the bytes `a` come before the bytes `b` in lexicographic order.
pub open spec fn precedes(a: Seq<u8>, b: Seq<u8>) -> bool
    decreases a.len(),
{
    if b.len() == 0 {
        false
    } else if a.len() == 0 {
        true
    } else if a[0] != b[0] {
        a[0] < b[0]
    } else {
        precedes(a.skip(1), b.skip(1))
    }
}

/// Whether the keys of the entries rise in the order of their bytes.
pub open spec fn sorted_keys(entries: Seq<IndexEntry>) -> bool {
    forall|i: int, j: int|
        0 <= i < j < entries.len() ==> precedes(
            encode_utf8(entries[i].key@),
            encode_utf8(entries[j].key@),
        )
}

/// Nothing comes before itself.
pub proof fn lemma_precedes_irreflexive(a: Seq<u8>)
    ensures
        !precedes(a, a),
    decreases a.len(),
{
    if a.len() > 0 {
        lemma_precedes_irreflexive(a.skip(1));
    }
}

/// What comes before something that comes before a third comes before the
/// third.
pub proof fn lemma_precedes_transitive(a: Seq<u8>, b: Seq<u8>, c: Seq<u8>)
    requires
        precedes(a, b),
        precedes(b, c),
    ensures
        precedes(a, c),
    decreases a.len(),
{
    if a.len() > 0 && a[0] == b[0] && b[0] == c[0] {
        lemma_precedes_transitive(a.skip(1), b.skip(1), c.skip(1));
    }
}

/// Sorted keys are distinct.
pub proof fn lemma_sorted_distinct(entries: Seq<IndexEntry>)
    requires
        sorted_keys(entries),
    ensures
        distinct_keys(entries),
{
    assert forall|i: int, j: int|
        0 <= i < entries.len() && 0 <= j < entries.len() && entries[i].key@
            == entries[j].key@ implies i == j by {
        lemma_precedes_irreflexive(encode_utf8(entries[i].key@));
        if i < j {
            assert(precedes(encode_utf8(entries[i].key@), encode_utf8(entries[j].key@)));
        }
        if j < i {
            assert(precedes(encode_utf8(entries[j].key@), encode_utf8(entries[i].key@)));
        }
    }
}

/// Where a key stands among sorted entries: at the position of its entry,
/// or between the entries that come before it and those that come after.
enum Slot {
    /// The position of the entry for the key.
    At(usize),
    /// The position at which an entry for the key would stand.
    Gap(usize),
}

/// How one byte string stands to another.
enum Side {
    Before,
    Same,
    After,
}

/// Whether one of the entries is for `key`.
pub open spec fn has_key(entries: Seq<IndexEntry>, key: Seq<char>) -> bool {
    exists|i: int| 0 <= i < entries.len() && #[trigger] entries[i].key@ == key
}

/// The position of the entry for `key`.
pub open spec fn position_of(entries: Seq<IndexEntry>, key: Seq<char>) -> int {
    choose|i: int| 0 <= i < entries.len() && #[trigger] entries[i].key@ == key
}

/// The mapping that a sequence of entries stands for.
pub open spec fn entries_map(entries: Seq<IndexEntry>) -> Map<Seq<char>, CommandMetadata> {
    Map::new(
        |key: Seq<char>| has_key(entries, key),
        |key: Seq<char>| entries[position_of(entries, key)].meta,
    )
}

/// Each entry of a sequence without repeated keys is what the mapping holds
/// for its key.
pub proof fn lemma_entry_in_map(entries: Seq<IndexEntry>, i: int)
    requires
        distinct_keys(entries),
        0 <= i < entries.len(),
    ensures
        entries_map(entries).contains_key(entries[i].key@),
        entries_map(entries)[entries[i].key@] == entries[i].meta,
{
    let key = entries[i].key@;
    assert(has_key(entries, key));
    let j = position_of(entries, key);
    assert(0 <= j < entries.len() && entries[j].key@ == key);
}

impl View for Index {
    type V = Map<Seq<char>, CommandMetadata>;

    closed spec fn view(&self) -> Map<Seq<char>, CommandMetadata> {
        entries_map(self.entries@)
    }
}

impl Index {
    /// The entries in their order.
    pub closed spec fn entries(&self) -> Seq<IndexEntry> {
        self.entries@
    }

    /// The invariant of the index: the keys are sorted, so no key occurs
    /// twice.
    pub open spec fn wf(&self) -> bool {
        &&& sorted_keys(self.entries())
        &&& distinct_keys(self.entries())
        &&& self@ == entries_map(self.entries())
    }

    /// An index without entries.
    pub fn new() -> (index: Index)
        ensures
            index.wf(),
            index@ == Map::<Seq<char>, CommandMetadata>::empty(),
            index.entries().len() == 0,
    {
        let index = Index { entries: Vec::new() };
        assert(index@ =~= Map::<Seq<char>, CommandMetadata>::empty());
        index
    }

    /// The number of keys.
    pub fn len(&self) -> (n: usize)
        ensures
            n == self.entries().len(),
    {
        self.entries.len()
    }

    /// The entry at position `i`.
    pub fn entry(&self, i: usize) -> (e: &IndexEntry)
        requires
            i < self.entries().len(),
        ensures
            *e == self.entries()[i as int],
    {
        &self.entries[i]
    }

    /// Where `key` stands among the entries.
    fn find(&self, key: &str) -> (r: Slot)
        requires
            self.wf(),
        ensures
            match r {
                Slot::At(i) => i < self.entries().len() && self.entries()[i as int].key@ == key@,
                Slot::Gap(i) => {
                    &&& i <= self.entries().len()
                    &&& !has_key(self.entries(), key@)
                    &&& forall|j: int|
                        0 <= j < i ==> precedes(
                            encode_utf8((#[trigger] self.entries()[j]).key@),
                            encode_utf8(key@),
                        )
                    &&& forall|j: int|
                        i <= j < self.entries().len() ==> precedes(
                            encode_utf8(key@),
                            encode_utf8((#[trigger] self.entries()[j]).key@),
                        )
                },
            },
    {
        let wanted = key.as_bytes();
        let mut lo: usize = 0;
        let mut hi: usize = self.entries.len();
        while lo < hi
            invariant
                lo <= hi <= self.entries@.len(),
                sorted_keys(self.entries@),
                wanted@ == encode_utf8(key@),
                forall|j: int|
                    0 <= j < lo ==> precedes(
                        encode_utf8((#[trigger] self.entries@[j]).key@),
                        encode_utf8(key@),
                    ),
                forall|j: int|
                    hi <= j < self.entries@.len() ==> precedes(
                        encode_utf8(key@),
                        encode_utf8((#[trigger] self.entries@[j]).key@),
                    ),
            decreases hi - lo,
        {
            let mid = lo + (hi - lo) / 2;
            let ghost here = encode_utf8(self.entries@[mid as int].key@);
            match compare(self.entries[mid].key.as_str().as_bytes(), wanted) {
                Side::Same => {
                    proof {
                        encode_utf8_decode_utf8(key@);
                        encode_utf8_decode_utf8(self.entries@[mid as int].key@);
                    }
                    return Slot::At(mid);
                },
                Side::Before => {
                    proof {
                        assert forall|j: int| 0 <= j < mid + 1 implies precedes(
                            encode_utf8((#[trigger] self.entries@[j]).key@),
                            encode_utf8(key@),
                        ) by {
                            if j < mid {
                                lemma_precedes_transitive(
                                    encode_utf8(self.entries@[j].key@),
                                    here,
                                    encode_utf8(key@),
                                );
                            }
                        }
                    }
                    lo = mid + 1;
                },
                Side::After => {
                    proof {
                        assert forall|j: int| mid <= j < self.entries@.len() implies precedes(
                            encode_utf8(key@),
                            encode_utf8((#[trigger] self.entries@[j]).key@),
                        ) by {
                            if mid < j {
                                lemma_precedes_transitive(
                                    encode_utf8(key@),
                                    here,
                                    encode_utf8(self.entries@[j].key@),
                                );
                            }
                        }
                    }
                    hi = mid;
                },
            }
        }
        proof {
            lemma_precedes_irreflexive(encode_utf8(key@));
            assert(!has_key(self.entries@, key@)) by {
                if has_key(self.entries@, key@) {
                    let j = position_of(self.entries@, key@);
                    assert(self.entries@[j].key@ == key@);
                }
            }
        }
        Slot::Gap(lo)
    }

    /// The place recorded for `key`.
    pub fn get(&self, key: &str) -> (r: Option<CommandMetadata>)
        requires
            self.wf(),
        ensures
            r == if self@.contains_key(key@) {
                Some(self@[key@])
            } else {
                None
            },
    {
        match self.find(key) {
            Slot::At(i) => {
                proof {
                    lemma_entry_in_map(self.entries@, i as int);
                }
                Some(self.entries[i].meta)
            },
            Slot::Gap(_) => None,
        }
    }

    /// Records `meta` as the place of `key` and returns the place that was
    /// recorded for it before.
    pub fn insert(&mut self, key: String, meta: CommandMetadata) -> (r: Option<CommandMetadata>)
        requires
            old(self).wf(),
        ensures
            final(self).wf(),
            final(self)@ == old(self)@.insert(key@, meta),
            r == if old(self)@.contains_key(key@) {
                Some(old(self)@[key@])
            } else {
                None
            },
    {
        let ghost before = self.entries@;
        match self.find(key.as_str()) {
            Slot::At(i) => {
                proof {
                    lemma_entry_in_map(before, i as int);
                }
                let previous = self.entries[i].meta;
                self.entries[i].meta = meta;
                proof {
                    lemma_update_meta(before, self.entries@, i as int, meta);
                }
                Some(previous)
            },
            Slot::Gap(i) => {
                self.entries.insert(i, IndexEntry { key, meta });
                proof {
                    lemma_insert_entry(before, self.entries@, i as int);
                }
                None
            },
        }
    }

    /// Takes `key` out of the index and returns the place that was recorded
    /// for it.
    pub fn remove(&mut self, key: &str) -> (r: Option<CommandMetadata>)
        requires
            old(self).wf(),
        ensures
            final(self).wf(),
            final(self)@ == old(self)@.remove(key@),
            r == if old(self)@.contains_key(key@) {
                Some(old(self)@[key@])
            } else {
                None
            },
    {
        let ghost before = self.entries@;
        match self.find(key) {
            Slot::At(i) => {
                proof {
                    lemma_entry_in_map(before, i as int);
                }
                let removed = self.entries.remove(i);
                proof {
                    lemma_remove_entry(before, self.entries@, i as int);
                }
                Some(removed.meta)
            },
            Slot::Gap(_) => {
                assert(self@ =~= old(self)@.remove(key@));
                None
            },
        }
    }

    /// Replaces the place recorded in the entry at position `i`.
    pub fn relocate(&mut self, i: usize, meta: CommandMetadata)
        requires
            old(self).wf(),
            i < old(self).entries().len(),
        ensures
            final(self).wf(),
            final(self)@ == old(self)@.insert(old(self).entries()[i as int].key@, meta),
            final(self).entries().len() == old(self).entries().len(),
            forall|j: int|
                0 <= j < old(self).entries().len() ==> (#[trigger] final(self).entries()[j]).key@
                    == old(self).entries()[j].key@,
            forall|j: int|
                0 <= j < old(self).entries().len() && j != i ==> (#[trigger] final(self).entries()[j]).meta == old(self).entries()[j].meta,
            final(self).entries()[i as int].meta == meta,
    {
        let ghost before = self.entries@;
        self.entries[i].meta = meta;
        proof {
            lemma_update_meta(before, self.entries@, i as int, meta);
        }
    }
}

/// Whether two strings are the same text.
pub(crate) fn same_text(a: &str, b: &str) -> (r: bool)
    ensures
        r == (a@ == b@),
{
    proof {
        encode_utf8_decode_utf8(a@);
        encode_utf8_decode_utf8(b@);
        lemma_precedes_irreflexive(encode_utf8(a@));
    }
    match compare(a.as_bytes(), b.as_bytes()) {
        Side::Same => true,
        Side::Before => false,
        Side::After => false,
    }
}

/// How the bytes `a` stand to the bytes `b` in lexicographic order.
fn compare(a: &[u8], b: &[u8]) -> (r: Side)
    ensures
        match r {
            Side::Before => precedes(a@, b@),
            Side::Same => a@ == b@,
            Side::After => precedes(b@, a@),
        },
{
    let mut i: usize = 0;
    proof {
        assert(a@.skip(0) =~= a@);
        assert(b@.skip(0) =~= b@);
    }
    while i < a.len() && i < b.len()
        invariant
            i <= a.len(),
            i <= b.len(),
            a@.take(i as int) == b@.take(i as int),
            precedes(a@, b@) == precedes(a@.skip(i as int), b@.skip(i as int)),
            precedes(b@, a@) == precedes(b@.skip(i as int), a@.skip(i as int)),
        decreases a.len() - i,
    {
        proof {
            assert(a@.skip(i as int)[0] == a@[i as int]);
            assert(b@.skip(i as int)[0] == b@[i as int]);
            assert(a@.skip(i as int).skip(1) =~= a@.skip(i as int + 1));
            assert(b@.skip(i as int).skip(1) =~= b@.skip(i as int + 1));
        }
        if a[i] < b[i] {
            return Side::Before;
        }
        if a[i] > b[i] {
            return Side::After;
        }
        proof {
            assert(a@.take(i as int + 1) =~= a@.take(i as int).push(a@[i as int]));
            assert(b@.take(i as int + 1) =~= b@.take(i as int).push(b@[i as int]));
        }
        i += 1;
    }
    if i < b.len() {
        Side::Before
    } else if i < a.len() {
        Side::After
    } else {
        proof {
            assert(a@.take(i as int) =~= a@);
            assert(b@.take(i as int) =~= b@);
        }
        Side::Same
    }
}

/// Changing the place in one entry changes the mapping at its key alone.
proof fn lemma_update_meta(
    before: Seq<IndexEntry>,
    after: Seq<IndexEntry>,
    i: int,
    meta: CommandMetadata,
)
    requires
        distinct_keys(before),
        0 <= i < before.len(),
        after.len() == before.len(),
        after[i].key@ == before[i].key@,
        after[i].meta == meta,
        forall|j: int| 0 <= j < before.len() && j != i ==> after[j] == before[j],
    ensures
        distinct_keys(after),
        sorted_keys(before) ==> sorted_keys(after),
        entries_map(after) == entries_map(before).insert(before[i].key@, meta),
{
    assert forall|j: int| 0 <= j < before.len() implies (#[trigger] after[j]).key@
        == before[j].key@ by {}
    if sorted_keys(before) {
        assert forall|a: int, b: int| 0 <= a < b < after.len() implies precedes(
            encode_utf8(after[a].key@),
            encode_utf8(after[b].key@),
        ) by {
            assert(after[a].key@ == before[a].key@);
            assert(after[b].key@ == before[b].key@);
        }
    }
    assert forall|key: Seq<char>| has_key(after, key) == has_key(before, key) by {
        if has_key(after, key) {
            let j = position_of(after, key);
            assert(before[j].key@ == key);
        }
        if has_key(before, key) {
            let j = position_of(before, key);
            assert(after[j].key@ == key);
        }
    }
    assert forall|key: Seq<char>| has_key(after, key) implies entries_map(after)[key]
        == entries_map(before).insert(before[i].key@, meta)[key] by {
        let j = position_of(after, key);
        let k = position_of(before, key);
        assert(before[j].key@ == key);
        assert(j == k);
    }
    assert(entries_map(after) =~= entries_map(before).insert(before[i].key@, meta));
}

/// Putting an entry for a new key where the key stands among the sorted
/// entries keeps them sorted and adds the key to the mapping.
proof fn lemma_insert_entry(before: Seq<IndexEntry>, after: Seq<IndexEntry>, i: int)
    requires
        sorted_keys(before),
        0 <= i <= before.len(),
        after.len() == before.len() + 1,
        after == before.insert(i, after[i]),
        forall|j: int|
            0 <= j < i ==> precedes(
                encode_utf8((#[trigger] before[j]).key@),
                encode_utf8(after[i].key@),
            ),
        forall|j: int|
            i <= j < before.len() ==> precedes(
                encode_utf8(after[i].key@),
                encode_utf8((#[trigger] before[j]).key@),
            ),
    ensures
        sorted_keys(after),
        distinct_keys(after),
        entries_map(after) == entries_map(before).insert(after[i].key@, after[i].meta),
{
    let fresh = after[i];
    let shift = |j: int| if j < i { j } else { j - 1 };
    assert forall|j: int| 0 <= j < after.len() && j != i implies #[trigger] after[j]
        == before[shift(j)] by {}
    assert forall|a: int, b: int| 0 <= a < b < after.len() implies precedes(
        encode_utf8(after[a].key@),
        encode_utf8(after[b].key@),
    ) by {
        if a != i {
            assert(after[a] == before[shift(a)]);
        }
        if b != i {
            assert(after[b] == before[shift(b)]);
        }
    }
    lemma_sorted_distinct(after);
    lemma_sorted_distinct(before);
    let target = entries_map(before).insert(fresh.key@, fresh.meta);
    assert forall|key: Seq<char>| has_key(after, key) == target.contains_key(key) by {
        if has_key(after, key) {
            let j = position_of(after, key);
            if j != i {
                assert(after[j] == before[shift(j)]);
                assert(before[shift(j)].key@ == key);
            }
        }
        if has_key(before, key) {
            let j = position_of(before, key);
            let k = if j < i { j } else { j + 1 };
            assert(after[k] == before[shift(k)]);
            assert(after[k].key@ == key);
        }
        if key == fresh.key@ {
            assert(after[i].key@ == key);
        }
    }
    assert forall|key: Seq<char>| has_key(after, key) implies entries_map(after)[key]
        == target[key] by {
        let j = position_of(after, key);
        if j != i {
            assert(after[j] == before[shift(j)]);
            assert(before[shift(j)].key@ == key);
            let k = position_of(before, key);
            assert(before[k].key@ == key);
        }
    }
    assert(entries_map(after) =~= target);
}

/// Taking an entry out takes its key out of the mapping.
proof fn lemma_remove_entry(before: Seq<IndexEntry>, after: Seq<IndexEntry>, i: int)
    requires
        distinct_keys(before),
        0 <= i < before.len(),
        after == before.remove(i),
    ensures
        distinct_keys(after),
        sorted_keys(before) ==> sorted_keys(after),
        entries_map(after) == entries_map(before).remove(before[i].key@),
{
    let shift = |j: int| if j < i { j } else { j + 1 };
    assert forall|j: int| 0 <= j < after.len() implies #[trigger] after[j] == before[shift(j)] by {}
    if sorted_keys(before) {
        assert forall|a: int, b: int| 0 <= a < b < after.len() implies precedes(
            encode_utf8(after[a].key@),
            encode_utf8(after[b].key@),
        ) by {
            assert(after[a] == before[shift(a)]);
            assert(after[b] == before[shift(b)]);
        }
    }
    assert forall|a: int, b: int|
        0 <= a < after.len() && 0 <= b < after.len() && after[a].key@ == after[b].key@ implies a
        == b by {
        assert(after[a] == before[shift(a)]);
        assert(after[b] == before[shift(b)]);
    }
    let target = entries_map(before).remove(before[i].key@);
    assert forall|key: Seq<char>| has_key(after, key) == target.contains_key(key) by {
        if has_key(after, key) {
            let j = position_of(after, key);
            assert(after[j] == before[shift(j)]);
            assert(before[shift(j)].key@ == key);
        }
        if has_key(before, key) && key != before[i].key@ {
            let j = position_of(before, key);
            let k = if j < i { j } else { j - 1 };
            assert(after[k] == before[shift(k)]);
            assert(after[k].key@ == key);
        }
    }
    assert forall|key: Seq<char>| has_key(after, key) implies entries_map(after)[key]
        == target[key] by {
        let j = position_of(after, key);
        assert(after[j] == before[shift(j)]);
        let k = position_of(before, key);
        assert(before[shift(j)].key@ == key);
    }
    assert(entries_map(after) =~= target);
}

} // verus!
