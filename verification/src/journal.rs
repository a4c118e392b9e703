//! The journal: what has to happen on disk.
//!
//! The store keeps its directory in memory. Each operation that changes the
//! directory also notes the change as an action on files: create a segment
//! file, append bytes to one, delete one. Whoever keeps the files takes the
//! pending actions after an operation and performs them in order; the files
//! then hold exactly the segments of the store.

use crate::replay::{ascending, dir_append, empty_segment};
use crate::segment::SegmentView;
use vstd::prelude::*;

verus! {

/// One action on the files of a directory.
#[derive(Debug, Clone, PartialEq, Eq)]
pub enum DiskAction {
    /// Create the file of segment `id`, empty; empty it if it exists.
    Create { id: u64 },
    /// Append `data` to the file of segment `id`, and flush it.
    Append { id: u64, data: Vec<u8> },
    /// Delete the file of segment `id`.
    Delete { id: u64 },
}

/// The mathematical value of a [`DiskAction`].
pub enum Effect {
    Create { id: u64 },
    Append { id: u64, data: Seq<u8> },
    Delete { id: u64 },
}

impl View for DiskAction {
    type V = Effect;

    open spec fn view(&self) -> Effect {
        match self {
            DiskAction::Create { id } => Effect::Create { id: *id },
            DiskAction::Append { id, data } => Effect::Append { id: *id, data: data@ },
            DiskAction::Delete { id } => Effect::Delete { id: *id },
        }
    }
}

/// The segment files of a directory: the bytes that each of them holds.
pub type DiskImage = Map<u64, Seq<u8>>;

/// The effects that a sequence of actions has.
pub open spec fn effects(actions: Seq<DiskAction>) -> Seq<Effect> {
    actions.map_values(|a: DiskAction| a@)
}

/// The files after one action.
pub open spec fn perform(disk: DiskImage, e: Effect) -> DiskImage {
    match e {
        Effect::Create { id } => disk.insert(id, Seq::empty()),
        Effect::Append { id, data } => if disk.contains_key(id) {
            disk.insert(id, disk[id] + data)
        } else {
            disk.insert(id, data)
        },
        Effect::Delete { id } => disk.remove(id),
    }
}

/// The files after a sequence of actions, performed in order.
pub open spec fn perform_all(disk: DiskImage, es: Seq<Effect>) -> DiskImage
    decreases es.len(),
{
    if es.len() == 0 {
        disk
    } else {
        perform(perform_all(disk, es.drop_last()), es.last())
    }
}

/// Whether the directory has a segment with the id `id`.
pub open spec fn holds_id(segs: Seq<SegmentView>, id: u64) -> bool {
    exists|j: int| 0 <= j < segs.len() && (#[trigger] segs[j]).id == id
}

/// The position of the segment with the id `id`.
pub open spec fn slot_of(segs: Seq<SegmentView>, id: u64) -> int {
    choose|j: int| 0 <= j < segs.len() && (#[trigger] segs[j]).id == id
}

/// The files that hold a directory of segments.
pub open spec fn image_of(segs: Seq<SegmentView>) -> DiskImage {
    Map::new(|id: u64| holds_id(segs, id), |id: u64| segs[slot_of(segs, id)].data)
}

/// The deletion of each of the first `k` segments of a directory.
pub open spec fn deletions(segs: Seq<SegmentView>, k: int) -> Seq<Effect> {
    Seq::new(k as nat, |j: int| Effect::Delete { id: segs[j].id })
}

/// Performing one more action after others.
pub proof fn lemma_perform_push(disk: DiskImage, es: Seq<Effect>, e: Effect)
    ensures
        perform_all(disk, es.push(e)) == perform(perform_all(disk, es), e),
{
    assert(es.push(e).drop_last() =~= es);
}

/// Performing two sequences of actions one after the other.
pub proof fn lemma_perform_concat(disk: DiskImage, a: Seq<Effect>, b: Seq<Effect>)
    ensures
        perform_all(disk, a + b) == perform_all(perform_all(disk, a), b),
    decreases b.len(),
{
    if b.len() == 0 {
        assert(a + b =~= a);
    } else {
        lemma_perform_concat(disk, a, b.drop_last());
        assert((a + b).drop_last() =~= a + b.drop_last());
    }
}

/// In a directory with rising ids, each segment is what the files hold
/// under its id.
pub proof fn lemma_image_slot(segs: Seq<SegmentView>, j: int)
    requires
        ascending(segs),
        0 <= j < segs.len(),
    ensures
        image_of(segs).contains_key(segs[j].id),
        image_of(segs)[segs[j].id] == segs[j].data,
{
    let id = segs[j].id;
    assert(holds_id(segs, id));
    let k = slot_of(segs, id);
    if k < j {
        assert(segs[k].id < segs[j].id);
    }
    if j < k {
        assert(segs[j].id < segs[k].id);
    }
}

/// Appending bytes to the last segment is appending them to its file.
pub proof fn lemma_image_append(segs: Seq<SegmentView>, bytes: Seq<u8>)
    requires
        segs.len() > 0,
        ascending(segs),
    ensures
        image_of(dir_append(segs, bytes)) == perform(
            image_of(segs),
            Effect::Append { id: segs.last().id, data: bytes },
        ),
{
    let after = dir_append(segs, bytes);
    let n = segs.len() - 1;
    let target = perform(image_of(segs), Effect::Append { id: segs.last().id, data: bytes });
    assert(ascending(after)) by {
        assert forall|i: int, j: int| 0 <= i < j < after.len() implies after[i].id
            < after[j].id by {
            assert(after[i].id == segs[i].id);
            assert(after[j].id == segs[j].id);
        }
    }
    lemma_image_slot(segs, n);
    assert forall|id: u64| holds_id(after, id) <==> holds_id(segs, id) by {
        if holds_id(after, id) {
            let j = slot_of(after, id);
            assert(segs[j].id == id);
        }
        if holds_id(segs, id) {
            let j = slot_of(segs, id);
            assert(after[j].id == id);
        }
    }
    assert forall|id: u64| holds_id(after, id) implies image_of(after)[id] == target[id] by {
        let j = slot_of(after, id);
        lemma_image_slot(after, j);
        lemma_image_slot(segs, j);
    }
    assert(image_of(after) =~= target);
}

/// Adding an empty segment to a directory is creating its file.
pub proof fn lemma_image_push(segs: Seq<SegmentView>, id: u64)
    requires
        ascending(segs.push(empty_segment(id))),
    ensures
        image_of(segs.push(empty_segment(id))) == perform(
            image_of(segs),
            Effect::Create { id },
        ),
{
    let after = segs.push(empty_segment(id));
    let n = segs.len() as int;
    let target = perform(image_of(segs), Effect::Create { id });
    assert(ascending(segs)) by {
        assert forall|i: int, j: int| 0 <= i < j < segs.len() implies segs[i].id
            < segs[j].id by {
            assert(after[i].id < after[j].id);
            assert(after[i] == segs[i]);
            assert(after[j] == segs[j]);
        }
    }
    assert forall|x: u64| holds_id(after, x) <==> (x == id || holds_id(segs, x)) by {
        if holds_id(after, x) {
            let j = slot_of(after, x);
            if j < n {
                assert(segs[j].id == x);
            }
        }
        if holds_id(segs, x) {
            let j = slot_of(segs, x);
            assert(after[j].id == x);
        }
        if x == id {
            assert(after[n].id == x);
        }
    }
    assert forall|x: u64| holds_id(after, x) implies image_of(after)[x] == target[x] by {
        let j = slot_of(after, x);
        lemma_image_slot(after, j);
        if j < n {
            assert(after[j] == segs[j]);
            assert(after[j].id < after[n].id);
            lemma_image_slot(segs, j);
        }
    }
    assert(image_of(after) =~= target);
}

/// The files of a directory of two segments.
pub proof fn lemma_image_pair(first: SegmentView, second: SegmentView)
    requires
        first.id < second.id,
    ensures
        image_of(seq![first, second]) == Map::<u64, Seq<u8>>::empty().insert(
            first.id,
            first.data,
        ).insert(second.id, second.data),
{
    let dir = seq![first, second];
    let target = Map::<u64, Seq<u8>>::empty().insert(first.id, first.data).insert(
        second.id,
        second.data,
    );
    assert(ascending(dir));
    lemma_image_slot(dir, 0);
    lemma_image_slot(dir, 1);
    assert forall|x: u64| holds_id(dir, x) <==> target.contains_key(x) by {
        if holds_id(dir, x) {
            let j = slot_of(dir, x);
        }
        if x == first.id {
            assert(dir[0].id == x);
        }
        if x == second.id {
            assert(dir[1].id == x);
        }
    }
    assert(image_of(dir) =~= target);
}

/// Deleting the files of the first `k` segments of a directory leaves the
/// files of the others, and whatever else there was.
pub proof fn lemma_deletions(disk: DiskImage, segs: Seq<SegmentView>, k: int)
    requires
        0 <= k <= segs.len(),
    ensures
        forall|x: u64|
            #![trigger perform_all(disk, deletions(segs, k)).contains_key(x)]
            perform_all(disk, deletions(segs, k)).contains_key(x) <==> (disk.contains_key(x)
                && !holds_id(segs.take(k), x)),
        forall|x: u64|
            perform_all(disk, deletions(segs, k)).contains_key(x) ==> #[trigger] perform_all(
                disk,
                deletions(segs, k),
            )[x] == disk[x],
    decreases k,
{
    if k == 0 {
        assert(deletions(segs, 0) =~= Seq::<Effect>::empty());
        assert forall|x: u64| !holds_id(segs.take(0), x) by {}
    } else {
        lemma_deletions(disk, segs, k - 1);
        let gone = Effect::Delete { id: segs[k - 1].id };
        assert(deletions(segs, k) =~= deletions(segs, k - 1).push(gone));
        lemma_perform_push(disk, deletions(segs, k - 1), gone);
        let before = perform_all(disk, deletions(segs, k - 1));
        let after = perform_all(disk, deletions(segs, k));
        assert forall|x: u64| holds_id(segs.take(k), x) <==> (holds_id(segs.take(k - 1), x) || x
            == segs[k - 1].id) by {
            if holds_id(segs.take(k), x) {
                let j = slot_of(segs.take(k), x);
                if j < k - 1 {
                    assert(segs.take(k - 1)[j].id == x);
                }
            }
            if holds_id(segs.take(k - 1), x) {
                let j = slot_of(segs.take(k - 1), x);
                assert(segs.take(k)[j].id == x);
            }
            if x == segs[k - 1].id {
                assert(segs.take(k)[k - 1].id == x);
            }
        }
        assert forall|x: u64|
            #![trigger after.contains_key(x)]
            after.contains_key(x) <==> (disk.contains_key(x) && !holds_id(segs.take(k), x)) by {
            assert(before.contains_key(x) <==> (disk.contains_key(x) && !holds_id(
                segs.take(k - 1),
                x,
            )));
        }
    }
}

/// The actions that have been noted and not yet taken, with the files as
/// they were when actions were last taken.
pub struct Journal {
    pending: Vec<DiskAction>,
    synced: Ghost<DiskImage>,
}

impl Journal {
    /// The files as they were when actions were last taken.
    pub closed spec fn synced(&self) -> DiskImage {
        self.synced@
    }

    /// The effects of the actions that are pending.
    pub closed spec fn pending(&self) -> Seq<Effect> {
        effects(self.pending@)
    }

    /// The files as they will be once the pending actions are performed.
    pub open spec fn disk(&self) -> DiskImage {
        perform_all(self.synced(), self.pending())
    }

    /// A journal without pending actions, over the files `synced`.
    pub(crate) fn start(synced: Ghost<DiskImage>) -> (journal: Journal)
        ensures
            journal.synced() == synced@,
            journal.pending() == Seq::<Effect>::empty(),
            journal.disk() == synced@,
    {
        let journal = Journal { pending: Vec::new(), synced };
        assert(journal.pending() =~= Seq::<Effect>::empty());
        journal
    }

    /// Notes one more action.
    pub(crate) fn note(&mut self, action: DiskAction)
        ensures
            final(self).synced() == old(self).synced(),
            final(self).pending() == old(self).pending().push(action@),
            final(self).disk() == perform(old(self).disk(), action@),
    {
        let ghost before = self.pending();
        self.pending.push(action);
        proof {
            assert(self.pending() =~= before.push(action@));
            lemma_perform_push(self.synced(), before, action@);
        }
    }

    /// Takes the pending actions. The journal then stands at the files as
    /// they are once the actions have been performed.
    pub(crate) fn take(&mut self) -> (actions: Vec<DiskAction>)
        ensures
            effects(actions@) == old(self).pending(),
            final(self).synced() == old(self).disk(),
            final(self).pending() == Seq::<Effect>::empty(),
            final(self).disk() == old(self).disk(),
    {
        let ghost disk = self.disk();
        let mut actions: Vec<DiskAction> = Vec::new();
        std::mem::swap(&mut actions, &mut self.pending);
        self.synced = Ghost(disk);
        assert(self.pending() =~= Seq::<Effect>::empty());
        actions
    }
}

} // verus!
