//! The mathematical model of the tree.
//!
//! A tree is a memtable, a sequence of level slots and a flush threshold. The
//! memtable and every populated slot hold a sorted run. Level `i` has room for
//! `threshold * 2^i` entries. A write goes to the memtable; when the memtable
//! reaches the threshold it is flushed into level 0, and a level that reaches
//! its capacity is emptied into the next one. A read takes the first entry it
//! finds for the key: in the memtable, then in level 0, level 1 and so on.

use crate::merge::merge_spec;
use crate::run::{run_get, strictly_sorted, Entry, Slot};
use vstd::arithmetic::power2::pow2;
use vstd::prelude::*;

verus! {

/// The number of entries that level `level` has room for.
pub open spec fn capacity(threshold: nat, level: nat) -> nat {
    threshold * pow2(level)
}

/// The entries of a level slot; an empty slot has none.
pub open spec fn slot_entries(slot: Option<Seq<Entry>>) -> Seq<Entry> {
    match slot {
        Some(run) => run,
        None => Seq::empty(),
    }
}

/// The memtable's run after a write of `slot` under `key`: the entry is
/// merged in as a run of its own, so it takes the place of an earlier entry
/// for the key, or its place in key order if there was none.
pub open spec fn upsert(run: Seq<Entry>, key: Seq<u8>, slot: Slot) -> Seq<Entry> {
    merge_spec(run, seq![(key, slot)])
}

/// The level slots after `data` was merged into level `level`.
///
/// Beyond the last slot, `data` becomes a new slot. Otherwise `data` is
/// merged with what the slot holds. A merge that stays below the level's
/// capacity is stored in the slot; one that reaches it leaves the slot empty
/// and is merged into the next level in the same way.
pub open spec fn cascade(
    levels: Seq<Option<Seq<Entry>>>,
    level: nat,
    data: Seq<Entry>,
    threshold: nat,
) -> Seq<Option<Seq<Entry>>>
    decreases levels.len() - level,
{
    if level >= levels.len() {
        levels.push(Some(data))
    } else {
        let merged = merge_spec(slot_entries(levels[level as int]), data);
        if merged.len() >= capacity(threshold, level) {
            cascade(levels.update(level as int, None), level + 1, merged, threshold)
        } else {
            levels.update(level as int, Some(merged))
        }
    }
}

/// The level at which `data`, merged into level `level`, comes to rest.
pub open spec fn cascade_stop(
    levels: Seq<Option<Seq<Entry>>>,
    level: nat,
    data: Seq<Entry>,
    threshold: nat,
) -> nat
    decreases levels.len() - level,
{
    if level >= levels.len() {
        levels.len()
    } else {
        let merged = merge_spec(slot_entries(levels[level as int]), data);
        if merged.len() >= capacity(threshold, level) {
            cascade_stop(levels, level + 1, merged, threshold)
        } else {
            level
        }
    }
}

/// The run that comes to rest at `cascade_stop`: `data` merged with all that
/// the emptied levels and the level of rest held.
pub open spec fn cascade_load(
    levels: Seq<Option<Seq<Entry>>>,
    level: nat,
    data: Seq<Entry>,
    threshold: nat,
) -> Seq<Entry>
    decreases levels.len() - level,
{
    if level >= levels.len() {
        data
    } else {
        let merged = merge_spec(slot_entries(levels[level as int]), data);
        if merged.len() >= capacity(threshold, level) {
            cascade_load(levels, level + 1, merged, threshold)
        } else {
            merged
        }
    }
}

/// What the levels from `from` on record for `key`: the entry of the first
/// level, in index order, that has one.
pub open spec fn levels_get(levels: Seq<Option<Seq<Entry>>>, key: Seq<u8>, from: nat) -> Option<
    Slot,
>
    decreases levels.len() - from,
{
    if from >= levels.len() {
        None
    } else {
        match run_get(slot_entries(levels[from as int]), key) {
            Some(slot) => Some(slot),
            None => levels_get(levels, key, from + 1),
        }
    }
}

/// Whether every populated slot holds a sorted run.
pub open spec fn levels_sorted(levels: Seq<Option<Seq<Entry>>>) -> bool {
    forall|i: int| 0 <= i < levels.len() ==> strictly_sorted(slot_entries(#[trigger] levels[i]))
}

/// Whether every level respects its capacity: the last level holds at most as
/// many entries as it has room for, and every other level holds fewer.
pub open spec fn levels_within_capacity(levels: Seq<Option<Seq<Entry>>>, threshold: nat) -> bool {
    forall|i: int|
        0 <= i < levels.len() ==> {
            let count = slot_entries(#[trigger] levels[i]).len();
            &&& count <= capacity(threshold, i as nat)
            &&& i + 1 < levels.len() ==> count < capacity(threshold, i as nat)
        }
}

/// Whether every slot below `level` is empty.
pub open spec fn empty_below(levels: Seq<Option<Seq<Entry>>>, level: nat) -> bool {
    forall|i: int| 0 <= i < level && i < levels.len() ==> (#[trigger] levels[i]) is None
}

/// The state of a tree.
pub struct TreeModel {
    /// The entries written since the last flush, as a sorted run.
    pub memtable: Seq<Entry>,
    /// The level slots, level 0 first.
    pub levels: Seq<Option<Seq<Entry>>>,
    /// The number of entries at which the memtable is flushed.
    pub threshold: nat,
}

impl TreeModel {
    /// The tree with nothing in it.
    pub open spec fn empty(threshold: nat) -> TreeModel {
        TreeModel { memtable: Seq::empty(), levels: Seq::empty(), threshold }
    }

    /// The invariant of a tree between operations.
    pub open spec fn wf(self) -> bool {
        &&& self.threshold > 0
        &&& strictly_sorted(self.memtable)
        &&& self.memtable.len() < self.threshold
        &&& levels_sorted(self.levels)
        &&& levels_within_capacity(self.levels, self.threshold)
    }

    /// What the tree records for `key`: `None` where no entry for the key is
    /// found, `Some(None)` where the first entry found is a tombstone, and
    /// `Some(Some(value))` where it is a value.
    pub open spec fn lookup(self, key: Seq<u8>) -> Option<Slot> {
        match run_get(self.memtable, key) {
            Some(slot) => Some(slot),
            None => levels_get(self.levels, key, 0),
        }
    }

    /// The value that a read of `key` returns, if any. A tombstone and a key
    /// that was never written both read as `None`.
    pub open spec fn get(self, key: Seq<u8>) -> Option<Seq<u8>> {
        match self.lookup(key) {
            Some(Some(value)) => Some(value),
            _ => None,
        }
    }

    /// Everything the tree records, as a map from keys to slots.
    pub open spec fn contents(self) -> Map<Seq<u8>, Slot> {
        Map::new(
            |key: Seq<u8>| self.lookup(key) is Some,
            |key: Seq<u8>| self.lookup(key).unwrap(),
        )
    }

    /// The tree after the memtable was flushed into level 0.
    pub open spec fn flush(self) -> TreeModel {
        TreeModel {
            memtable: Seq::empty(),
            levels: cascade(self.levels, 0, self.memtable, self.threshold),
            threshold: self.threshold,
        }
    }

    /// The tree after a write of `slot` under `key`. The write goes to the
    /// memtable, which is flushed if that brings it to the threshold.
    pub open spec fn insert(self, key: Seq<u8>, slot: Slot) -> TreeModel {
        let written = TreeModel {
            memtable: upsert(self.memtable, key, slot),
            levels: self.levels,
            threshold: self.threshold,
        };
        if written.memtable.len() >= self.threshold {
            written.flush()
        } else {
            written
        }
    }

    /// The tree after `key` was deleted: a tombstone is written under it.
    pub open spec fn delete(self, key: Seq<u8>) -> TreeModel {
        self.insert(key, None)
    }
}

/// The tree after the writes of `writes` were made one after the other.
pub open spec fn apply_writes(tree: TreeModel, writes: Seq<Entry>) -> TreeModel
    decreases writes.len(),
{
    if writes.len() == 0 {
        tree
    } else {
        apply_writes(tree, writes.drop_last()).insert(writes.last().0, writes.last().1)
    }
}

/// The slot of the last write under `key` in `writes`, if there is one.
pub open spec fn last_write(writes: Seq<Entry>, key: Seq<u8>) -> Option<Slot>
    decreases writes.len(),
{
    if writes.len() == 0 {
        None
    } else if writes.last().0 == key {
        Some(writes.last().1)
    } else {
        last_write(writes.drop_last(), key)
    }
}

/// Whether no two writes of `writes` are under the same key.
pub open spec fn distinct_keys(writes: Seq<Entry>) -> bool {
    forall|i: int, j: int|
        #![trigger writes[i], writes[j]]
        0 <= i < j < writes.len() ==> writes[i].0 != writes[j].0
}

/// Whether no write of `writes` is under `key`.
pub open spec fn leaves_alone(writes: Seq<Entry>, key: Seq<u8>) -> bool {
    forall|i: int| 0 <= i < writes.len() ==> (#[trigger] writes[i]).0 != key
}

/// The run that an empty memtable holds after the writes of `writes`, if none
/// of them sets off a flush.
pub open spec fn written_run(writes: Seq<Entry>) -> Seq<Entry>
    decreases writes.len(),
{
    if writes.len() == 0 {
        Seq::empty()
    } else {
        upsert(written_run(writes.drop_last()), writes.last().0, writes.last().1)
    }
}

} // verus!
