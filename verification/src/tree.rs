//! The tree: a memtable in front of levels of sorted runs.

use crate::laws::{
    lemma_capacity_doubles, lemma_cascade_wf, lemma_empty_slot, lemma_insert, lemma_upsert,
};
use crate::memtable::Memtable;
use crate::merge::{lemma_merge_len, merge_sorted, merge_spec};
use crate::model::{
    capacity, cascade, empty_below, levels_get, levels_sorted, levels_within_capacity,
    slot_entries, TreeModel,
};
use crate::run::{
    clone_slot, lemma_run_get_at, run_has, run_view, search_run, slot_view, strictly_sorted,
    Entry,
};
use vstd::arithmetic::power2::{lemma2_to64, lemma_pow2_strictly_increases, pow2};
use vstd::bits::{lemma_usize_mul_pow2_le_max_iff_max_shr, lemma_usize_shl_is_mul};
use vstd::prelude::*;

verus! {

/// One level: an immutable sorted run.
pub struct LSMLevel {
    data: Vec<(Vec<u8>, Option<Vec<u8>>)>,
}

impl View for LSMLevel {
    type V = Seq<Entry>;

    /// The entries of the level in key order.
    closed spec fn view(&self) -> Seq<Entry> {
        run_view(self.data@)
    }
}

impl LSMLevel {
    /// The number of entries in the level.
    pub fn len(&self) -> (count: usize)
        ensures
            count == self@.len(),
    {
        self.data.len()
    }

    /// The entries of the level, in key order.
    pub fn entries(&self) -> (entries: &Vec<(Vec<u8>, Option<Vec<u8>>)>)
        ensures
            run_view(entries@) == self@,
    {
        &self.data
    }
}

/// The run that a level slot stands for, if the slot is populated.
pub open spec fn level_slot_view(slot: Option<LSMLevel>) -> Option<Seq<Entry>> {
    match slot {
        Some(level) => Some(level@),
        None => None,
    }
}

/// The runs that a sequence of level slots stands for.
pub open spec fn levels_view(levels: Seq<Option<LSMLevel>>) -> Seq<Option<Seq<Entry>>> {
    Seq::new(levels.len(), |i: int| level_slot_view(levels[i]))
}

/// A log-structured-merge tree over byte-string keys and values.
pub struct LSMTree {
    memtable: Memtable,
    levels: Vec<Option<LSMLevel>>,
    memtable_flush_threshold: usize,
}

impl View for LSMTree {
    type V = TreeModel;

    /// The state of the tree.
    closed spec fn view(&self) -> TreeModel {
        TreeModel {
            memtable: self.memtable@,
            levels: levels_view(self.levels@),
            threshold: self.memtable_flush_threshold as nat,
        }
    }
}

impl LSMTree {
    /// The invariant of a tree between operations.
    pub open spec fn wf(&self) -> bool {
        self@.wf()
    }

    /// An empty tree whose memtable is flushed when it holds
    /// `memtable_flush_threshold` entries. A threshold of 0 is taken as 1.
    pub fn new(memtable_flush_threshold: usize) -> (tree: LSMTree)
        ensures
            tree.wf(),
            tree@ == TreeModel::empty(
                if memtable_flush_threshold == 0 {
                    1
                } else {
                    memtable_flush_threshold as nat
                },
            ),
    {
        let threshold: usize = if memtable_flush_threshold == 0 {
            1
        } else {
            memtable_flush_threshold
        };
        let tree = LSMTree {
            memtable: Memtable::new(),
            levels: Vec::new(),
            memtable_flush_threshold: threshold,
        };
        assert(tree@.levels =~= Seq::<Option<Seq<Entry>>>::empty());
        tree
    }

    /// The number of entries at which the memtable is flushed.
    pub fn threshold(&self) -> (threshold: usize)
        ensures
            threshold == self@.threshold,
    {
        self.memtable_flush_threshold
    }

    /// The number of entries in the memtable.
    pub fn memtable_len(&self) -> (count: usize)
        ensures
            count == self@.memtable.len(),
    {
        self.memtable.len()
    }

    /// The number of level slots, empty ones included.
    pub fn level_count(&self) -> (count: usize)
        ensures
            count == self@.levels.len(),
    {
        self.levels.len()
    }

    /// The level in slot `index`, or `None` if that slot is empty or there is
    /// no such slot.
    pub fn level(&self, index: usize) -> (level: Option<&LSMLevel>)
        ensures
            match level {
                Some(level) => index < self@.levels.len() && self@.levels[index as int] == Some(
                    level@,
                ),
                None => index >= self@.levels.len() || self@.levels[index as int] is None,
            },
    {
        if index < self.levels.len() {
            self.levels[index].as_ref()
        } else {
            None
        }
    }

    /// The number of entries that level `level` has room for: the threshold
    /// times two to the power of `level`. `None` if that number does not fit
    /// in a `usize`.
    pub fn level_capacity(&self, level: usize) -> (room: Option<usize>)
        requires
            self.wf(),
        ensures
            match room {
                Some(room) => room == capacity(self@.threshold, level as nat),
                None => capacity(self@.threshold, level as nat) > usize::MAX,
            },
    {
        let threshold = self.memtable_flush_threshold;
        if level >= usize::BITS as usize {
            proof {
                lemma2_to64();
                if level > usize::BITS {
                    lemma_pow2_strictly_increases(usize::BITS as nat, level as nat);
                }
                let room = pow2(level as nat);
                assert(threshold * room >= room) by (nonlinear_arith)
                    requires
                        threshold >= 1,
                        room >= 0,
                ;
            }
            None
        } else {
            proof {
                lemma_usize_mul_pow2_le_max_iff_max_shr(threshold, level, usize::MAX);
            }
            if threshold <= (usize::MAX >> level) {
                proof {
                    lemma_usize_shl_is_mul(threshold, level);
                }
                Some(threshold << level)
            } else {
                None
            }
        }
    }

    /// Writes `value` under `key`; `None` writes a tombstone. The write goes
    /// to the memtable, which is flushed if that brings it to the threshold.
    ///
    /// Afterwards the tree records `value` under `key`, and under every other
    /// key what it recorded before.
    pub fn insert(&mut self, key: Vec<u8>, value: Option<Vec<u8>>)
        requires
            old(self).wf(),
        ensures
            final(self).wf(),
            final(self)@ == old(self)@.insert(key@, slot_view(value)),
            final(self)@.contents() == old(self)@.contents().insert(key@, slot_view(value)),
    {
        proof {
            lemma_upsert(self@.memtable, key@, slot_view(value));
            lemma_insert(self@, key@, slot_view(value));
        }
        self.memtable.upsert(key, value);
        if self.memtable.len() >= self.memtable_flush_threshold {
            self.flush_memtable();
        }
    }

    /// Deletes `key` by writing a tombstone under it.
    pub fn delete(&mut self, key: Vec<u8>)
        requires
            old(self).wf(),
        ensures
            final(self).wf(),
            final(self)@ == old(self)@.delete(key@),
            final(self)@.contents() == old(self)@.contents().insert(key@, None),
    {
        self.insert(key, None);
    }

    /// Reads `key`: the value of the first entry found for it in the
    /// memtable, level 0, level 1 and so on. `None` if that entry is a
    /// tombstone or there is none.
    pub fn get(&self, key: &[u8]) -> (value: Option<Vec<u8>>)
        requires
            self.wf(),
        ensures
            slot_view(value) == self@.get(key@),
    {
        if let Some(slot) = self.memtable.get(key) {
            return clone_slot(slot);
        }
        let mut index: usize = 0;
        while index < self.levels.len()
            invariant
                self.wf(),
                index <= self.levels.len(),
                self@.lookup(key@) == levels_get(self@.levels, key@, index as nat),
            decreases self.levels.len() - index,
        {
            assert(self@.levels[index as int] == level_slot_view(self.levels@[index as int]));
            if let Some(level) = &self.levels[index] {
                if let Ok(position) = search_run(level.data.as_slice(), key) {
                    proof {
                        lemma_run_get_at(level@, position as int);
                    }
                    return clone_slot(&level.data[position].1);
                }
            } else {
                assert(!run_has(slot_entries(self@.levels[index as int]), key@));
            }
            index += 1;
        }
        None
    }

    /// Moves the entries of the memtable into level 0.
    fn flush_memtable(&mut self)
        requires
            old(self)@.threshold > 0,
            strictly_sorted(old(self)@.memtable),
            old(self)@.memtable.len() <= old(self)@.threshold,
            levels_sorted(old(self)@.levels),
            levels_within_capacity(old(self)@.levels, old(self)@.threshold),
        ensures
            final(self).wf(),
            final(self)@ == old(self)@.flush(),
    {
        let new_level_data = self.memtable.take_entries();
        proof {
            lemma2_to64();
            assert(capacity(self@.threshold, 0) == self@.threshold);
        }
        self.merge_into_level(0, new_level_data);
    }

    /// Merges `new_data` into level `level`, and on into the levels after it
    /// for as long as the merge reaches the capacity of the level.
    fn merge_into_level(&mut self, level: usize, new_data: Vec<(Vec<u8>, Option<Vec<u8>>)>)
        requires
            old(self).wf(),
            level <= old(self)@.levels.len(),
            empty_below(old(self)@.levels, level as nat),
            strictly_sorted(run_view(new_data@)),
            new_data.len() <= capacity(old(self)@.threshold, level as nat),
        ensures
            final(self).wf(),
            final(self)@ == (TreeModel {
                memtable: old(self)@.memtable,
                levels: cascade(
                    old(self)@.levels,
                    level as nat,
                    run_view(new_data@),
                    old(self)@.threshold,
                ),
                threshold: old(self)@.threshold,
            }),
        decreases old(self)@.levels.len() - level,
    {
        let ghost before = self@;
        let ghost incoming = run_view(new_data@);
        proof {
            lemma_cascade_wf(before.levels, level as nat, incoming, before.threshold);
        }
        if level >= self.levels.len() {
            self.levels.push(Some(LSMLevel { data: new_data }));
            assert(self@.levels =~= before.levels.push(Some(incoming)));
            return;
        }
        assert(before.levels[level as int] == level_slot_view(self.levels@[level as int]));
        let existing_data = match self.levels[level].take() {
            Some(existing) => existing.data,
            None => Vec::new(),
        };
        assert(run_view(existing_data@) =~= slot_entries(before.levels[level as int]));
        assert(self@.levels =~= before.levels.update(level as int, None));
        proof {
            lemma_empty_slot(before.levels, level as nat, before.threshold);
        }

        let data = merge_sorted(existing_data.as_slice(), new_data.as_slice());
        let ghost merged = run_view(data@);
        assert(merged == merge_spec(slot_entries(before.levels[level as int]), incoming));

        // cascading compaction: a merge that reaches the capacity of the level
        // goes on into the next level, a smaller one stays here
        let reaches_capacity = match self.level_capacity(level) {
            Some(room) => data.len() >= room,
            None => false,
        };
        assert(reaches_capacity <==> merged.len() >= capacity(before.threshold, level as nat));
        if reaches_capacity {
            proof {
                lemma_capacity_doubles(before.threshold, level as nat);
                lemma_merge_len(slot_entries(before.levels[level as int]), incoming);
            }
            self.merge_into_level(level + 1, data);
        } else {
            self.levels[level] = Some(LSMLevel { data });
            assert(self@.levels =~= before.levels.update(level as int, Some(merged)));
        }
    }
}

} // verus!
