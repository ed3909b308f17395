//! The memtable: the ordered, mutable buffer that receives every write.
//!
//! It holds at most one entry per key, in key order, so what it hands over at
//! a flush is a sorted run.

use crate::laws::{lemma_upsert, lemma_upsert_inserts, lemma_upsert_replaces};
use crate::model::upsert;
use crate::run::{
    entry_view, lemma_run_get_at, run_get, run_view, search_run, slot_view, strictly_sorted, Entry,
};
use vstd::prelude::*;

verus! {

/// An ordered mapping from keys to values or tombstones.
pub struct Memtable {
    entries: Vec<(Vec<u8>, Option<Vec<u8>>)>,
}

impl View for Memtable {
    type V = Seq<Entry>;

    /// The entries in key order.
    closed spec fn view(&self) -> Seq<Entry> {
        run_view(self.entries@)
    }
}

impl Memtable {
    /// The invariant of a memtable: its keys strictly increase.
    pub open spec fn wf(&self) -> bool {
        strictly_sorted(self@)
    }

    /// A memtable without entries.
    pub fn new() -> (memtable: Memtable)
        ensures
            memtable@ == Seq::<Entry>::empty(),
            memtable.wf(),
    {
        let memtable = Memtable { entries: Vec::new() };
        assert(memtable@ =~= Seq::<Entry>::empty());
        memtable
    }

    /// The number of entries.
    pub fn len(&self) -> (count: usize)
        ensures
            count == self@.len(),
    {
        self.entries.len()
    }

    /// What the memtable records for `key`, if it has an entry for it.
    pub fn get(&self, key: &[u8]) -> (found: Option<&Option<Vec<u8>>>)
        requires
            self.wf(),
        ensures
            match found {
                Some(value) => run_get(self@, key@) == Some(slot_view(*value)),
                None => run_get(self@, key@) is None,
            },
    {
        match search_run(self.entries.as_slice(), key) {
            Ok(index) => {
                proof {
                    lemma_run_get_at(self@, index as int);
                }
                Some(&self.entries[index].1)
            },
            Err(_) => None,
        }
    }

    /// Records `value` for `key`, in place of what was recorded for it before.
    pub fn upsert(&mut self, key: Vec<u8>, value: Option<Vec<u8>>)
        requires
            old(self).wf(),
        ensures
            final(self).wf(),
            final(self)@ == upsert(old(self)@, key@, slot_view(value)),
    {
        let ghost before = self@;
        let ghost written = entry_view((key, value));
        proof {
            lemma_upsert(before, key@, slot_view(value));
        }
        match search_run(self.entries.as_slice(), key.as_slice()) {
            Ok(index) => {
                proof {
                    lemma_upsert_replaces(before, key@, slot_view(value), index as int);
                }
                self.entries[index] = (key, value);
                assert(self@ =~= before.update(index as int, written));
            },
            Err(index) => {
                proof {
                    lemma_upsert_inserts(before, key@, slot_view(value), index as int);
                }
                self.entries.insert(index, (key, value));
                assert(self@ =~= before.insert(index as int, written));
            },
        }
    }

    /// Hands over all entries, in key order, and leaves the memtable empty.
    pub fn take_entries(&mut self) -> (entries: Vec<(Vec<u8>, Option<Vec<u8>>)>)
        ensures
            run_view(entries@) == old(self)@,
            final(self)@ == Seq::<Entry>::empty(),
    {
        let mut entries: Vec<(Vec<u8>, Option<Vec<u8>>)> = Vec::new();
        std::mem::swap(&mut self.entries, &mut entries);
        assert(self@ =~= Seq::<Entry>::empty());
        entries
    }
}

} // verus!
