//! Sorted runs: sequences of entries in strictly increasing key order.
//!
//! An entry pairs a key with a slot. The slot either holds a value or is a
//! tombstone, which records that the key was deleted. A run holds at most one
//! entry per key, so it can be read as a finite map from keys to slots.

use crate::order::{
    compare_keys, key_lt, lemma_key_lt_irreflexive, lemma_key_lt_transitive, KeyOrder,
};
use vstd::prelude::*;

verus! {

/// What is recorded for a key: `Some(bytes)` for a live value, `None` for a
/// tombstone.
pub type Slot = Option<Seq<u8>>;

/// A key together with its slot.
pub type Entry = (Seq<u8>, Option<Seq<u8>>);

/// The slot that a stored value stands for.
pub open spec fn slot_view(value: Option<Vec<u8>>) -> Slot {
    match value {
        Some(bytes) => Some(bytes@),
        None => None,
    }
}

/// The entry that a stored pair stands for.
pub open spec fn entry_view(entry: (Vec<u8>, Option<Vec<u8>>)) -> Entry {
    (entry.0@, slot_view(entry.1))
}

/// The entries that a stored sequence of pairs stands for, in the same order.
pub open spec fn run_view(entries: Seq<(Vec<u8>, Option<Vec<u8>>)>) -> Seq<Entry> {
    Seq::new(entries.len(), |i: int| entry_view(entries[i]))
}

/// Copies a value or a tombstone.
pub(crate) fn clone_slot(value: &Option<Vec<u8>>) -> (copy: Option<Vec<u8>>)
    ensures
        slot_view(copy) == slot_view(*value),
{
    match value {
        Some(bytes) => Some(bytes.clone()),
        None => None,
    }
}

/// Copies an entry.
pub(crate) fn clone_entry(entry: &(Vec<u8>, Option<Vec<u8>>)) -> (copy: (Vec<u8>, Option<Vec<u8>>))
    ensures
        entry_view(copy) == entry_view(*entry),
{
    (entry.0.clone(), clone_slot(&entry.1))
}

/// Whether the keys of `run` strictly increase from each entry to the next.
pub open spec fn strictly_sorted(run: Seq<Entry>) -> bool {
    forall|i: int, j: int|
        #![trigger run[i], run[j]]
        0 <= i < j < run.len() ==> key_lt(run[i].0, run[j].0)
}

/// Whether the entry at `index` of `run` is the one for `key`.
pub open spec fn holds_key_at(run: Seq<Entry>, key: Seq<u8>, index: int) -> bool {
    0 <= index < run.len() && run[index].0 == key
}

/// Whether `run` has an entry for `key`.
pub open spec fn run_has(run: Seq<Entry>, key: Seq<u8>) -> bool {
    exists|index: int| holds_key_at(run, key, index)
}

/// The slot that `run` records for `key`, or `None` if it has no entry for it.
pub open spec fn run_get(run: Seq<Entry>, key: Seq<u8>) -> Option<Slot> {
    if run_has(run, key) {
        Some(run[choose|index: int| holds_key_at(run, key, index)].1)
    } else {
        None
    }
}

/// The run read as a map from keys to slots.
pub open spec fn run_map(run: Seq<Entry>) -> Map<Seq<u8>, Slot> {
    Map::new(|key: Seq<u8>| run_has(run, key), |key: Seq<u8>| run_get(run, key).unwrap())
}

/// Whether every key of `run` comes after `bound`.
pub open spec fn all_after(run: Seq<Entry>, bound: Seq<u8>) -> bool {
    forall|i: int| 0 <= i < run.len() ==> key_lt(bound, (#[trigger] run[i]).0)
}

/// Whether every key of `run` comes before `bound`.
pub open spec fn all_before(run: Seq<Entry>, bound: Seq<u8>) -> bool {
    forall|i: int| 0 <= i < run.len() ==> key_lt((#[trigger] run[i]).0, bound)
}

/// In a sorted run, the entry found at an index is the one that a lookup of
/// its key gives: no other entry has that key.
pub proof fn lemma_run_get_at(run: Seq<Entry>, index: int)
    requires
        strictly_sorted(run),
        0 <= index < run.len(),
    ensures
        run_has(run, run[index].0),
        run_get(run, run[index].0) == Some(run[index].1),
{
    let key = run[index].0;
    assert(holds_key_at(run, key, index));
    let chosen = choose|i: int| holds_key_at(run, key, i);
    if chosen != index {
        lemma_key_lt_irreflexive(key);
        if chosen < index {
            assert(key_lt(run[chosen].0, run[index].0));
        } else {
            assert(key_lt(run[index].0, run[chosen].0));
        }
    }
}

/// A run whose keys all come after `bound` has no entry for `bound`, nor for
/// any key before it.
pub proof fn lemma_all_after_excludes(run: Seq<Entry>, bound: Seq<u8>, key: Seq<u8>)
    requires
        all_after(run, bound),
        key == bound || key_lt(key, bound),
    ensures
        !run_has(run, key),
{
    if run_has(run, key) {
        let i = choose|i: int| holds_key_at(run, key, i);
        assert(key_lt(bound, run[i].0));
        if key != bound {
            lemma_key_lt_transitive(key, bound, key);
        }
        lemma_key_lt_irreflexive(key);
    }
}

/// Dropping entries from the front of a sorted run leaves a sorted run, all of
/// whose keys come after the last dropped one.
pub proof fn lemma_sorted_skip(run: Seq<Entry>, count: int)
    requires
        strictly_sorted(run),
        0 <= count <= run.len(),
    ensures
        strictly_sorted(run.skip(count)),
        count > 0 ==> all_after(run.skip(count), run[count - 1].0),
{
    let rest = run.skip(count);
    assert forall|i: int, j: int| 0 <= i < j < rest.len() implies key_lt(
        rest[i].0,
        rest[j].0,
    ) by {
        assert(rest[i] == run[i + count]);
        assert(rest[j] == run[j + count]);
    }
    if count > 0 {
        assert forall|i: int| 0 <= i < rest.len() implies key_lt(
            run[count - 1].0,
            (#[trigger] rest[i]).0,
        ) by {
            assert(rest[i] == run[i + count]);
        }
    }
}

/// What a search of a sorted run for a key returns.
///
/// `Ok(index)` gives the position of the entry for the key. `Err(index)` says
/// that there is none, and gives the position at which an entry for the key
/// would keep the run sorted.
pub open spec fn search_result(run: Seq<Entry>, key: Seq<u8>, found: Result<usize, usize>) -> bool {
    match found {
        Ok(index) => holds_key_at(run, key, index as int),
        Err(index) => {
            &&& index <= run.len()
            &&& !run_has(run, key)
            &&& all_before(run.take(index as int), key)
            &&& all_after(run.skip(index as int), key)
        },
    }
}

/// Searches a run for `key` by bisection.
///
/// On a sorted run the outcome is exact: the position of the entry for the
/// key, or the position at which the key is missing. On any run, a position
/// returned as `Ok` holds an entry for the key, and one returned as `Err` is
/// at most the length of the run.
pub fn search_run(data: &[(Vec<u8>, Option<Vec<u8>>)], key: &[u8]) -> (found: Result<
    usize,
    usize,
>)
    ensures
        strictly_sorted(run_view(data@)) ==> search_result(run_view(data@), key@, found),
        match found {
            Ok(index) => holds_key_at(run_view(data@), key@, index as int),
            Err(index) => index <= data.len(),
        },
{
    let ghost run = run_view(data@);
    let mut low: usize = 0;
    let mut high: usize = data.len();
    while low < high
        invariant
            low <= high <= data.len(),
            run == run_view(data@),
            strictly_sorted(run) ==> all_before(run.take(low as int), key@),
            strictly_sorted(run) ==> all_after(run.skip(high as int), key@),
        decreases high - low,
    {
        let middle = low + (high - low) / 2;
        match compare_keys(data[middle].0.as_slice(), key) {
            KeyOrder::Less => {
                proof {
                    if strictly_sorted(run) {
                        let next = run.take(middle + 1);
                        assert forall|i: int| 0 <= i < next.len() implies key_lt(
                            (#[trigger] next[i]).0,
                            key@,
                        ) by {
                            if i < middle {
                                assert(key_lt(run[i].0, run[middle as int].0));
                                lemma_key_lt_transitive(run[i].0, run[middle as int].0, key@);
                            }
                        }
                    }
                }
                low = middle + 1;
            },
            KeyOrder::Greater => {
                proof {
                    if strictly_sorted(run) {
                        let rest = run.skip(middle as int);
                        assert forall|i: int| 0 <= i < rest.len() implies key_lt(
                            key@,
                            (#[trigger] rest[i]).0,
                        ) by {
                            if i > 0 {
                                assert(key_lt(run[middle as int].0, run[middle + i].0));
                                lemma_key_lt_transitive(
                                    key@,
                                    run[middle as int].0,
                                    run[middle + i].0,
                                );
                            }
                        }
                    }
                }
                high = middle;
            },
            KeyOrder::Equal => {
                return Ok(middle);
            },
        }
    }
    proof {
        if strictly_sorted(run) && run_has(run, key@) {
            let i = choose|i: int| holds_key_at(run, key@, i);
            lemma_key_lt_irreflexive(key@);
            if i < low {
                assert(run.take(low as int)[i] == run[i]);
            } else {
                assert(run.skip(high as int)[i - high] == run[i]);
            }
        }
    }
    Err(low)
}

} // verus!
