//! What holds of the model: how writes, flushes and cascades change what a
//! tree records, and that they keep its invariant.
//!
//! The first part is about a write to a single sorted run, the second about
//! cascades through the levels, the third about whole trees.

use crate::merge::{
    key_disjoint, lemma_merge_get, lemma_merge_len, lemma_merge_sorted, merge_spec,
};
use crate::model::{
    apply_writes, capacity, cascade, cascade_load, cascade_stop, distinct_keys, empty_below,
    last_write, leaves_alone, levels_get, levels_sorted, levels_within_capacity, slot_entries,
    upsert, written_run, TreeModel,
};
use crate::order::{key_lt, lemma_key_lt_asymmetric, lemma_key_lt_irreflexive};
use crate::run::{
    all_after, all_before, holds_key_at, lemma_run_get_at, lemma_sorted_skip, run_get, run_has,
    strictly_sorted, Entry, Slot,
};
use vstd::arithmetic::power2::{lemma2_to64, lemma_pow2_pos, lemma_pow2_unfold, pow2};
use vstd::prelude::*;

verus! {

// Writes to a sorted run.

/// A run of one entry is sorted and records that entry alone.
pub proof fn lemma_single_entry(key: Seq<u8>, slot: Slot, probe: Seq<u8>)
    ensures
        strictly_sorted(seq![(key, slot)]),
        run_get(seq![(key, slot)], probe) == if probe == key {
            Some(slot)
        } else {
            None::<Slot>
        },
{
    let run = seq![(key, slot)];
    if probe == key {
        lemma_run_get_at(run, 0);
    } else if run_has(run, probe) {
        let i = choose|i: int| holds_key_at(run, probe, i);
        assert(run[i].0 == key);
    }
}

/// A write to a sorted run that has an entry for the key replaces that entry
/// where it stands.
pub proof fn lemma_upsert_replaces(run: Seq<Entry>, key: Seq<u8>, slot: Slot, index: int)
    requires
        strictly_sorted(run),
        holds_key_at(run, key, index),
    ensures
        upsert(run, key, slot) == run.update(index, (key, slot)),
    decreases index,
{
    let single = seq![(key, slot)];
    lemma_key_lt_irreflexive(key);
    assert(single.skip(1) =~= Seq::<Entry>::empty());
    if index == 0 {
        assert(merge_spec(run.skip(1), single.skip(1)) =~= run.skip(1));
        assert(seq![(key, slot)] + run.skip(1) =~= run.update(0, (key, slot)));
    } else {
        assert(key_lt(run[0].0, run[index].0));
        lemma_key_lt_asymmetric(run[0].0, key);
        lemma_sorted_skip(run, 1);
        assert(run.skip(1)[index - 1] == run[index]);
        lemma_upsert_replaces(run.skip(1), key, slot, index - 1);
        assert(seq![run[0]] + run.skip(1).update(index - 1, (key, slot)) =~= run.update(
            index,
            (key, slot),
        ));
    }
}

/// A write to a sorted run that has no entry for the key puts the entry
/// between the keys before it and the keys after it.
pub proof fn lemma_upsert_inserts(run: Seq<Entry>, key: Seq<u8>, slot: Slot, index: int)
    requires
        strictly_sorted(run),
        0 <= index <= run.len(),
        all_before(run.take(index), key),
        all_after(run.skip(index), key),
    ensures
        upsert(run, key, slot) == run.insert(index, (key, slot)),
    decreases index,
{
    let single = seq![(key, slot)];
    assert(single.skip(1) =~= Seq::<Entry>::empty());
    if run.len() == 0 {
        assert(single =~= run.insert(index, (key, slot)));
    } else if index == 0 {
        assert(run.skip(0)[0] == run[0]);
        lemma_key_lt_asymmetric(key, run[0].0);
        assert(merge_spec(run, single.skip(1)) == run);
        assert(seq![(key, slot)] + run =~= run.insert(0, (key, slot)));
    } else {
        assert(run.take(index)[0] == run[0]);
        lemma_key_lt_asymmetric(run[0].0, key);
        lemma_sorted_skip(run, 1);
        let rest = run.skip(1);
        assert(rest.skip(index - 1) =~= run.skip(index));
        assert forall|i: int| 0 <= i < rest.take(index - 1).len() implies key_lt(
            (#[trigger] rest.take(index - 1)[i]).0,
            key,
        ) by {
            assert(rest.take(index - 1)[i] == run.take(index)[i + 1]);
        }
        lemma_upsert_inserts(rest, key, slot, index - 1);
        assert(seq![run[0]] + rest.insert(index - 1, (key, slot)) =~= run.insert(
            index,
            (key, slot),
        ));
    }
}

/// A write to a sorted run leaves it sorted. Afterwards the run records the
/// written slot under the written key and what it recorded before under every
/// other key. It grows by one entry if the key is new to it, and keeps its
/// length otherwise.
pub proof fn lemma_upsert(run: Seq<Entry>, key: Seq<u8>, slot: Slot)
    requires
        strictly_sorted(run),
    ensures
        strictly_sorted(upsert(run, key, slot)),
        forall|probe: Seq<u8>|
            #[trigger] run_get(upsert(run, key, slot), probe) == if probe == key {
                Some(slot)
            } else {
                run_get(run, probe)
            },
        upsert(run, key, slot).len() == if run_has(run, key) {
            run.len()
        } else {
            run.len() + 1
        },
{
    let single = seq![(key, slot)];
    lemma_single_entry(key, slot, key);
    lemma_merge_sorted(run, single);
    assert forall|probe: Seq<u8>|
        #[trigger] run_get(upsert(run, key, slot), probe) == if probe == key {
            Some(slot)
        } else {
            run_get(run, probe)
        } by {
        lemma_single_entry(key, slot, probe);
        lemma_merge_get(run, single, probe);
    }
    if run_has(run, key) {
        let index = choose|index: int| holds_key_at(run, key, index);
        lemma_upsert_replaces(run, key, slot, index);
    } else {
        assert(key_disjoint(run, single)) by {
            assert forall|i: int, j: int|
                #![trigger run[i], single[j]]
                0 <= i < run.len() && 0 <= j < single.len() implies run[i].0 != single[j].0 by {
                if run[i].0 == key {
                    assert(holds_key_at(run, key, i));
                }
            }
        }
        lemma_merge_len(run, single);
    }
}

// Cascades.

/// Every level has room for at least one entry, and each level has twice the
/// room of the one before it.
pub proof fn lemma_capacity_doubles(threshold: nat, level: nat)
    requires
        threshold > 0,
    ensures
        capacity(threshold, level) >= threshold,
        capacity(threshold, level + 1) == 2 * capacity(threshold, level),
{
    lemma_pow2_pos(level);
    lemma_pow2_unfold(level + 1);
    let room = pow2(level);
    assert(threshold * room >= threshold) by (nonlinear_arith)
        requires
            room >= 1,
    ;
    assert(threshold * (2 * room) == 2 * (threshold * room)) by (nonlinear_arith);
}

/// A cascade keeps the levels in order: it never removes a slot, adds at most
/// one, and leaves every slot below the level at which it starts as it was.
pub proof fn lemma_cascade_frame(
    levels: Seq<Option<Seq<Entry>>>,
    level: nat,
    data: Seq<Entry>,
    threshold: nat,
)
    ensures
        levels.len() <= cascade(levels, level, data, threshold).len() <= levels.len() + 1,
        forall|i: int|
            0 <= i < level && i < levels.len() ==> #[trigger] cascade(
                levels,
                level,
                data,
                threshold,
            )[i] == levels[i],
    decreases levels.len() - level,
{
    if level < levels.len() {
        let merged = merge_spec(slot_entries(levels[level as int]), data);
        if merged.len() >= capacity(threshold, level) {
            lemma_cascade_frame(levels.update(level as int, None), level + 1, merged, threshold);
        }
    }
}

/// Emptying a slot keeps the invariant of the levels, and extends the empty
/// slots below the level by the level itself.
pub proof fn lemma_empty_slot(levels: Seq<Option<Seq<Entry>>>, level: nat, threshold: nat)
    requires
        threshold > 0,
        level < levels.len(),
        levels_sorted(levels),
        levels_within_capacity(levels, threshold),
    ensures
        levels_sorted(levels.update(level as int, None)),
        levels_within_capacity(levels.update(level as int, None), threshold),
        empty_below(levels, level) ==> empty_below(levels.update(level as int, None), level + 1),
{
    let emptied = levels.update(level as int, None);
    lemma_capacity_doubles(threshold, level);
    assert forall|i: int| 0 <= i < emptied.len() implies strictly_sorted(
        slot_entries(#[trigger] emptied[i]),
    ) by {
        if i != level {
            assert(emptied[i] == levels[i]);
        }
    }
    assert forall|i: int| 0 <= i < emptied.len() implies {
        let count = slot_entries(#[trigger] emptied[i]).len();
        &&& count <= capacity(threshold, i as nat)
        &&& i + 1 < emptied.len() ==> count < capacity(threshold, i as nat)
    } by {
        if i != level {
            assert(emptied[i] == levels[i]);
        }
    }
    if empty_below(levels, level) {
        assert forall|i: int| 0 <= i < level + 1 && i < emptied.len() implies (
        #[trigger] emptied[i]) is None by {
            if i != level {
                assert(emptied[i] == levels[i]);
            }
        }
    }
}

/// A cascade keeps the invariant of the levels. It needs the incoming run to
/// be sorted and no longer than the level's capacity, and the slots below the
/// level to be empty.
pub proof fn lemma_cascade_wf(
    levels: Seq<Option<Seq<Entry>>>,
    level: nat,
    data: Seq<Entry>,
    threshold: nat,
)
    requires
        threshold > 0,
        level <= levels.len(),
        levels_sorted(levels),
        levels_within_capacity(levels, threshold),
        empty_below(levels, level),
        strictly_sorted(data),
        data.len() <= capacity(threshold, level),
    ensures
        levels_sorted(cascade(levels, level, data, threshold)),
        levels_within_capacity(cascade(levels, level, data, threshold), threshold),
    decreases levels.len() - level,
{
    let after = cascade(levels, level, data, threshold);
    if level >= levels.len() {
        assert forall|i: int| 0 <= i < after.len() implies {
            let count = slot_entries(#[trigger] after[i]).len();
            &&& count <= capacity(threshold, i as nat)
            &&& i + 1 < after.len() ==> count < capacity(threshold, i as nat)
        } by {
            lemma_capacity_doubles(threshold, i as nat);
            if i < levels.len() {
                assert(after[i] == levels[i]);
            }
        }
        assert forall|i: int| 0 <= i < after.len() implies strictly_sorted(
            slot_entries(#[trigger] after[i]),
        ) by {
            if i < levels.len() {
                assert(after[i] == levels[i]);
            }
        }
    } else {
        let held = slot_entries(levels[level as int]);
        let merged = merge_spec(held, data);
        lemma_merge_sorted(held, data);
        lemma_merge_len(held, data);
        lemma_capacity_doubles(threshold, level);
        if merged.len() >= capacity(threshold, level) {
            let emptied = levels.update(level as int, None);
            lemma_empty_slot(levels, level, threshold);
            lemma_cascade_wf(emptied, level + 1, merged, threshold);
        } else {
            assert forall|i: int| 0 <= i < after.len() implies strictly_sorted(
                slot_entries(#[trigger] after[i]),
            ) by {
                if i != level {
                    assert(after[i] == levels[i]);
                }
            }
            assert forall|i: int| 0 <= i < after.len() implies {
                let count = slot_entries(#[trigger] after[i]).len();
                &&& count <= capacity(threshold, i as nat)
                &&& i + 1 < after.len() ==> count < capacity(threshold, i as nat)
            } by {
                if i != level {
                    assert(after[i] == levels[i]);
                }
            }
        }
    }
}

/// A lookup passes over empty slots.
pub proof fn lemma_levels_get_skips_empty(
    levels: Seq<Option<Seq<Entry>>>,
    key: Seq<u8>,
    from: nat,
    to: nat,
)
    requires
        from <= to <= levels.len(),
        forall|i: int| from <= i < to ==> (#[trigger] levels[i]) is None,
    ensures
        levels_get(levels, key, from) == levels_get(levels, key, to),
    decreases to - from,
{
    if from < to {
        assert(levels[from as int] is None);
        assert(!run_has(slot_entries(levels[from as int]), key));
        lemma_levels_get_skips_empty(levels, key, from + 1, to);
    }
}

/// A lookup from a level on depends on the slots from that level on alone.
pub proof fn lemma_levels_get_same_tail(
    first: Seq<Option<Seq<Entry>>>,
    second: Seq<Option<Seq<Entry>>>,
    key: Seq<u8>,
    from: nat,
)
    requires
        first.len() == second.len(),
        forall|i: int| from <= i < first.len() ==> first[i] == second[i],
    ensures
        levels_get(first, key, from) == levels_get(second, key, from),
    decreases first.len() - from,
{
    if from < first.len() {
        lemma_levels_get_same_tail(first, second, key, from + 1);
    }
}

/// A slot added at the end is read last.
pub proof fn lemma_levels_get_push(
    levels: Seq<Option<Seq<Entry>>>,
    run: Seq<Entry>,
    key: Seq<u8>,
    from: nat,
)
    requires
        from <= levels.len(),
    ensures
        levels_get(levels.push(Some(run)), key, from) == match levels_get(levels, key, from) {
            Some(slot) => Some(slot),
            None => run_get(run, key),
        },
    decreases levels.len() - from,
{
    let grown = levels.push(Some(run));
    if from < levels.len() {
        assert(grown[from as int] == levels[from as int]);
        lemma_levels_get_push(levels, run, key, from + 1);
    } else {
        assert(levels_get(grown, key, from + 1) is None);
    }
}

/// After a cascade the levels record for every key what the incoming run
/// records for it, and what they recorded before where the incoming run has
/// no entry for it.
pub proof fn lemma_cascade_get(
    levels: Seq<Option<Seq<Entry>>>,
    level: nat,
    data: Seq<Entry>,
    threshold: nat,
    key: Seq<u8>,
)
    requires
        level <= levels.len(),
        levels_sorted(levels),
        empty_below(levels, level),
        strictly_sorted(data),
    ensures
        levels_get(cascade(levels, level, data, threshold), key, 0) == match run_get(data, key) {
            Some(slot) => Some(slot),
            None => levels_get(levels, key, 0),
        },
    decreases levels.len() - level,
{
    let after = cascade(levels, level, data, threshold);
    lemma_levels_get_skips_empty(levels, key, 0, level);
    if level >= levels.len() {
        lemma_levels_get_push(levels, data, key, 0);
    } else {
        let held = slot_entries(levels[level as int]);
        let merged = merge_spec(held, data);
        lemma_merge_sorted(held, data);
        lemma_merge_get(held, data, key);
        if merged.len() >= capacity(threshold, level) {
            let emptied = levels.update(level as int, None);
            assert forall|i: int| 0 <= i < emptied.len() implies strictly_sorted(
                slot_entries(#[trigger] emptied[i]),
            ) by {
                if i != level {
                    assert(emptied[i] == levels[i]);
                }
            }
            assert forall|i: int| 0 <= i < level + 1 && i < emptied.len() implies (
            #[trigger] emptied[i]) is None by {
                if i != level {
                    assert(emptied[i] == levels[i]);
                }
            }
            lemma_cascade_get(emptied, level + 1, merged, threshold, key);
            lemma_levels_get_skips_empty(emptied, key, 0, level + 1);
            lemma_levels_get_same_tail(emptied, levels, key, level + 1);
        } else {
            assert forall|i: int| 0 <= i < level implies (#[trigger] after[i]) is None by {
                assert(after[i] == levels[i]);
            }
            lemma_levels_get_skips_empty(after, key, 0, level);
            lemma_levels_get_same_tail(after, levels, key, level + 1);
        }
    }
}

/// Cascade trigger. Level `level` has room for `threshold * 2^level`
/// entries. When a run is merged into a level and the merge stays below that
/// number, the level holds the merge and no other level changes. When the
/// merge reaches it, the level is left empty and the merge goes on into the
/// next level: it becomes the next level if there was none, and is merged
/// into it by the same rule otherwise.
pub proof fn lemma_cascade_trigger(
    levels: Seq<Option<Seq<Entry>>>,
    level: nat,
    data: Seq<Entry>,
    threshold: nat,
)
    requires
        level < levels.len(),
    ensures
        ({
            let merged = merge_spec(slot_entries(levels[level as int]), data);
            let after = cascade(levels, level, data, threshold);
            let emptied = levels.update(level as int, None);
            if merged.len() >= threshold * pow2(level) {
                &&& after[level as int] is None
                &&& after == cascade(emptied, level + 1, merged, threshold)
                &&& level + 1 == levels.len() ==> after == emptied.push(Some(merged))
                &&& level + 1 < levels.len() ==> {
                    let next = merge_spec(slot_entries(levels[level as int + 1]), merged);
                    if next.len() >= threshold * pow2(level + 1) {
                        after[level as int + 1] is None
                    } else {
                        after == emptied.update(level as int + 1, Some(next))
                    }
                }
            } else {
                after == levels.update(level as int, Some(merged))
            }
        }),
{
    let merged = merge_spec(slot_entries(levels[level as int]), data);
    let emptied = levels.update(level as int, None);
    if merged.len() >= threshold * pow2(level) {
        lemma_cascade_frame(emptied, level + 1, merged, threshold);
        if level + 1 < levels.len() {
            let next = merge_spec(slot_entries(emptied[level as int + 1]), merged);
            if next.len() >= capacity(threshold, level + 1) {
                lemma_cascade_frame(
                    emptied.update(level as int + 1, None),
                    level + 2,
                    next,
                    threshold,
                );
            }
        }
    }
}

/// Where a cascade comes to rest, and with what, depends on the slots from
/// its starting level on alone.
pub proof fn lemma_cascade_stop_same_tail(
    first: Seq<Option<Seq<Entry>>>,
    second: Seq<Option<Seq<Entry>>>,
    level: nat,
    data: Seq<Entry>,
    threshold: nat,
)
    requires
        first.len() == second.len(),
        forall|i: int| level <= i < first.len() ==> first[i] == second[i],
    ensures
        cascade_stop(first, level, data, threshold) == cascade_stop(second, level, data, threshold),
        cascade_load(first, level, data, threshold) == cascade_load(second, level, data, threshold),
    decreases first.len() - level,
{
    if level < first.len() {
        let merged = merge_spec(slot_entries(first[level as int]), data);
        if merged.len() >= capacity(threshold, level) {
            lemma_cascade_stop_same_tail(first, second, level + 1, merged, threshold);
        }
    }
}

/// The shape of the levels after a cascade. The slots below the level at
/// which it starts are as they were. The slots from there up to the level at
/// which the run comes to rest are empty. That level holds the run, which is
/// below the level's capacity unless the level is new. The slots after it are
/// as they were.
pub proof fn lemma_cascade_shape(
    levels: Seq<Option<Seq<Entry>>>,
    level: nat,
    data: Seq<Entry>,
    threshold: nat,
)
    requires
        level <= levels.len(),
    ensures
        ({
            let after = cascade(levels, level, data, threshold);
            let stop = cascade_stop(levels, level, data, threshold);
            let load = cascade_load(levels, level, data, threshold);
            &&& level <= stop <= levels.len()
            &&& after.len() == if stop == levels.len() {
                levels.len() + 1
            } else {
                levels.len()
            }
            &&& forall|i: int| 0 <= i < level ==> #[trigger] after[i] == levels[i]
            &&& forall|i: int| level <= i < stop ==> (#[trigger] after[i]) is None
            &&& after[stop as int] == Some(load)
            &&& forall|i: int| stop < i < levels.len() ==> #[trigger] after[i] == levels[i]
            &&& stop < levels.len() ==> load.len() < capacity(threshold, stop)
        }),
    decreases levels.len() - level,
{
    if level < levels.len() {
        let merged = merge_spec(slot_entries(levels[level as int]), data);
        if merged.len() >= capacity(threshold, level) {
            let emptied = levels.update(level as int, None);
            lemma_cascade_shape(emptied, level + 1, merged, threshold);
            lemma_cascade_stop_same_tail(emptied, levels, level + 1, merged, threshold);
        }
    }
}

// Trees.

/// A tree with nothing in it satisfies the invariant, and records nothing.
pub proof fn lemma_empty(threshold: nat, key: Seq<u8>)
    requires
        threshold > 0,
    ensures
        TreeModel::empty(threshold).wf(),
        TreeModel::empty(threshold).lookup(key) is None,
        TreeModel::empty(threshold).get(key) is None,
{
    assert(!run_has(TreeModel::empty(threshold).memtable, key));
}

/// A write keeps the invariant of the tree. Afterwards the tree records the
/// written slot under the written key, and under every other key what it
/// recorded before, whether or not the write set off a flush and whatever
/// levels the flush ran through.
pub proof fn lemma_insert(tree: TreeModel, key: Seq<u8>, slot: Slot)
    requires
        tree.wf(),
    ensures
        tree.insert(key, slot).wf(),
        forall|probe: Seq<u8>|
            #[trigger] tree.insert(key, slot).lookup(probe) == if probe == key {
                Some(slot)
            } else {
                tree.lookup(probe)
            },
        tree.insert(key, slot).contents() == tree.contents().insert(key, slot),
{
    let after = tree.insert(key, slot);
    let written = upsert(tree.memtable, key, slot);
    lemma_upsert(tree.memtable, key, slot);
    if written.len() >= tree.threshold {
        lemma2_to64();
        assert(capacity(tree.threshold, 0) == tree.threshold);
        lemma_cascade_wf(tree.levels, 0, written, tree.threshold);
    }
    assert forall|probe: Seq<u8>|
        #[trigger] after.lookup(probe) == if probe == key {
            Some(slot)
        } else {
            tree.lookup(probe)
        } by {
        assert(run_get(written, probe) == if probe == key {
            Some(slot)
        } else {
            run_get(tree.memtable, probe)
        });
        if written.len() >= tree.threshold {
            lemma_cascade_get(tree.levels, 0, written, tree.threshold, probe);
            assert(!run_has(after.memtable, probe));
        }
    }
    assert(after.contents() =~= tree.contents().insert(key, slot));
}

/// Writes keep the invariant of the tree, and the last write under a key
/// wins: after any sequence of writes the tree records under a key the slot
/// of the last write under it, and what it recorded before if there was none.
pub proof fn lemma_last_write_wins(tree: TreeModel, writes: Seq<Entry>, key: Seq<u8>)
    requires
        tree.wf(),
    ensures
        apply_writes(tree, writes).wf(),
        apply_writes(tree, writes).lookup(key) == match last_write(writes, key) {
            Some(slot) => Some(slot),
            None => tree.lookup(key),
        },
    decreases writes.len(),
{
    if writes.len() > 0 {
        let earlier = apply_writes(tree, writes.drop_last());
        lemma_last_write_wins(tree, writes.drop_last(), key);
        lemma_insert(earlier, writes.last().0, writes.last().1);
        assert(earlier.insert(writes.last().0, writes.last().1).lookup(key) == if key
            == writes.last().0 {
            Some(writes.last().1)
        } else {
            earlier.lookup(key)
        });
    }
}

/// Writes under other keys do not count as a write under `key`.
pub proof fn lemma_last_write_absent(writes: Seq<Entry>, key: Seq<u8>)
    requires
        leaves_alone(writes, key),
    ensures
        last_write(writes, key) is None,
    decreases writes.len(),
{
    if writes.len() > 0 {
        assert(writes.last() == writes[writes.len() - 1]);
        assert forall|i: int| 0 <= i < writes.drop_last().len() implies (
        #[trigger] writes.drop_last()[i]).0 != key by {
            assert(writes.drop_last()[i] == writes[i]);
        }
        lemma_last_write_absent(writes.drop_last(), key);
    }
}

/// Read-your-write. After a value was written under a key, a read of the key
/// returns that value. This holds in every state of the tree, whatever
/// writes, flushes and cascades led to it, and it still holds after any
/// number of later writes under other keys, whatever flushes and cascades
/// they set off.
pub proof fn lemma_read_your_write(
    tree: TreeModel,
    key: Seq<u8>,
    value: Seq<u8>,
    later: Seq<Entry>,
)
    requires
        tree.wf(),
        leaves_alone(later, key),
    ensures
        tree.insert(key, Some(value)).get(key) == Some(value),
        apply_writes(tree.insert(key, Some(value)), later).get(key) == Some(value),
{
    lemma_insert(tree, key, Some(value));
    assert(tree.insert(key, Some(value)).lookup(key) == Some(Some(value)));
    lemma_last_write_wins(tree.insert(key, Some(value)), later, key);
    lemma_last_write_absent(later, key);
}

/// Overwrite freshness. After two writes under one key a read returns the
/// second value, whatever was written in between and whether or not that set
/// off a flush, and so it stays under later writes under other keys.
pub proof fn lemma_overwrite_freshness(
    tree: TreeModel,
    key: Seq<u8>,
    first: Seq<u8>,
    between: Seq<Entry>,
    second: Seq<u8>,
    later: Seq<Entry>,
)
    requires
        tree.wf(),
        leaves_alone(later, key),
    ensures
        apply_writes(tree.insert(key, Some(first)), between).insert(key, Some(second)).get(key)
            == Some(second),
        apply_writes(
            apply_writes(tree.insert(key, Some(first)), between).insert(key, Some(second)),
            later,
        ).get(key) == Some(second),
{
    lemma_insert(tree, key, Some(first));
    let middle = apply_writes(tree.insert(key, Some(first)), between);
    lemma_last_write_wins(tree.insert(key, Some(first)), between, key);
    lemma_read_your_write(middle, key, second, later);
}

/// Delete visibility. After a key was deleted a read of it finds no value,
/// whatever was written under it before. This still holds after later writes
/// under other keys, which may flush the tombstone and merge it into any
/// level.
pub proof fn lemma_delete_visibility(tree: TreeModel, key: Seq<u8>, later: Seq<Entry>)
    requires
        tree.wf(),
        leaves_alone(later, key),
    ensures
        tree.delete(key).get(key) is None,
        apply_writes(tree.delete(key), later).get(key) is None,
        apply_writes(tree.delete(key), later).lookup(key) == Some(None::<Seq<u8>>),
{
    lemma_insert(tree, key, None);
    assert(tree.delete(key).lookup(key) == Some(None::<Seq<u8>>));
    lemma_last_write_wins(tree.delete(key), later, key);
    lemma_last_write_absent(later, key);
}

/// Writes under distinct keys, fewer than the threshold, stay in an empty
/// memtable: they set off no flush, and the memtable holds one entry for each
/// of them.
pub proof fn lemma_fill_memtable(tree: TreeModel, writes: Seq<Entry>)
    requires
        tree.wf(),
        tree.memtable.len() == 0,
        distinct_keys(writes),
        writes.len() < tree.threshold,
    ensures
        apply_writes(tree, writes) == (TreeModel {
            memtable: written_run(writes),
            levels: tree.levels,
            threshold: tree.threshold,
        }),
        strictly_sorted(written_run(writes)),
        written_run(writes).len() == writes.len(),
        forall|key: Seq<u8>| #[trigger] run_get(written_run(writes), key) == last_write(writes, key),
    decreases writes.len(),
{
    if writes.len() == 0 {
        assert(tree.memtable =~= Seq::<Entry>::empty());
        assert forall|key: Seq<u8>| #[trigger]
            run_get(written_run(writes), key) == last_write(writes, key) by {
            assert(!run_has(written_run(writes), key));
        }
    } else {
        let earlier = writes.drop_last();
        let last = writes.last();
        assert forall|i: int, j: int|
            #![trigger earlier[i], earlier[j]]
            0 <= i < j < earlier.len() implies earlier[i].0 != earlier[j].0 by {
            assert(earlier[i] == writes[i]);
            assert(earlier[j] == writes[j]);
        }
        lemma_fill_memtable(tree, earlier);
        assert forall|i: int| 0 <= i < earlier.len() implies (#[trigger] earlier[i]).0
            != last.0 by {
            assert(earlier[i] == writes[i]);
            assert(last == writes[writes.len() - 1]);
        }
        lemma_last_write_absent(earlier, last.0);
        assert(run_get(written_run(earlier), last.0) == last_write(earlier, last.0));
        lemma_upsert(written_run(earlier), last.0, last.1);
    }
}

/// Flush threshold. Writing under as many distinct keys as the threshold
/// says, starting with an empty memtable, flushes exactly once, with the last
/// write. The memtable is empty afterwards, and a sorted run of exactly
/// threshold many entries, one for each write, has gone into level 0. In a
/// tree without levels that run is then level 0.
pub proof fn lemma_flush_threshold(tree: TreeModel, writes: Seq<Entry>)
    requires
        tree.wf(),
        tree.memtable.len() == 0,
        distinct_keys(writes),
        writes.len() == tree.threshold,
    ensures
        apply_writes(tree, writes).memtable.len() == 0,
        apply_writes(tree, writes).levels == cascade(
            tree.levels,
            0,
            written_run(writes),
            tree.threshold,
        ),
        strictly_sorted(written_run(writes)),
        written_run(writes).len() == tree.threshold,
        forall|key: Seq<u8>| #[trigger] run_get(written_run(writes), key) == last_write(writes, key),
        tree.levels.len() == 0 ==> apply_writes(tree, writes).levels == seq![
            Some(written_run(writes)),
        ],
{
    let earlier = writes.drop_last();
    let last = writes.last();
    assert forall|i: int, j: int|
        #![trigger earlier[i], earlier[j]]
        0 <= i < j < earlier.len() implies earlier[i].0 != earlier[j].0 by {
        assert(earlier[i] == writes[i]);
        assert(earlier[j] == writes[j]);
    }
    lemma_fill_memtable(tree, earlier);
    assert forall|i: int| 0 <= i < earlier.len() implies (#[trigger] earlier[i]).0 != last.0 by {
        assert(earlier[i] == writes[i]);
        assert(last == writes[writes.len() - 1]);
    }
    lemma_last_write_absent(earlier, last.0);
    assert(run_get(written_run(earlier), last.0) == last_write(earlier, last.0));
    lemma_upsert(written_run(earlier), last.0, last.1);
    if tree.levels.len() == 0 {
        assert(tree.levels.push(Some(written_run(writes))) =~= seq![Some(written_run(writes))]);
    }
}

} // verus!
