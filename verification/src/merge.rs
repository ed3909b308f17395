//! Two-way merge of sorted runs, in which the newer run wins.

use crate::order::{
    compare_keys, key_lt, lemma_key_lt_asymmetric, lemma_key_lt_irreflexive,
    lemma_key_lt_transitive, lemma_key_order_total, KeyOrder,
};
use crate::run::{
    all_after, clone_entry, holds_key_at, lemma_all_after_excludes, lemma_run_get_at,
    lemma_sorted_skip, run_get, run_has, run_map, run_view, strictly_sorted, Entry,
};
use vstd::prelude::*;

verus! {

/// The merge of an older and a newer run.
///
/// The merge walks both runs from the front. It takes the entry with the
/// smaller key; where both runs are at the same key it takes the newer entry
/// and passes over the older one. When one run is used up, the rest of the
/// other follows as it is.
pub open spec fn merge_spec(older: Seq<Entry>, newer: Seq<Entry>) -> Seq<Entry>
    decreases older.len() + newer.len(),
{
    if older.len() == 0 {
        newer
    } else if newer.len() == 0 {
        older
    } else if key_lt(older[0].0, newer[0].0) {
        seq![older[0]] + merge_spec(older.skip(1), newer)
    } else if key_lt(newer[0].0, older[0].0) {
        seq![newer[0]] + merge_spec(older, newer.skip(1))
    } else {
        seq![newer[0]] + merge_spec(older.skip(1), newer.skip(1))
    }
}

/// Whether no key has an entry in both runs.
pub open spec fn key_disjoint(older: Seq<Entry>, newer: Seq<Entry>) -> bool {
    forall|i: int, j: int|
        #![trigger older[i], newer[j]]
        0 <= i < older.len() && 0 <= j < newer.len() ==> older[i].0 != newer[j].0
}

/// Every entry of a merge is an entry of one of the two runs.
pub proof fn lemma_merge_entries(older: Seq<Entry>, newer: Seq<Entry>)
    ensures
        forall|index: int|
            0 <= index < merge_spec(older, newer).len() ==> {
                let entry = #[trigger] merge_spec(older, newer)[index];
                older.contains(entry) || newer.contains(entry)
            },
    decreases older.len() + newer.len(),
{
    let merged = merge_spec(older, newer);
    if older.len() == 0 || newer.len() == 0 {
    } else {
        let older_rest = if key_lt(newer[0].0, older[0].0) {
            older
        } else {
            older.skip(1)
        };
        let newer_rest = if key_lt(older[0].0, newer[0].0) {
            newer
        } else {
            newer.skip(1)
        };
        let rest = merge_spec(older_rest, newer_rest);
        lemma_merge_entries(older_rest, newer_rest);
        assert forall|index: int| 0 <= index < merged.len() implies {
            let entry = #[trigger] merged[index];
            older.contains(entry) || newer.contains(entry)
        } by {
            let entry = merged[index];
            if index > 0 {
                assert(entry == rest[index - 1]);
                if older_rest.contains(entry) {
                    let i = choose|i: int| 0 <= i < older_rest.len() && older_rest[i] == entry;
                    assert(older[if older_rest.len() == older.len() {
                        i
                    } else {
                        i + 1
                    }] == entry);
                } else {
                    let j = choose|j: int| 0 <= j < newer_rest.len() && newer_rest[j] == entry;
                    assert(newer[if newer_rest.len() == newer.len() {
                        j
                    } else {
                        j + 1
                    }] == entry);
                }
            } else if key_lt(older[0].0, newer[0].0) {
                assert(older[0] == entry);
            } else {
                assert(newer[0] == entry);
            }
        }
    }
}

/// A merge is no longer than both runs together and no shorter than either.
/// Where no key is in both runs, it holds exactly the entries of both.
pub proof fn lemma_merge_len(older: Seq<Entry>, newer: Seq<Entry>)
    ensures
        merge_spec(older, newer).len() <= older.len() + newer.len(),
        merge_spec(older, newer).len() >= older.len(),
        merge_spec(older, newer).len() >= newer.len(),
        key_disjoint(older, newer) ==> merge_spec(older, newer).len() == older.len() + newer.len(),
    decreases older.len() + newer.len(),
{
    if older.len() == 0 || newer.len() == 0 {
    } else if key_lt(older[0].0, newer[0].0) {
        let older_rest = older.skip(1);
        lemma_merge_len(older_rest, newer);
        if key_disjoint(older, newer) {
            assert forall|i: int, j: int|
                #![trigger older_rest[i], newer[j]]
                0 <= i < older_rest.len() && 0 <= j < newer.len() implies older_rest[i].0
                != newer[j].0 by {
                assert(older_rest[i] == older[i + 1]);
            }
        }
    } else if key_lt(newer[0].0, older[0].0) {
        let newer_rest = newer.skip(1);
        lemma_merge_len(older, newer_rest);
        if key_disjoint(older, newer) {
            assert forall|i: int, j: int|
                #![trigger older[i], newer_rest[j]]
                0 <= i < older.len() && 0 <= j < newer_rest.len() implies older[i].0
                != newer_rest[j].0 by {
                assert(newer_rest[j] == newer[j + 1]);
            }
        }
    } else {
        lemma_merge_len(older.skip(1), newer.skip(1));
        lemma_key_order_total(older[0].0, newer[0].0);
        assert(older[0].0 == newer[0].0);
    }
}

/// A sorted run whose first key comes after `bound` lies wholly after it.
pub proof fn lemma_all_after_from_first(run: Seq<Entry>, bound: Seq<u8>)
    requires
        strictly_sorted(run),
        run.len() > 0,
        key_lt(bound, run[0].0),
    ensures
        all_after(run, bound),
{
    assert forall|i: int| 0 <= i < run.len() implies key_lt(bound, (#[trigger] run[i]).0) by {
        if i > 0 {
            assert(key_lt(run[0].0, run[i].0));
            lemma_key_lt_transitive(bound, run[0].0, run[i].0);
        }
    }
}

/// Putting an entry in front of a sorted run whose keys all come after the
/// entry's key gives a sorted run.
pub proof fn lemma_sorted_cons(head: Entry, rest: Seq<Entry>)
    requires
        strictly_sorted(rest),
        all_after(rest, head.0),
    ensures
        strictly_sorted(seq![head] + rest),
{
    let run = seq![head] + rest;
    assert forall|i: int, j: int| 0 <= i < j < run.len() implies key_lt(run[i].0, run[j].0) by {
        assert(run[j] == rest[j - 1]);
        if i > 0 {
            assert(run[i] == rest[i - 1]);
        }
    }
}

/// A lookup in a sorted run either hits its first entry or goes on in the
/// rest.
pub proof fn lemma_get_cons(head: Entry, rest: Seq<Entry>, key: Seq<u8>)
    requires
        strictly_sorted(seq![head] + rest),
    ensures
        run_get(seq![head] + rest, key) == if key == head.0 {
            Some(head.1)
        } else {
            run_get(rest, key)
        },
{
    let run = seq![head] + rest;
    if key == head.0 {
        lemma_run_get_at(run, 0);
    } else {
        lemma_sorted_skip(run, 1);
        assert(run.skip(1) =~= rest);
        if run_has(rest, key) {
            let i = choose|i: int| holds_key_at(rest, key, i);
            assert(run[i + 1] == rest[i]);
            lemma_run_get_at(run, i + 1);
            lemma_run_get_at(rest, i);
        } else if run_has(run, key) {
            let i = choose|i: int| holds_key_at(run, key, i);
            assert(holds_key_at(rest, key, i - 1));
        }
    }
}

/// Where both runs lie wholly after `bound`, so does their merge.
pub proof fn lemma_merge_all_after(older: Seq<Entry>, newer: Seq<Entry>, bound: Seq<u8>)
    requires
        all_after(older, bound),
        all_after(newer, bound),
    ensures
        all_after(merge_spec(older, newer), bound),
{
    let merged = merge_spec(older, newer);
    lemma_merge_entries(older, newer);
    assert forall|index: int| 0 <= index < merged.len() implies key_lt(
        bound,
        (#[trigger] merged[index]).0,
    ) by {
        let entry = merged[index];
        if older.contains(entry) {
            let i = choose|i: int| 0 <= i < older.len() && older[i] == entry;
            assert(key_lt(bound, older[i].0));
        } else {
            let j = choose|j: int| 0 <= j < newer.len() && newer[j] == entry;
            assert(key_lt(bound, newer[j].0));
        }
    }
}

/// The merge of two sorted runs is sorted: its keys strictly increase, so no
/// key occurs twice.
pub proof fn lemma_merge_sorted(older: Seq<Entry>, newer: Seq<Entry>)
    requires
        strictly_sorted(older),
        strictly_sorted(newer),
    ensures
        strictly_sorted(merge_spec(older, newer)),
    decreases older.len() + newer.len(),
{
    if older.len() == 0 || newer.len() == 0 {
    } else {
        lemma_sorted_skip(older, 1);
        lemma_sorted_skip(newer, 1);
        if key_lt(older[0].0, newer[0].0) {
            lemma_merge_sorted(older.skip(1), newer);
            lemma_all_after_from_first(newer, older[0].0);
            lemma_merge_all_after(older.skip(1), newer, older[0].0);
            lemma_sorted_cons(older[0], merge_spec(older.skip(1), newer));
        } else if key_lt(newer[0].0, older[0].0) {
            lemma_merge_sorted(older, newer.skip(1));
            lemma_all_after_from_first(older, newer[0].0);
            lemma_merge_all_after(older, newer.skip(1), newer[0].0);
            lemma_sorted_cons(newer[0], merge_spec(older, newer.skip(1)));
        } else {
            lemma_key_order_total(older[0].0, newer[0].0);
            lemma_merge_sorted(older.skip(1), newer.skip(1));
            lemma_merge_all_after(older.skip(1), newer.skip(1), newer[0].0);
            lemma_sorted_cons(newer[0], merge_spec(older.skip(1), newer.skip(1)));
        }
    }
}

/// A lookup in the merge of two sorted runs gives what the newer run records
/// for the key, and what the older run records where the newer has no entry
/// for it.
pub proof fn lemma_merge_get(older: Seq<Entry>, newer: Seq<Entry>, key: Seq<u8>)
    requires
        strictly_sorted(older),
        strictly_sorted(newer),
    ensures
        run_get(merge_spec(older, newer), key) == match run_get(newer, key) {
            Some(slot) => Some(slot),
            None => run_get(older, key),
        },
    decreases older.len() + newer.len(),
{
    if older.len() == 0 {
        assert(!run_has(older, key));
    } else if newer.len() == 0 {
        assert(!run_has(newer, key));
    } else {
        lemma_merge_sorted(older, newer);
        lemma_sorted_skip(older, 1);
        lemma_sorted_skip(newer, 1);
        assert(older =~= seq![older[0]] + older.skip(1));
        assert(newer =~= seq![newer[0]] + newer.skip(1));
        lemma_get_cons(older[0], older.skip(1), key);
        lemma_get_cons(newer[0], newer.skip(1), key);
        if key_lt(older[0].0, newer[0].0) {
            lemma_merge_get(older.skip(1), newer, key);
            lemma_get_cons(older[0], merge_spec(older.skip(1), newer), key);
            if key == older[0].0 {
                lemma_all_after_from_first(newer, older[0].0);
                lemma_all_after_excludes(newer, older[0].0, key);
            }
        } else if key_lt(newer[0].0, older[0].0) {
            lemma_merge_get(older, newer.skip(1), key);
            lemma_get_cons(newer[0], merge_spec(older, newer.skip(1)), key);
        } else {
            lemma_key_order_total(older[0].0, newer[0].0);
            lemma_merge_get(older.skip(1), newer.skip(1), key);
            lemma_get_cons(newer[0], merge_spec(older.skip(1), newer.skip(1)), key);
        }
    }
}

/// Read as maps, the merge of two sorted runs is the older run overwritten by
/// the newer one.
pub proof fn lemma_merge_map(older: Seq<Entry>, newer: Seq<Entry>)
    requires
        strictly_sorted(older),
        strictly_sorted(newer),
    ensures
        run_map(merge_spec(older, newer)) == run_map(older).union_prefer_right(run_map(newer)),
{
    let merged = run_map(merge_spec(older, newer));
    let union = run_map(older).union_prefer_right(run_map(newer));
    assert forall|key: Seq<u8>| #[trigger] merged.contains_key(key) == union.contains_key(key) && (
    merged.contains_key(key) ==> merged[key] == union[key]) by {
        lemma_merge_get(older, newer, key);
    }
    assert(merged =~= union);
}

/// Merge correctness. The merge of two sorted runs is sorted, so it holds no
/// key twice. It has an entry for exactly the keys of the two runs, and under
/// a key that both have it holds the entry of the newer run. Where no key is
/// in both runs the merge is their exact union: it holds every entry of
/// either run, and no more entries than the two together.
pub proof fn lemma_merge_correct(older: Seq<Entry>, newer: Seq<Entry>)
    requires
        strictly_sorted(older),
        strictly_sorted(newer),
    ensures
        strictly_sorted(merge_spec(older, newer)),
        forall|key: Seq<u8>|
            #[trigger] run_has(merge_spec(older, newer), key) <==> run_has(older, key) || run_has(
                newer,
                key,
            ),
        forall|key: Seq<u8>|
            run_has(newer, key) ==> #[trigger] run_get(merge_spec(older, newer), key) == run_get(
                newer,
                key,
            ),
        forall|key: Seq<u8>|
            !run_has(newer, key) ==> #[trigger] run_get(merge_spec(older, newer), key) == run_get(
                older,
                key,
            ),
        forall|j: int|
            0 <= j < newer.len() ==> merge_spec(older, newer).contains(#[trigger] newer[j]),
        key_disjoint(older, newer) ==> {
            &&& merge_spec(older, newer).len() == older.len() + newer.len()
            &&& forall|i: int|
                0 <= i < older.len() ==> merge_spec(older, newer).contains(#[trigger] older[i])
        },
{
    let merged = merge_spec(older, newer);
    lemma_merge_sorted(older, newer);
    lemma_merge_len(older, newer);
    assert forall|key: Seq<u8>| #[trigger] run_get(merged, key) == match run_get(newer, key) {
        Some(slot) => Some(slot),
        None => run_get(older, key),
    } by {
        lemma_merge_get(older, newer, key);
    }
    assert forall|key: Seq<u8>| #[trigger]
        run_has(merged, key) <==> run_has(older, key) || run_has(newer, key) by {
        assert(run_get(merged, key) == match run_get(newer, key) {
            Some(slot) => Some(slot),
            None => run_get(older, key),
        });
    }
    assert forall|j: int| 0 <= j < newer.len() implies merged.contains(#[trigger] newer[j]) by {
        let key = newer[j].0;
        lemma_run_get_at(newer, j);
        assert(run_get(merged, key) == Some(newer[j].1));
        let index = choose|index: int| holds_key_at(merged, key, index);
        assert(merged[index] == newer[j]);
    }
    if key_disjoint(older, newer) {
        assert forall|i: int| 0 <= i < older.len() implies merged.contains(
            #[trigger] older[i],
        ) by {
            let key = older[i].0;
            lemma_run_get_at(older, i);
            if run_has(newer, key) {
                let j = choose|j: int| holds_key_at(newer, key, j);
                assert(older[i].0 != newer[j].0);
            }
            assert(run_get(merged, key) == Some(older[i].1));
            let index = choose|index: int| holds_key_at(merged, key, index);
            assert(merged[index] == older[i]);
        }
    }
}

/// Merges two runs into one, preferring `new_data` where both have an entry
/// for a key.
///
/// The result is the merge of the two runs as `merge_spec` defines it, for
/// any two inputs. For sorted inputs that makes it the sorted run that holds,
/// for every key of either input, the entry of `new_data` if there is one and
/// the entry of `old_data` otherwise.
pub fn merge_sorted(
    old_data: &[(Vec<u8>, Option<Vec<u8>>)],
    new_data: &[(Vec<u8>, Option<Vec<u8>>)],
) -> (merged: Vec<(Vec<u8>, Option<Vec<u8>>)>)
    ensures
        run_view(merged@) == merge_spec(run_view(old_data@), run_view(new_data@)),
        strictly_sorted(run_view(old_data@)) && strictly_sorted(run_view(new_data@)) ==> {
            &&& strictly_sorted(run_view(merged@))
            &&& run_map(run_view(merged@)) == run_map(run_view(old_data@)).union_prefer_right(
                run_map(run_view(new_data@)),
            )
        },
        key_disjoint(run_view(old_data@), run_view(new_data@)) ==> merged.len() == old_data.len()
            + new_data.len(),
{
    let ghost older = run_view(old_data@);
    let ghost newer = run_view(new_data@);
    let mut merged: Vec<(Vec<u8>, Option<Vec<u8>>)> = Vec::new();
    let mut i: usize = 0;
    let mut j: usize = 0;
    assert(older.skip(0) =~= older);
    assert(newer.skip(0) =~= newer);
    assert(run_view(merged@) + merge_spec(older, newer) =~= merge_spec(older, newer));

    while i < old_data.len() && j < new_data.len()
        invariant
            i <= old_data.len(),
            j <= new_data.len(),
            older == run_view(old_data@),
            newer == run_view(new_data@),
            run_view(merged@) + merge_spec(older.skip(i as int), newer.skip(j as int))
                == merge_spec(older, newer),
        decreases (old_data.len() - i) + (new_data.len() - j),
    {
        let ghost before = run_view(merged@);
        let ghost older_left = older.skip(i as int);
        let ghost newer_left = newer.skip(j as int);
        assert(older_left[0] == older[i as int]);
        assert(newer_left[0] == newer[j as int]);
        assert(older_left.skip(1) =~= older.skip(i + 1));
        assert(newer_left.skip(1) =~= newer.skip(j + 1));
        match compare_keys(old_data[i].0.as_slice(), new_data[j].0.as_slice()) {
            KeyOrder::Less => {
                merged.push(clone_entry(&old_data[i]));
                proof {
                    lemma_key_lt_asymmetric(older[i as int].0, newer[j as int].0);
                }
                i += 1;
            },
            KeyOrder::Greater => {
                merged.push(clone_entry(&new_data[j]));
                proof {
                    lemma_key_lt_asymmetric(newer[j as int].0, older[i as int].0);
                }
                j += 1;
            },
            KeyOrder::Equal => {
                merged.push(clone_entry(&new_data[j]));
                proof {
                    lemma_key_lt_irreflexive(older[i as int].0);
                }
                i += 1;
                j += 1;
            },
        }
        assert(run_view(merged@) =~= before.push(merge_spec(older_left, newer_left)[0]));
        assert(run_view(merged@) + merge_spec(older.skip(i as int), newer.skip(j as int))
            =~= before + merge_spec(older_left, newer_left));
    }

    assert(merge_spec(older.skip(i as int), newer.skip(j as int)) =~= older.skip(i as int)
        + newer.skip(j as int));

    while i < old_data.len()
        invariant
            i <= old_data.len(),
            older == run_view(old_data@),
            run_view(merged@) + (older.skip(i as int) + newer.skip(j as int)) == merge_spec(
                older,
                newer,
            ),
        decreases old_data.len() - i,
    {
        let ghost before = run_view(merged@);
        merged.push(clone_entry(&old_data[i]));
        assert(run_view(merged@) =~= before.push(older[i as int]));
        assert(run_view(merged@) + (older.skip(i + 1) + newer.skip(j as int)) =~= before + (
        older.skip(i as int) + newer.skip(j as int)));
        i += 1;
    }

    while j < new_data.len()
        invariant
            i == old_data.len(),
            j <= new_data.len(),
            older == run_view(old_data@),
            newer == run_view(new_data@),
            run_view(merged@) + (older.skip(i as int) + newer.skip(j as int)) == merge_spec(
                older,
                newer,
            ),
        decreases new_data.len() - j,
    {
        let ghost before = run_view(merged@);
        merged.push(clone_entry(&new_data[j]));
        assert(run_view(merged@) =~= before.push(newer[j as int]));
        assert(run_view(merged@) + (older.skip(i as int) + newer.skip(j + 1)) =~= before + (
        older.skip(i as int) + newer.skip(j as int)));
        j += 1;
    }

    proof {
        assert(run_view(merged@) + (older.skip(i as int) + newer.skip(j as int)) =~= run_view(
            merged@,
        ));
        if strictly_sorted(older) && strictly_sorted(newer) {
            lemma_merge_sorted(older, newer);
            lemma_merge_map(older, newer);
        }
        lemma_merge_len(older, newer);
    }
    merged
}

} // verus!
