//! Counting how often a path uses each resource.

use std::collections::HashMap;

use itertools::Itertools;
use vstd::prelude::*;

use crate::capacities::asked;

verus! {

/// How often `key` occurs in `keys`.
pub open spec fn occurrences(keys: Seq<int>, key: int) -> nat
    decreases keys.len(),
{
    if keys.len() == 0 {
        0
    } else {
        occurrences(keys.drop_last(), key) + if keys.last() == key {
            1nat
        } else {
            0nat
        }
    }
}

/// The numbers of a sequence of machine words.
pub open spec fn ints(keys: Seq<usize>) -> Seq<int> {
    Seq::new(keys.len(), |i: int| keys[i] as int)
}

/// Among the first keys and one more, a key occurs once more than among
/// the first if the one more is that key.
pub proof fn lemma_occurrences_take(keys: Seq<int>, n: int, key: int)
    requires
        0 <= n < keys.len(),
    ensures
        occurrences(keys.take(n + 1), key) == occurrences(keys.take(n), key) + if keys[n] == key {
            1nat
        } else {
            0nat
        },
{
    assert(keys.take(n + 1).drop_last() =~= keys.take(n));
}

/// A key occurs at most as often as there are keys; a key that occurs at
/// some place occurs at least once, and one that occurs nowhere, never.
pub proof fn lemma_occurrences_bounds(keys: Seq<int>, key: int)
    ensures
        occurrences(keys, key) <= keys.len(),
        keys.contains(key) <==> occurrences(keys, key) > 0,
    decreases keys.len(),
{
    if keys.len() > 0 {
        let front = keys.drop_last();
        lemma_occurrences_bounds(front, key);
        if keys.contains(key) {
            let i = choose|i: int| 0 <= i < keys.len() && keys[i] == key;
            if i < front.len() {
                assert(front[i] == key);
            }
        }
        if front.contains(key) {
            let i = choose|i: int| 0 <= i < front.len() && front[i] == key;
            assert(keys[i] == key);
        }
        if keys.last() == key {
            assert(keys[keys.len() - 1] == key);
        }
    }
}

/// `Itertools::counts` on the keys: the map that holds for every key that
/// occurs the number of times it occurs, and nothing for any other key.
/// This is what itertools documents; it is believed, not proved.
#[verifier::external_body]
pub(crate) fn tally(keys: &Vec<usize>) -> (counts: HashMap<usize, usize>)
    ensures
        forall|key: usize|
            counts@.contains_key(key) <==> #[trigger] occurrences(ints(keys@), key as int) > 0,
        forall|key: usize|
            counts@.contains_key(key) ==> #[trigger] counts@[key] == occurrences(
                ints(keys@),
                key as int,
            ),
{
    keys.iter().copied().counts()
}

/// A usage tallied from keys asks of every key as much as it occurs.
pub proof fn lemma_tally_asks(keys: Seq<usize>, counts: Map<usize, usize>)
    requires
        forall|key: usize|
            counts.contains_key(key) <==> #[trigger] occurrences(ints(keys), key as int) > 0,
        forall|key: usize|
            counts.contains_key(key) ==> #[trigger] counts[key] == occurrences(
                ints(keys),
                key as int,
            ),
    ensures
        forall|key: int| #[trigger] asked(counts, key) == occurrences(ints(keys), key),
{
    assert forall|key: int| #[trigger] asked(counts, key) == occurrences(ints(keys), key) by {
        lemma_occurrences_bounds(ints(keys), key);
        if 0 <= key <= usize::MAX {
            let k = key as usize;
            assert(counts.contains_key(k) <==> occurrences(ints(keys), k as int) > 0);
            if counts.contains_key(k) {
                assert(counts[k] == occurrences(ints(keys), k as int));
            }
        } else if occurrences(ints(keys), key) > 0 {
            let i = choose|i: int| 0 <= i < ints(keys).len() && ints(keys)[i] == key;
            assert(ints(keys)[i] == keys[i]);
        }
    }
}

} // verus!
