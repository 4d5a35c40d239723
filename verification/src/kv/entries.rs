//! Sorted runs of key-value pairs.

use crate::kv::keys::{
    key_lt, keys_sorted, lemma_found_rank, lemma_key_lt_asymmetric, lemma_key_lt_irreflexive,
    lemma_key_lt_total, lemma_rank_splits, rank,
};
use vstd::prelude::*;

verus! {

/// A key with its value.
pub type Pair = (Seq<u8>, Seq<u8>);

/// The keys of a run.
pub open spec fn pair_keys(pairs: Seq<Pair>) -> Seq<Seq<u8>> {
    Seq::new(pairs.len(), |i: int| pairs[i].0)
}

/// The value that a sorted run holds under `key`.
pub open spec fn pairs_get(pairs: Seq<Pair>, key: Seq<u8>) -> Option<Seq<u8>> {
    let p = rank(pair_keys(pairs), key) as int;
    if p < pairs.len() && pairs[p].0 == key {
        Some(pairs[p].1)
    } else {
        None
    }
}

/// The run with `value` under `key`: in place of the value that was there, or as a new pair.
pub open spec fn upsert(pairs: Seq<Pair>, key: Seq<u8>, value: Seq<u8>) -> Seq<Pair> {
    let p = rank(pair_keys(pairs), key) as int;
    if p < pairs.len() && pairs[p].0 == key {
        pairs.update(p, (key, value))
    } else {
        pairs.insert(p, (key, value))
    }
}

/// How many bytes the first `n` pairs take.
pub open spec fn pairs_size(pairs: Seq<Pair>, n: nat) -> nat
    decreases n,
{
    if n == 0 {
        0
    } else {
        pairs_size(pairs, (n - 1) as nat) + pairs[n - 1].0.len() + pairs[n - 1].1.len()
    }
}

pub proof fn lemma_pairs_size_mono(pairs: Seq<Pair>, m: nat, n: nat)
    requires
        m <= n <= pairs.len(),
    ensures
        pairs_size(pairs, m) <= pairs_size(pairs, n),
    decreases n,
{
    if m < n {
        lemma_pairs_size_mono(pairs, m, (n - 1) as nat);
    }
}

/// A pair of a sorted run is found under its key.
pub proof fn lemma_pairs_get_at(pairs: Seq<Pair>, i: int)
    requires
        keys_sorted(pair_keys(pairs)),
        0 <= i < pairs.len(),
    ensures
        pairs_get(pairs, pairs[i].0) == Some(pairs[i].1),
{
    lemma_found_rank(pair_keys(pairs), pairs[i].0, i);
}

/// A key that no pair of the run has is not found.
pub proof fn lemma_pairs_get_none(pairs: Seq<Pair>, key: Seq<u8>)
    requires
        forall|i: int| 0 <= i < pairs.len() ==> (#[trigger] pairs[i]).0 != key,
    ensures
        pairs_get(pairs, key) is None,
{
}

/// Either some pair of a sorted run has the key, and it is found, or none has.
pub proof fn lemma_pairs_get_cases(pairs: Seq<Pair>, key: Seq<u8>) -> (i: int)
    requires
        keys_sorted(pair_keys(pairs)),
    ensures
        match pairs_get(pairs, key) {
            Some(value) => 0 <= i < pairs.len() && pairs[i] == (key, value),
            None => forall|j: int| 0 <= j < pairs.len() ==> (#[trigger] pairs[j]).0 != key,
        },
{
    let p = rank(pair_keys(pairs), key) as int;
    if pairs_get(pairs, key) is None {
        assert forall|j: int| 0 <= j < pairs.len() implies (#[trigger] pairs[j]).0 != key by {
            if pairs[j].0 == key {
                lemma_found_rank(pair_keys(pairs), key, j);
            }
        }
    }
    p
}

/// Storing a value keeps the run sorted, changes what is found under its key, and nothing else.
pub proof fn lemma_upsert(pairs: Seq<Pair>, key: Seq<u8>, value: Seq<u8>)
    requires
        keys_sorted(pair_keys(pairs)),
    ensures
        keys_sorted(pair_keys(upsert(pairs, key, value))),
        pairs_get(upsert(pairs, key, value), key) == Some(value),
        forall|other: Seq<u8>|
            other != key ==> #[trigger] pairs_get(upsert(pairs, key, value), other) == pairs_get(
                pairs,
                other,
            ),
        forall|i: int|
            0 <= i < upsert(pairs, key, value).len() ==> {
                ||| (#[trigger] upsert(pairs, key, value)[i]).0 == key
                ||| exists|j: int|
                    0 <= j < pairs.len() && #[trigger] pairs[j].0 == upsert(pairs, key, value)[i].0
            },
{
    let keys = pair_keys(pairs);
    let p = rank(keys, key) as int;
    lemma_rank_splits(keys, key);
    let after = upsert(pairs, key, value);
    let after_keys = pair_keys(after);
    if p < pairs.len() && pairs[p].0 == key {
        assert(after_keys =~= keys);
        assert forall|i: int| 0 <= i < after.len() implies exists|j: int|
            0 <= j < pairs.len() && #[trigger] pairs[j].0 == (#[trigger] after[i]).0 by {
            assert(pairs[i].0 == after[i].0);
        }
    } else {
        assert(after_keys =~= keys.insert(p, key));
        assert forall|i: int, j: int| 0 <= i < j < after_keys.len() implies key_lt(
            #[trigger] after_keys[i],
            #[trigger] after_keys[j],
        ) by {
            let i0 = if i < p { i } else { i - 1 };
            let j0 = if j < p { j } else { j - 1 };
            if i == p {
                assert(after_keys[j] == keys[j0]);
                lemma_key_lt_total(key, keys[j0]);
                if key == keys[j0] {
                    lemma_found_rank(keys, key, j0);
                }
            } else if j == p {
                assert(after_keys[i] == keys[i0]);
            } else {
                assert(after_keys[i] == keys[i0] && after_keys[j] == keys[j0]);
            }
        }
        assert forall|i: int| 0 <= i < after.len() implies ((#[trigger] after[i]).0 == key
            || exists|j: int| 0 <= j < pairs.len() && #[trigger] pairs[j].0 == after[i].0) by {
            if i < p {
                assert(pairs[i].0 == after[i].0);
            } else if i > p {
                assert(pairs[i - 1].0 == after[i].0);
            }
        }
    }
    assert(after[p] == (key, value));
    lemma_pairs_get_at(after, p);
    assert forall|other: Seq<u8>| other != key implies #[trigger] pairs_get(after, other)
        == pairs_get(pairs, other) by {
        let i = lemma_pairs_get_cases(pairs, other);
        match pairs_get(pairs, other) {
            Some(found) => {
                let at = if pairs[p].0 == key && p < pairs.len() || i < p { i } else { i + 1 };
                assert(after[at] == (other, found));
                lemma_pairs_get_at(after, at);
            },
            None => {
                assert forall|j: int| 0 <= j < after.len() implies (#[trigger] after[j]).0
                    != other by {
                    if after[j].0 == other {
                        let k = choose|k: int|
                            0 <= k < pairs.len() && #[trigger] pairs[k].0 == after[j].0;
                        assert(pairs[k].0 == other);
                    }
                }
                lemma_pairs_get_none(after, other);
            },
        }
    }
}

/// Cutting a sorted run in two: each key is found in the part it belongs to.
pub proof fn lemma_split_run(pairs: Seq<Pair>, mid: int, key: Seq<u8>)
    requires
        keys_sorted(pair_keys(pairs)),
        0 <= mid < pairs.len(),
    ensures
        keys_sorted(pair_keys(pairs.take(mid))),
        keys_sorted(pair_keys(pairs.skip(mid))),
        key_lt(key, pairs[mid].0) ==> pairs_get(pairs, key) == pairs_get(pairs.take(mid), key),
        !key_lt(key, pairs[mid].0) ==> pairs_get(pairs, key) == pairs_get(pairs.skip(mid), key),
{
    let keys = pair_keys(pairs);
    let left = pairs.take(mid);
    let right = pairs.skip(mid);
    assert forall|i: int, j: int| 0 <= i < j < pair_keys(left).len() implies key_lt(
        #[trigger] pair_keys(left)[i],
        #[trigger] pair_keys(left)[j],
    ) by {
        assert(key_lt(keys[i], keys[j]));
    }
    assert forall|i: int, j: int| 0 <= i < j < pair_keys(right).len() implies key_lt(
        #[trigger] pair_keys(right)[i],
        #[trigger] pair_keys(right)[j],
    ) by {
        assert(key_lt(keys[i + mid], keys[j + mid]));
    }
    let i = lemma_pairs_get_cases(pairs, key);
    match pairs_get(pairs, key) {
        Some(value) => {
            assert(keys[i] == key && keys[mid] == pairs[mid].0);
            if i < mid {
                assert(key_lt(keys[i], keys[mid]));
                assert(left[i] == (key, value));
                lemma_pairs_get_at(left, i);
            } else {
                lemma_key_lt_irreflexive(key);
                if i > mid {
                    lemma_key_lt_asymmetric(keys[mid], keys[i]);
                }
                assert(right[i - mid] == (key, value));
                lemma_pairs_get_at(right, i - mid);
            }
        },
        None => {
            assert forall|j: int| 0 <= j < left.len() implies (#[trigger] left[j]).0 != key by {
                assert(left[j] == pairs[j]);
            }
            assert forall|j: int| 0 <= j < right.len() implies (#[trigger] right[j]).0 != key by {
                assert(right[j] == pairs[j + mid]);
            }
            lemma_pairs_get_none(left, key);
            lemma_pairs_get_none(right, key);
        },
    }
}

} // verus!
