//! The order of keys, and searching in sorted runs of keys.
//!
//! Keys are byte strings in lexicographic order. A node keeps its keys strictly increasing, and all
//! that a node does with them follows from two counts: how many keys lie below a given one, and how
//! many do not lie above it.

use vstd::prelude::*;

verus! {

/// Lexicographic order on byte strings.
pub open spec fn key_lt(a: Seq<u8>, b: Seq<u8>) -> bool
    decreases a.len(),
{
    if b.len() == 0 {
        false
    } else if a.len() == 0 {
        true
    } else if a[0] != b[0] {
        a[0] < b[0]
    } else {
        key_lt(a.drop_first(), b.drop_first())
    }
}

/// Whether the keys are strictly increasing.
pub open spec fn keys_sorted(keys: Seq<Seq<u8>>) -> bool {
    forall|i: int, j: int| 0 <= i < j < keys.len() ==> key_lt(#[trigger] keys[i], #[trigger] keys[j])
}

/// How many of `keys` lie below `key`.
pub open spec fn rank(keys: Seq<Seq<u8>>, key: Seq<u8>) -> nat
    decreases keys.len(),
{
    if keys.len() == 0 {
        0
    } else {
        rank(keys.drop_last(), key) + (if key_lt(keys.last(), key) {
            1nat
        } else {
            0nat
        })
    }
}

/// How many of `keys` do not lie above `key`.
pub open spec fn rank_through(keys: Seq<Seq<u8>>, key: Seq<u8>) -> nat
    decreases keys.len(),
{
    if keys.len() == 0 {
        0
    } else {
        rank_through(keys.drop_last(), key) + (if key_lt(key, keys.last()) {
            0nat
        } else {
            1nat
        })
    }
}

/// Whether the first `p` keys are those below `key`.
pub open spec fn splits_below(keys: Seq<Seq<u8>>, key: Seq<u8>, p: int) -> bool {
    &&& 0 <= p <= keys.len()
    &&& forall|i: int| 0 <= i < p ==> key_lt(#[trigger] keys[i], key)
    &&& forall|i: int| p <= i < keys.len() ==> !key_lt(#[trigger] keys[i], key)
}

/// Whether the first `p` keys are those not above `key`.
pub open spec fn splits_through(keys: Seq<Seq<u8>>, key: Seq<u8>, p: int) -> bool {
    &&& 0 <= p <= keys.len()
    &&& forall|i: int| 0 <= i < p ==> !key_lt(key, #[trigger] keys[i])
    &&& forall|i: int| p <= i < keys.len() ==> key_lt(key, #[trigger] keys[i])
}

pub proof fn lemma_key_lt_irreflexive(a: Seq<u8>)
    ensures
        !key_lt(a, a),
    decreases a.len(),
{
    if a.len() > 0 {
        lemma_key_lt_irreflexive(a.drop_first());
    }
}

pub proof fn lemma_key_lt_transitive(a: Seq<u8>, b: Seq<u8>, c: Seq<u8>)
    requires
        key_lt(a, b),
        key_lt(b, c),
    ensures
        key_lt(a, c),
    decreases a.len(),
{
    if a.len() > 0 && a[0] == b[0] && b[0] == c[0] {
        lemma_key_lt_transitive(a.drop_first(), b.drop_first(), c.drop_first());
    }
}

pub proof fn lemma_key_lt_asymmetric(a: Seq<u8>, b: Seq<u8>)
    requires
        key_lt(a, b),
    ensures
        !key_lt(b, a),
        a != b,
{
    if key_lt(b, a) {
        lemma_key_lt_transitive(a, b, a);
    }
    lemma_key_lt_irreflexive(a);
}

/// Keys are in the order of a dictionary of bytes: one lies below another if it is a beginning of it, or
/// has the smaller byte where they first differ.
pub proof fn law_keys_are_in_dictionary_order(a: Seq<u8>, b: Seq<u8>, n: int)
    requires
        0 <= n <= a.len(),
        n <= b.len(),
        forall|i: int| 0 <= i < n ==> a[i] == b[i],
        n < a.len() && n < b.len() ==> a[n] != b[n],
    ensures
        key_lt(a, b) <==> n < b.len() && (n == a.len() || a[n] < b[n]),
        n == a.len() && n == b.len() ==> !key_lt(a, b) && !key_lt(b, a),
    decreases n,
{
    if n > 0 {
        let rest = a.drop_first();
        let others = b.drop_first();
        assert forall|i: int| 0 <= i < n - 1 implies rest[i] == others[i] by {
            assert(a[i + 1] == b[i + 1]);
        }
        law_keys_are_in_dictionary_order(rest, others, n - 1);
        law_keys_are_in_dictionary_order(others, rest, n - 1);
        assert(a[0] == b[0]);
    }
}

/// Any two different keys are ordered one way or the other.
pub proof fn lemma_key_lt_total(a: Seq<u8>, b: Seq<u8>)
    ensures
        a == b || key_lt(a, b) || key_lt(b, a),
    decreases a.len(),
{
    if a.len() > 0 && b.len() > 0 && a[0] == b[0] {
        lemma_key_lt_total(a.drop_first(), b.drop_first());
        assert(a =~= seq![a[0]] + a.drop_first());
        assert(b =~= seq![b[0]] + b.drop_first());
    } else if a.len() == 0 && b.len() == 0 {
        assert(a =~= b);
    }
}

/// If `a` is not above `b` and `b` lies below `c`, then `a` lies below `c`.
pub proof fn lemma_not_gt_lt(a: Seq<u8>, b: Seq<u8>, c: Seq<u8>)
    requires
        !key_lt(b, a),
        key_lt(b, c),
    ensures
        key_lt(a, c),
{
    lemma_key_lt_total(a, b);
    if a != b {
        lemma_key_lt_transitive(a, b, c);
    }
}

/// Only one cut separates the keys below `key` from the others.
pub proof fn lemma_rank(keys: Seq<Seq<u8>>, key: Seq<u8>, p: int)
    requires
        splits_below(keys, key, p),
    ensures
        rank(keys, key) == p,
    decreases keys.len(),
{
    if keys.len() > 0 {
        let init = keys.drop_last();
        if p == keys.len() {
            assert(splits_below(init, key, p - 1));
            lemma_rank(init, key, p - 1);
            assert(key_lt(keys[p - 1], key));
        } else {
            assert(splits_below(init, key, p));
            lemma_rank(init, key, p);
            assert(!key_lt(keys[keys.len() - 1], key));
        }
    }
}

/// Only one cut separates the keys not above `key` from the others.
pub proof fn lemma_rank_through(keys: Seq<Seq<u8>>, key: Seq<u8>, p: int)
    requires
        splits_through(keys, key, p),
    ensures
        rank_through(keys, key) == p,
    decreases keys.len(),
{
    if keys.len() > 0 {
        let init = keys.drop_last();
        if p == keys.len() {
            assert(splits_through(init, key, p - 1));
            lemma_rank_through(init, key, p - 1);
            assert(!key_lt(key, keys[p - 1]));
        } else {
            assert(splits_through(init, key, p));
            lemma_rank_through(init, key, p);
            assert(key_lt(key, keys[keys.len() - 1]));
        }
    }
}

/// In a sorted run the keys below `key` are its first `rank` keys.
pub proof fn lemma_rank_splits(keys: Seq<Seq<u8>>, key: Seq<u8>)
    requires
        keys_sorted(keys),
    ensures
        splits_below(keys, key, rank(keys, key) as int),
    decreases keys.len(),
{
    if keys.len() > 0 {
        let init = keys.drop_last();
        assert(keys_sorted(init)) by {
            assert forall|i: int, j: int| 0 <= i < j < init.len() implies key_lt(
                #[trigger] init[i],
                #[trigger] init[j],
            ) by {
                assert(init[i] == keys[i] && init[j] == keys[j]);
            }
        }
        lemma_rank_splits(init, key);
        let p = rank(init, key) as int;
        assert forall|i: int| 0 <= i < init.len() implies init[i] == #[trigger] keys[i] by {}
        if key_lt(keys.last(), key) {
            assert forall|i: int| 0 <= i < init.len() implies key_lt(#[trigger] keys[i], key) by {
                lemma_key_lt_transitive(keys[i], keys[keys.len() - 1], key);
            }
            if p < init.len() {
                assert(key_lt(keys[p], key));
                assert(!key_lt(init[p], key));
            }
            assert(p == init.len());
        }
    }
}

/// In a sorted run the keys not above `key` are its first `rank_through` keys.
pub proof fn lemma_rank_through_splits(keys: Seq<Seq<u8>>, key: Seq<u8>)
    requires
        keys_sorted(keys),
    ensures
        splits_through(keys, key, rank_through(keys, key) as int),
    decreases keys.len(),
{
    if keys.len() > 0 {
        let init = keys.drop_last();
        assert(keys_sorted(init)) by {
            assert forall|i: int, j: int| 0 <= i < j < init.len() implies key_lt(
                #[trigger] init[i],
                #[trigger] init[j],
            ) by {
                assert(init[i] == keys[i] && init[j] == keys[j]);
            }
        }
        lemma_rank_through_splits(init, key);
        let p = rank_through(init, key) as int;
        assert forall|i: int| 0 <= i < init.len() implies init[i] == #[trigger] keys[i] by {}
        if !key_lt(key, keys.last()) {
            assert forall|i: int| 0 <= i < init.len() implies !key_lt(key, #[trigger] keys[i]) by {
                lemma_key_lt_asymmetric(keys[i], keys[keys.len() - 1]);
                if key_lt(key, keys[i]) {
                    lemma_key_lt_transitive(key, keys[i], keys[keys.len() - 1]);
                }
            }
            if p < init.len() {
                assert(!key_lt(key, keys[p]));
                assert(key_lt(key, init[p]));
            }
            assert(p == init.len());
        }
    }
}

/// In a sorted run the keys up to one that lies below `key` lie below it too.
pub proof fn lemma_below_up_to(keys: Seq<Seq<u8>>, key: Seq<u8>, p: int)
    requires
        keys_sorted(keys),
        0 <= p < keys.len(),
        key_lt(keys[p], key),
    ensures
        forall|i: int| 0 <= i <= p ==> key_lt(#[trigger] keys[i], key),
{
    assert forall|i: int| 0 <= i <= p implies key_lt(#[trigger] keys[i], key) by {
        if i < p {
            lemma_key_lt_transitive(keys[i], keys[p], key);
        }
    }
}

/// In a sorted run the keys from one on that lies above `key` lie above it too.
pub proof fn lemma_above_from(keys: Seq<Seq<u8>>, key: Seq<u8>, p: int)
    requires
        keys_sorted(keys),
        0 <= p < keys.len(),
        key_lt(key, keys[p]),
    ensures
        forall|i: int| p <= i < keys.len() ==> key_lt(key, #[trigger] keys[i]),
{
    assert forall|i: int| p <= i < keys.len() implies key_lt(key, #[trigger] keys[i]) by {
        if p < i {
            lemma_key_lt_transitive(key, keys[p], keys[i]);
        }
    }
}

/// A key that lies between the first `p` keys and the others is not among them.
pub proof fn lemma_missing_rank(keys: Seq<Seq<u8>>, key: Seq<u8>, p: int)
    requires
        0 <= p <= keys.len(),
        forall|i: int| 0 <= i < p ==> key_lt(#[trigger] keys[i], key),
        forall|i: int| p <= i < keys.len() ==> key_lt(key, #[trigger] keys[i]),
    ensures
        rank(keys, key) == p,
        p < keys.len() ==> keys[p] != key,
{
    assert forall|i: int| p <= i < keys.len() implies !key_lt(#[trigger] keys[i], key) && keys[i]
        != key by {
        lemma_key_lt_asymmetric(key, keys[i]);
    }
    lemma_rank(keys, key, p);
}

/// A key that is in a sorted run stands right behind the keys below it.
pub proof fn lemma_found_rank(keys: Seq<Seq<u8>>, key: Seq<u8>, i: int)
    requires
        keys_sorted(keys),
        0 <= i < keys.len(),
        keys[i] == key,
    ensures
        rank(keys, key) == i,
        splits_below(keys, key, i),
{
    assert forall|j: int| i <= j < keys.len() implies !key_lt(#[trigger] keys[j], key) by {
        lemma_key_lt_irreflexive(key);
        if j > i {
            lemma_key_lt_asymmetric(keys[i], keys[j]);
        }
    }
    lemma_rank(keys, key, i);
}

/// A sorted run with a greater key behind it.
pub proof fn lemma_sorted_extended(keys: Seq<Seq<u8>>, n: int)
    requires
        1 <= n < keys.len(),
        keys_sorted(keys.take(n)),
        key_lt(keys[n - 1], keys[n]),
    ensures
        keys_sorted(keys.take(n + 1)),
{
    let run = keys.take(n);
    let longer = keys.take(n + 1);
    assert forall|i: int, j: int| 0 <= i < j < longer.len() implies key_lt(
        #[trigger] longer[i],
        #[trigger] longer[j],
    ) by {
        if j < n {
            assert(run[i] == longer[i] && run[j] == longer[j]);
        } else if i < n - 1 {
            assert(run[i] == longer[i] && run[n - 1] == keys[n - 1]);
            lemma_key_lt_transitive(longer[i], keys[n - 1], keys[n]);
        }
    }
}

/// The outcome of comparing two keys.
#[derive(Debug, Clone, Copy, PartialEq, Eq, Structural)]
pub enum KeyOrder {
    Less,
    Equal,
    Greater,
}

/// Compares two keys.
pub fn compare_keys(a: &[u8], b: &[u8]) -> (r: KeyOrder)
    ensures
        (r is Less) == key_lt(a@, b@),
        (r is Equal) == (a@ == b@),
        (r is Greater) == key_lt(b@, a@),
{
    let a_len = a.len();
    let b_len = b.len();
    let mut i: usize = 0;
    assert(a@.skip(0) =~= a@ && b@.skip(0) =~= b@);
    while i < a_len && i < b_len && a[i] == b[i]
        invariant
            i <= a_len,
            i <= b_len,
            a_len == a@.len(),
            b_len == b@.len(),
            forall|j: int| 0 <= j < i ==> a@[j] == b@[j],
            key_lt(a@, b@) == key_lt(a@.skip(i as int), b@.skip(i as int)),
            key_lt(b@, a@) == key_lt(b@.skip(i as int), a@.skip(i as int)),
        decreases a_len - i,
    {
        assert(a@.skip(i as int).drop_first() =~= a@.skip(i + 1));
        assert(b@.skip(i as int).drop_first() =~= b@.skip(i + 1));
        i += 1;
    }
    proof {
        lemma_key_lt_total(a@, b@);
        lemma_key_lt_irreflexive(a@);
        if key_lt(a@, b@) {
            lemma_key_lt_asymmetric(a@, b@);
        }
        if i < a_len && i < b_len {
            assert(a@.skip(i as int)[0] == a@[i as int]);
            assert(b@.skip(i as int)[0] == b@[i as int]);
        }
    }
    if i < a_len {
        if i < b_len {
            if a[i] < b[i] {
                KeyOrder::Less
            } else {
                KeyOrder::Greater
            }
        } else {
            KeyOrder::Greater
        }
    } else if i < b_len {
        KeyOrder::Less
    } else {
        assert(a@ =~= b@);
        KeyOrder::Equal
    }
}

} // verus!
