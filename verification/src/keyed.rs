//! Lists of entries keyed by text, used as maps: the entry for a key is the
//! first one with that key, a put replaces it in place or appends, a removal
//! takes it out and keeps the order of the rest.

use vstd::prelude::*;

verus! {

/// The position of the first entry with a key.
pub open spec fn key_position<V>(es: Seq<(Seq<char>, V)>, key: Seq<char>) -> Option<int>
    decreases es.len(),
{
    if es.len() == 0 {
        None
    } else {
        match key_position(es.drop_last(), key) {
            Some(i) => Some(i),
            None => if es.last().0 == key {
                Some(es.len() - 1)
            } else {
                None
            },
        }
    }
}

/// The value stored under a key.
pub open spec fn stored<V>(es: Seq<(Seq<char>, V)>, key: Seq<char>) -> Option<V> {
    match key_position(es, key) {
        Some(i) => Some(es[i].1),
        None => None,
    }
}

/// The entries after `value` is put under `key`: it replaces the entry with
/// that key, or is appended.
pub open spec fn put_step<V>(es: Seq<(Seq<char>, V)>, key: Seq<char>, value: V) -> Seq<
    (Seq<char>, V),
> {
    match key_position(es, key) {
        Some(i) => es.update(i, (key, value)),
        None => es.push((key, value)),
    }
}

/// The entries after the entry under `key` is taken out.
pub open spec fn remove_step<V>(es: Seq<(Seq<char>, V)>, key: Seq<char>) -> Seq<(Seq<char>, V)> {
    match key_position(es, key) {
        Some(i) => es.remove(i),
        None => es,
    }
}

/// No key occurs twice.
pub open spec fn keys_distinct<V>(es: Seq<(Seq<char>, V)>) -> bool {
    forall|i: int, j: int| 0 <= i < j < es.len() ==> (#[trigger] es[i]).0 != (#[trigger] es[j]).0
}

/// A key found in a prefix is found at the same place in the whole list.
pub proof fn lemma_position_prefix<V>(es: Seq<(Seq<char>, V)>, key: Seq<char>, n: nat)
    requires
        n <= es.len(),
        key_position(es.take(n as int), key) is Some,
    ensures
        key_position(es, key) == key_position(es.take(n as int), key),
    decreases es.len() - n,
{
    if n < es.len() {
        assert(es.take(n + 1 as int).drop_last() =~= es.take(n as int));
        lemma_position_prefix(es, key, n + 1);
    } else {
        assert(es.take(n as int) =~= es);
    }
}

/// `key_position` finds an entry with that key, and none before it.
pub proof fn lemma_key_position<V>(es: Seq<(Seq<char>, V)>, key: Seq<char>)
    ensures
        key_position(es, key) matches Some(i) ==> 0 <= i < es.len() && es[i].0 == key && forall|j: int|
            0 <= j < i ==> es[j].0 != key,
        key_position(es, key) is None ==> forall|j: int| 0 <= j < es.len() ==> es[j].0 != key,
    decreases es.len(),
{
    if es.len() > 0 {
        lemma_key_position(es.drop_last(), key);
        assert forall|j: int| 0 <= j < es.len() - 1 implies es[j] == es.drop_last()[j] by {}
    }
}

/// The first entry with a key is at `i` when the key is at `i` and nowhere
/// before.
pub proof fn lemma_first_position<V>(es: Seq<(Seq<char>, V)>, key: Seq<char>, i: int)
    requires
        0 <= i < es.len(),
        es[i].0 == key,
        forall|j: int| 0 <= j < i ==> es[j].0 != key,
    ensures
        key_position(es, key) == Some(i),
{
    lemma_key_position(es, key);
    if let Some(k) = key_position(es, key) {
        assert(k == i);
    }
}

/// A key that no entry has is not found.
pub proof fn lemma_no_position<V>(es: Seq<(Seq<char>, V)>, key: Seq<char>)
    requires
        forall|j: int| 0 <= j < es.len() ==> es[j].0 != key,
    ensures
        key_position(es, key) is None,
{
    lemma_key_position(es, key);
    if let Some(k) = key_position(es, key) {
        assert(es[k].0 == key);
    }
}

/// Reading right after a put gives the value put.
pub proof fn law_stored_after_put<V>(es: Seq<(Seq<char>, V)>, key: Seq<char>, value: V)
    ensures
        stored(put_step(es, key, value), key) == Some(value),
{
    lemma_key_position(es, key);
    let es2 = put_step(es, key, value);
    match key_position(es, key) {
        Some(i) => {
            lemma_first_position(es2, key, i);
        },
        None => {
            lemma_first_position(es2, key, es.len() as int);
        },
    }
}

/// A put leaves what is stored under every other key as it was.
pub proof fn law_put_keeps_other_keys<V>(
    es: Seq<(Seq<char>, V)>,
    key: Seq<char>,
    value: V,
    other: Seq<char>,
)
    requires
        other != key,
    ensures
        stored(put_step(es, key, value), other) == stored(es, other),
{
    lemma_key_position(es, key);
    lemma_key_position(es, other);
    let es2 = put_step(es, key, value);
    assert forall|j: int| 0 <= j < es.len() && es2[j].0 == other implies es[j] == es2[j] by {}
    match key_position(es, other) {
        Some(k) => {
            lemma_first_position(es2, other, k);
        },
        None => {
            lemma_no_position(es2, other);
        },
    }
}

/// A put keeps keys distinct.
pub proof fn law_put_keeps_keys_distinct<V>(es: Seq<(Seq<char>, V)>, key: Seq<char>, value: V)
    requires
        keys_distinct(es),
    ensures
        keys_distinct(put_step(es, key, value)),
{
    lemma_key_position(es, key);
    let es2 = put_step(es, key, value);
    assert forall|i: int, j: int| 0 <= i < j < es2.len() implies (#[trigger] es2[i]).0 != (
    #[trigger] es2[j]).0 by {
        match key_position(es, key) {
            Some(x) => {
                assert(es2[i].0 == es[i].0 && es2[j].0 == es[j].0);
            },
            None => {
                if j == es.len() {
                    assert(es2[i] == es[i]);
                } else {
                    assert(es2[i] == es[i] && es2[j] == es[j]);
                }
            },
        }
    }
}

/// After a removal nothing is stored under that key, when keys are distinct.
pub proof fn law_nothing_stored_after_remove<V>(es: Seq<(Seq<char>, V)>, key: Seq<char>)
    requires
        keys_distinct(es),
    ensures
        stored(remove_step(es, key), key) is None,
{
    lemma_key_position(es, key);
    let es2 = remove_step(es, key);
    lemma_key_position(es2, key);
    if key_position(es2, key) is Some {
        let j = key_position(es2, key)->0;
        match key_position(es, key) {
            Some(i) => {
                if j < i {
                    assert(es2[j] == es[j]);
                } else {
                    assert(es2[j] == es[j + 1]);
                }
            },
            None => {},
        }
    }
}

/// A removal leaves what is stored under every other key as it was.
pub proof fn law_remove_keeps_other_keys<V>(es: Seq<(Seq<char>, V)>, key: Seq<char>, other: Seq<char>)
    requires
        other != key,
    ensures
        stored(remove_step(es, key), other) == stored(es, other),
{
    lemma_key_position(es, key);
    lemma_key_position(es, other);
    let es2 = remove_step(es, key);
    match key_position(es, key) {
        Some(i) => {
            match key_position(es, other) {
                Some(k) => {
                    if k < i {
                        assert forall|j: int| 0 <= j < k implies es2[j].0 != other by {
                            assert(es2[j] == es[j]);
                        }
                        assert(es2[k] == es[k]);
                        lemma_first_position(es2, other, k);
                    } else {
                        assert(es2[k - 1] == es[k]);
                        assert forall|j: int| 0 <= j < k - 1 implies es2[j].0 != other by {
                            if j < i {
                                assert(es2[j] == es[j]);
                            } else {
                                assert(es2[j] == es[j + 1]);
                            }
                        }
                        lemma_first_position(es2, other, k - 1);
                    }
                },
                None => {
                    assert forall|j: int| 0 <= j < es2.len() implies es2[j].0 != other by {
                        if j < i {
                            assert(es2[j] == es[j]);
                        } else {
                            assert(es2[j] == es[j + 1]);
                        }
                    }
                    lemma_no_position(es2, other);
                },
            }
        },
        None => {},
    }
}

/// A removal keeps keys distinct.
pub proof fn law_remove_keeps_keys_distinct<V>(es: Seq<(Seq<char>, V)>, key: Seq<char>)
    requires
        keys_distinct(es),
    ensures
        keys_distinct(remove_step(es, key)),
{
    lemma_key_position(es, key);
    let es2 = remove_step(es, key);
    if let Some(x) = key_position(es, key) {
        assert forall|i: int, j: int| 0 <= i < j < es2.len() implies (#[trigger] es2[i]).0 != (
        #[trigger] es2[j]).0 by {
            let a = if i < x {
                i
            } else {
                i + 1
            };
            let b = if j < x {
                j
            } else {
                j + 1
            };
            assert(es2[i] == es[a]);
            assert(es2[j] == es[b]);
        }
    }
}

} // verus!
