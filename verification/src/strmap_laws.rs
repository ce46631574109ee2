//! What maps by text hold.

use crate::strmap::{
    ascending, has_key, lemma_lookup, lemma_lookup_at, lemma_lookup_put,
    lemma_put_ascending, lookup, put, put_all,
};
use crate::text::text_lt;
use vstd::prelude::*;

verus! {

/// What is put for a key is found for it, what was found for any other key still is, and the keys
/// stay in ascending order.
pub proof fn law_putting_changes_one_key<V>(
    entries: Seq<(Seq<char>, V)>,
    key: Seq<char>,
    value: V,
    other: Seq<char>,
)
    requires
        ascending(entries),
    ensures
        lookup(put(entries, key, value), key) == Some(value),
        other != key ==> lookup(put(entries, key, value), other) == lookup(entries, other),
        ascending(put(entries, key, value)),
{
    lemma_lookup_put(entries, key, value, key);
    lemma_lookup_put(entries, key, value, other);
    lemma_put_ascending(entries, key, value);
}

/// What is found for a key is what stands with it, and nothing is found only where the key does not
/// stand; the keys are in ascending order, none twice.
pub proof fn law_looking_up_finds_what_is_there<V>(
    entries: Seq<(Seq<char>, V)>,
    i: int,
    j: int,
    key: Seq<char>,
)
    requires
        ascending(entries),
    ensures
        0 <= i < entries.len() ==> lookup(entries, entries[i].0) == Some(entries[i].1),
        lookup(entries, key) is None <==> forall|k: int|
            0 <= k < entries.len() ==> (#[trigger] entries[k]).0 != key,
        0 <= i < j < entries.len() ==> text_lt(entries[i].0, entries[j].0),
{
    if 0 <= i < entries.len() {
        lemma_lookup_at(entries, i);
    }
    lemma_lookup(entries, key);
}

/// Of several pairs with one key the last holds, and nothing is found for a key of no pair.
pub proof fn law_last_pair_of_a_key_holds<V>(
    pairs: Seq<(Seq<char>, V)>,
    i: int,
    key: Seq<char>,
)
    ensures
        0 <= i < pairs.len() && pairs[i].0 == key && (forall|k: int|
            i < k < pairs.len() ==> (#[trigger] pairs[k]).0 != key) ==> lookup(
            put_all(Seq::empty(), pairs),
            key,
        ) == Some(pairs[i].1),
        !has_key(pairs, key) ==> lookup(put_all(Seq::empty(), pairs), key) is None,
        ascending(put_all(Seq::empty(), pairs)),
    decreases pairs.len(),
{
    let none = Seq::<(Seq<char>, V)>::empty();
    if pairs.len() > 0 {
        let before = pairs.drop_last();
        let last = pairs.last();
        law_last_pair_of_a_key_holds(before, i, key);
        lemma_lookup_put(put_all(none, before), last.0, last.1, key);
        lemma_put_ascending(put_all(none, before), last.0, last.1);
        assert(pairs[pairs.len() - 1] == last);
        if !has_key(pairs, key) {
            assert(last.0 != key);
            if has_key(before, key) {
                let k = choose|k: int| 0 <= k < before.len() && (#[trigger] before[k]).0 == key;
                assert(pairs[k].0 == key);
            }
        }
        if 0 <= i < pairs.len() - 1 && pairs[i].0 == key && (forall|k: int|
            i < k < pairs.len() ==> (#[trigger] pairs[k]).0 != key) {
            assert(last.0 != key);
            assert forall|k: int| i < k < before.len() implies (#[trigger] before[k]).0 != key by {
                assert(pairs[k].0 != key);
            }
        }
    } else {
        assert(put_all(none, pairs) =~= none);
    }
}

} // verus!
