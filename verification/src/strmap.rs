//! A map from strings to values, kept in the order of its keys.

use crate::order::reverse;
use crate::text::{
    text_eq, text_less, text_lt, text_lt_irreflexive, text_lt_total, text_lt_transitive,
};
use crate::views::views;
use vstd::prelude::*;

verus! {

/// The keys of `entries` strictly ascend.
pub open spec fn ascending<V>(entries: Seq<(Seq<char>, V)>) -> bool {
    forall|i: int, j: int|
        0 <= i < j < entries.len() ==> text_lt(
            (#[trigger] entries[i]).0,
            (#[trigger] entries[j]).0,
        )
}

/// `entries` holds an entry for `key`.
pub open spec fn has_key<V>(entries: Seq<(Seq<char>, V)>, key: Seq<char>) -> bool {
    exists|i: int| 0 <= i < entries.len() && (#[trigger] entries[i]).0 == key
}

/// The value that `entries` holds for `key`.
pub open spec fn lookup<V>(entries: Seq<(Seq<char>, V)>, key: Seq<char>) -> Option<V>
    decreases entries.len(),
{
    if entries.len() == 0 {
        None
    } else if entries[0].0 == key {
        Some(entries[0].1)
    } else {
        lookup(entries.drop_first(), key)
    }
}

/// `entries` with `value` for `key`: the entry of `key` is replaced, or a new one stands
/// before the first greater key.
pub open spec fn put<V>(entries: Seq<(Seq<char>, V)>, key: Seq<char>, value: V) -> Seq<
    (Seq<char>, V),
>
    decreases entries.len(),
{
    if entries.len() == 0 {
        seq![(key, value)]
    } else if entries[0].0 == key {
        entries.update(0, (key, value))
    } else if text_lt(key, entries[0].0) {
        seq![(key, value)] + entries
    } else {
        seq![entries[0]] + put(entries.drop_first(), key, value)
    }
}

/// `entries` after a `put` of each of `pairs`, in order.
pub open spec fn put_all<V>(entries: Seq<(Seq<char>, V)>, pairs: Seq<(Seq<char>, V)>) -> Seq<
    (Seq<char>, V),
>
    decreases pairs.len(),
{
    if pairs.len() == 0 {
        entries
    } else {
        put(put_all(entries, pairs.drop_last()), pairs.last().0, pairs.last().1)
    }
}

/// The entries with each value replaced by its view.
pub open spec fn entry_views<V: View>(entries: Seq<(Seq<char>, V)>) -> Seq<(Seq<char>, V::V)> {
    entries.map_values(|e: (Seq<char>, V)| (e.0, e.1@))
}

/// The entries with each list replaced by what its strings hold.
pub open spec fn list_views(entries: Seq<(Seq<char>, Vec<String>)>) -> Seq<
    (Seq<char>, Seq<Seq<char>>),
> {
    entries.map_values(|e: (Seq<char>, Vec<String>)| (e.0, views(e.1@)))
}

/// The keys of the entries.
pub open spec fn keys_of<V>(entries: Seq<(Seq<char>, V)>) -> Seq<Seq<char>> {
    entries.map_values(|e: (Seq<char>, V)| e.0)
}

/// A lookup finds an entry exactly where one stands.
pub proof fn lemma_lookup<V>(entries: Seq<(Seq<char>, V)>, key: Seq<char>)
    ensures
        lookup(entries, key) is Some <==> has_key(entries, key),
        lookup(entries, key) matches Some(v) ==> exists|i: int|
            0 <= i < entries.len() && #[trigger] entries[i] == (key, v),
    decreases entries.len(),
{
    if entries.len() > 0 {
        let rest = entries.drop_first();
        lemma_lookup(rest, key);
        if entries[0].0 == key {
            assert(entries[0] == (key, entries[0].1));
        } else {
            assert forall|i: int| 0 <= i < rest.len() implies #[trigger] rest[i] == entries[i
                + 1] by {}
            if has_key(entries, key) {
                let i = choose|i: int| 0 <= i < entries.len() && (#[trigger] entries[i]).0 == key;
                assert(rest[i - 1].0 == key);
            }
            if has_key(rest, key) {
                let i = choose|i: int| 0 <= i < rest.len() && (#[trigger] rest[i]).0 == key;
                assert(entries[i + 1].0 == key);
            }
            if let Some(v) = lookup(rest, key) {
                let i = choose|i: int| 0 <= i < rest.len() && #[trigger] rest[i] == (key, v);
                assert(entries[i + 1] == (key, v));
            }
        }
    }
}

/// In ascending entries, the entry at `i` is the one that a lookup of its key finds.
pub proof fn lemma_lookup_at<V>(entries: Seq<(Seq<char>, V)>, i: int)
    requires
        ascending(entries),
        0 <= i < entries.len(),
    ensures
        lookup(entries, entries[i].0) == Some(entries[i].1),
    decreases entries.len(),
{
    if i > 0 {
        text_lt_irreflexive(entries[i].0);
        assert(text_lt(entries[0].0, entries[i].0));
        let rest = entries.drop_first();
        assert(rest[i - 1] == entries[i]);
        lemma_lookup_at(rest, i - 1);
    }
}

/// In ascending entries, a key stands at one position only.
pub proof fn lemma_keys_distinct<V>(entries: Seq<(Seq<char>, V)>, i: int, j: int)
    requires
        ascending(entries),
        0 <= i < entries.len(),
        0 <= j < entries.len(),
        entries[i].0 == entries[j].0,
    ensures
        i == j,
{
    text_lt_irreflexive(entries[i].0);
}

/// What a lookup finds after a `put`: the value that was put, and every other one as before.
pub proof fn lemma_lookup_put<V>(
    entries: Seq<(Seq<char>, V)>,
    key: Seq<char>,
    value: V,
    other: Seq<char>,
)
    ensures
        lookup(put(entries, key, value), other) == if other == key {
            Some(value)
        } else {
            lookup(entries, other)
        },
    decreases entries.len(),
{
    if entries.len() == 0 {
        assert(put(entries, key, value).drop_first() =~= entries);
    } else if entries[0].0 == key {
        assert(put(entries, key, value).drop_first() =~= entries.drop_first());
    } else if text_lt(key, entries[0].0) {
        assert(put(entries, key, value).drop_first() =~= entries);
    } else {
        assert(put(entries, key, value).drop_first() =~= put(entries.drop_first(), key, value));
        lemma_lookup_put(entries.drop_first(), key, value, other);
    }
}

/// What lookups find after a `put`.
pub proof fn lemma_lookups_put<V>(entries: Seq<(Seq<char>, V)>, key: Seq<char>, value: V)
    ensures
        forall|other: Seq<char>| #[trigger]
            lookup(put(entries, key, value), other) == if other == key {
                Some(value)
            } else {
                lookup(entries, other)
            },
{
    assert forall|other: Seq<char>| #[trigger] lookup(put(entries, key, value), other)
        == if other == key {
        Some(value)
    } else {
        lookup(entries, other)
    } by {
        lemma_lookup_put(entries, key, value, other);
    }
}

/// Where `put` places its entry.
proof fn lemma_put_at<V>(entries: Seq<(Seq<char>, V)>, key: Seq<char>, value: V, at: int)
    requires
        0 <= at <= entries.len(),
        forall|i: int| 0 <= i < at ==> text_lt((#[trigger] entries[i]).0, key),
        at < entries.len() ==> !text_lt(entries[at].0, key),
    ensures
        put(entries, key, value) == if at < entries.len() && entries[at].0 == key {
            entries.update(at, (key, value))
        } else {
            entries.insert(at, (key, value))
        },
    decreases entries.len(),
{
    if at == 0 {
        if entries.len() > 0 {
            text_lt_total(entries[0].0, key);
        }
        assert(put(entries, key, value) =~= if entries.len() > 0 && entries[0].0 == key {
            entries.update(0, (key, value))
        } else {
            entries.insert(0, (key, value))
        });
    } else {
        let rest = entries.drop_first();
        assert(text_lt(entries[0].0, key));
        text_lt_irreflexive(key);
        if text_lt(key, entries[0].0) {
            text_lt_transitive(key, entries[0].0, key);
        }
        assert forall|i: int| 0 <= i < at - 1 implies text_lt((#[trigger] rest[i]).0, key) by {
            assert(rest[i] == entries[i + 1]);
        }
        lemma_put_at(rest, key, value, at - 1);
        assert(put(entries, key, value) =~= if at < entries.len() && entries[at].0 == key {
            entries.update(at, (key, value))
        } else {
            entries.insert(at, (key, value))
        });
    }
}

/// The first position whose key does not precede `key`.
spec fn place<V>(entries: Seq<(Seq<char>, V)>, key: Seq<char>) -> int
    decreases entries.len(),
{
    if entries.len() == 0 || !text_lt(entries[0].0, key) {
        0
    } else {
        place(entries.drop_first(), key) + 1
    }
}

proof fn lemma_place<V>(entries: Seq<(Seq<char>, V)>, key: Seq<char>)
    ensures
        0 <= place(entries, key) <= entries.len(),
        forall|i: int| 0 <= i < place(entries, key) ==> text_lt((#[trigger] entries[i]).0, key),
        place(entries, key) < entries.len() ==> !text_lt(entries[place(entries, key)].0, key),
    decreases entries.len(),
{
    if entries.len() > 0 && text_lt(entries[0].0, key) {
        let rest = entries.drop_first();
        lemma_place(rest, key);
        assert forall|i: int| 0 <= i < place(entries, key) implies text_lt(
            (#[trigger] entries[i]).0,
            key,
        ) by {
            if i > 0 {
                assert(rest[i - 1] == entries[i]);
            }
        }
    }
}

/// Entries stay in ascending order under `put`.
pub proof fn lemma_put_ascending<V>(entries: Seq<(Seq<char>, V)>, key: Seq<char>, value: V)
    requires
        ascending(entries),
    ensures
        ascending(put(entries, key, value)),
{
    let at = place(entries, key);
    lemma_place(entries, key);
    lemma_put_at(entries, key, value, at);
    let after = put(entries, key, value);
    assert forall|i: int, j: int| 0 <= i < j < after.len() implies text_lt(
        (#[trigger] after[i]).0,
        (#[trigger] after[j]).0,
    ) by {
        if at < entries.len() && entries[at].0 == key {
            assert(text_lt(entries[i].0, entries[j].0));
        } else {
            if at < entries.len() {
                text_lt_total(entries[at].0, key);
            }
            if i < at && j > at {
                assert(text_lt(entries[i].0, entries[j - 1].0));
            } else if i == at {
                if j - 1 > at {
                    assert(text_lt(entries[at].0, entries[j - 1].0));
                    text_lt_transitive(key, entries[at].0, entries[j - 1].0);
                }
            } else if i > at {
                assert(text_lt(entries[i - 1].0, entries[j - 1].0));
            } else if j < at {
                assert(text_lt(entries[i].0, entries[j].0));
            }
        }
    }
}

/// A `put` past the last key appends.
pub proof fn lemma_put_last<V>(entries: Seq<(Seq<char>, V)>, key: Seq<char>, value: V)
    requires
        forall|i: int| 0 <= i < entries.len() ==> text_lt((#[trigger] entries[i]).0, key),
    ensures
        put(entries, key, value) == entries.push((key, value)),
{
    lemma_put_at(entries, key, value, entries.len() as int);
    assert(entries.insert(entries.len() as int, (key, value)) =~= entries.push((key, value)));
}

/// Entries in ascending order are told by what a lookup finds.
pub proof fn lemma_same_lookups<V>(a: Seq<(Seq<char>, V)>, b: Seq<(Seq<char>, V)>)
    requires
        ascending(a),
        ascending(b),
        forall|key: Seq<char>| #[trigger] lookup(a, key) == lookup(b, key),
    ensures
        a == b,
    decreases a.len(),
{
    if a.len() == 0 {
        if b.len() > 0 {
            lemma_lookup_at(b, 0);
            assert(lookup(a, b[0].0) is None);
        }
        assert(a =~= b);
    } else {
        lemma_lookup_at(a, 0);
        lemma_lookup(b, a[0].0);
        assert(lookup(b, a[0].0) == Some(a[0].1));
        let j = choose|j: int| 0 <= j < b.len() && #[trigger] b[j] == (a[0].0, a[0].1);
        lemma_lookup_at(b, 0);
        lemma_lookup(a, b[0].0);
        assert(lookup(a, b[0].0) == Some(b[0].1));
        let i = choose|i: int| 0 <= i < a.len() && #[trigger] a[i] == (b[0].0, b[0].1);
        if j > 0 && i > 0 {
            assert(text_lt(b[0].0, b[j].0));
            assert(text_lt(a[0].0, a[i].0));
            text_lt_transitive(a[0].0, b[0].0, a[0].0);
            text_lt_irreflexive(a[0].0);
        }
        assert(a[0] == b[0]);
        let rest_a = a.drop_first();
        let rest_b = b.drop_first();
        assert forall|key: Seq<char>| #[trigger] lookup(rest_a, key) == lookup(rest_b, key) by {
            assert(lookup(a, key) == lookup(b, key));
            if key == a[0].0 {
                lemma_first_key_once(a);
                lemma_first_key_once(b);
            }
        }
        lemma_same_lookups(rest_a, rest_b);
        assert(a =~= seq![a[0]] + rest_a);
        assert(b =~= seq![b[0]] + rest_b);
    }
}

proof fn lemma_first_key_once<V>(entries: Seq<(Seq<char>, V)>)
    requires
        ascending(entries),
        entries.len() > 0,
    ensures
        lookup(entries.drop_first(), entries[0].0) is None,
{
    let rest = entries.drop_first();
    lemma_lookup(rest, entries[0].0);
    if has_key(rest, entries[0].0) {
        let i = choose|i: int| 0 <= i < rest.len() && (#[trigger] rest[i]).0 == entries[0].0;
        assert(rest[i] == entries[i + 1]);
        text_lt_irreflexive(entries[0].0);
    }
}

/// The key at `i` does not stand before `i`.
pub proof fn lemma_not_before<V>(entries: Seq<(Seq<char>, V)>, i: int)
    requires
        ascending(entries),
        0 <= i < entries.len(),
    ensures
        lookup(entries.take(i), entries[i].0) is None,
{
    let before = entries.take(i);
    lemma_lookup(before, entries[i].0);
    if has_key(before, entries[i].0) {
        let k = choose|k: int| 0 <= k < before.len() && (#[trigger] before[k]).0 == entries[i].0;
        assert(before[k] == entries[k]);
        lemma_keys_distinct(entries, k, i);
    }
}

/// What a lookup finds in one entry more.
pub proof fn lemma_lookup_push<V>(entries: Seq<(Seq<char>, V)>, entry: (Seq<char>, V), key: Seq<char>)
    ensures
        lookup(entries.push(entry), key) == match lookup(entries, key) {
            Some(value) => Some(value),
            None => if entry.0 == key {
                Some(entry.1)
            } else {
                None
            },
        },
    decreases entries.len(),
{
    if entries.len() == 0 {
        assert(entries.push(entry).drop_first() =~= entries);
    } else {
        assert(entries.push(entry).drop_first() =~= entries.drop_first().push(entry));
        lemma_lookup_push(entries.drop_first(), entry, key);
    }
}

/// Taking views keeps the order of the keys.
pub proof fn lemma_views_ascending<V: View>(entries: Seq<(Seq<char>, V)>)
    requires
        ascending(entries),
    ensures
        ascending(entry_views(entries)),
{
    let views = entry_views(entries);
    assert forall|i: int, j: int| 0 <= i < j < views.len() implies text_lt(
        (#[trigger] views[i]).0,
        (#[trigger] views[j]).0,
    ) by {
        assert(text_lt(entries[i].0, entries[j].0));
    }
}

/// A lookup among views finds the view of what a lookup finds.
pub proof fn lemma_views_lookup<V: View>(entries: Seq<(Seq<char>, V)>, key: Seq<char>)
    ensures
        lookup(entry_views(entries), key) == match lookup(entries, key) {
            Some(v) => Some(v@),
            None => None,
        },
    decreases entries.len(),
{
    if entries.len() > 0 {
        assert(entry_views(entries).drop_first() =~= entry_views(entries.drop_first()));
        lemma_views_lookup(entries.drop_first(), key);
    }
}

/// A `put` of a list puts what its strings hold.
pub proof fn lemma_lists_put(
    entries: Seq<(Seq<char>, Vec<String>)>,
    key: Seq<char>,
    list: Vec<String>,
)
    ensures
        list_views(put(entries, key, list)) == put(list_views(entries), key, views(list@)),
    decreases entries.len(),
{
    let named = list_views(entries);
    if entries.len() > 0 && entries[0].0 != key && !text_lt(key, entries[0].0) {
        assert(named.drop_first() =~= list_views(entries.drop_first()));
        lemma_lists_put(entries.drop_first(), key, list);
    }
    assert(list_views(put(entries, key, list)) =~= put(named, key, views(list@)));
}

/// A lookup of a list finds what its strings hold.
pub proof fn lemma_lists_lookup(entries: Seq<(Seq<char>, Vec<String>)>, key: Seq<char>)
    ensures
        lookup(list_views(entries), key) == match lookup(entries, key) {
            Some(list) => Some(views(list@)),
            None => None,
        },
    decreases entries.len(),
{
    if entries.len() > 0 {
        assert(list_views(entries).drop_first() =~= list_views(entries.drop_first()));
        lemma_lists_lookup(entries.drop_first(), key);
    }
}

/// A `put` among views puts the view.
pub proof fn lemma_views_put<V: View>(entries: Seq<(Seq<char>, V)>, key: Seq<char>, value: V)
    ensures
        entry_views(put(entries, key, value)) == put(entry_views(entries), key, value@),
    decreases entries.len(),
{
    let views = entry_views(entries);
    if entries.len() > 0 && entries[0].0 != key && !text_lt(key, entries[0].0) {
        assert(views.drop_first() =~= entry_views(entries.drop_first()));
        lemma_views_put(entries.drop_first(), key, value);
    }
    assert(entry_views(put(entries, key, value)) =~= put(views, key, value@));
}

/// A map from strings to values, in ascending order of its keys.
#[derive(Debug, PartialEq)]
pub struct StrMap<V> {
    entries: Vec<(String, V)>,
}

impl<V> View for StrMap<V> {
    type V = Seq<(Seq<char>, V)>;

    closed spec fn view(&self) -> Seq<(Seq<char>, V)> {
        self.entries@.map_values(|e: (String, V)| (e.0@, e.1))
    }
}

/// The values of a map are smaller than the map.
pub proof fn lemma_value_smaller<V>(map: StrMap<V>, i: int)
    requires
        0 <= i < map@.len(),
    ensures
        decreases_to!(map => map@[i].1),
{
    assert(decreases_to!(map => map.entries));
    assert(decreases_to!(map.entries => map.entries@));
    assert(decreases_to!(map.entries@ => map.entries@[i]));
    assert(decreases_to!(map.entries@[i] => map.entries@[i].1));
}

/// The values of a map are smaller than the map.
pub proof fn lemma_values_smaller<V>(map: StrMap<V>)
    ensures
        forall|i: int| 0 <= i < map@.len() ==> decreases_to!(map => (#[trigger] map@[i]).1),
{
    assert forall|i: int| 0 <= i < map@.len() implies decreases_to!(
        map => (#[trigger] map@[i]).1
    ) by {
        lemma_value_smaller(map, i);
    }
}

impl<V> StrMap<V> {
    #[verifier::type_invariant]
    spec fn ordered(self) -> bool {
        ascending(self@)
    }

    /// The map without entries.
    pub fn new() -> (map: StrMap<V>)
        ensures
            map@ == Seq::<(Seq<char>, V)>::empty(),
    {
        StrMap { entries: Vec::new() }
    }

    /// The number of entries.
    pub fn len(&self) -> (len: usize)
        ensures
            len == self@.len(),
            ascending(self@),
    {
        proof {
            use_type_invariant(self);
        }
        self.entries.len()
    }

    /// The key of entry `i`.
    pub fn key_at(&self, i: usize) -> (key: &str)
        requires
            i < self@.len(),
        ensures
            key@ == self@[i as int].0,
    {
        self.entries[i].0.as_str()
    }

    /// The value of entry `i`.
    pub fn value_at(&self, i: usize) -> (value: &V)
        requires
            i < self@.len(),
        ensures
            *value == self@[i as int].1,
    {
        &self.entries[i].1
    }

    /// The position of the entry of `key`.
    pub fn index_of(&self, key: &str) -> (found: Option<usize>)
        ensures
            match found {
                Some(i) => i < self@.len() && self@[i as int].0 == key@ && lookup(self@, key@)
                    == Some(self@[i as int].1),
                None => lookup(self@, key@) is None && !has_key(self@, key@),
            },
            ascending(self@),
    {
        proof {
            use_type_invariant(self);
        }
        let mut i: usize = 0;
        while i < self.entries.len()
            invariant
                i <= self.entries@.len(),
                ascending(self@),
                forall|k: int| 0 <= k < i ==> (#[trigger] self@[k]).0 != key@,
            decreases self.entries.len() - i,
        {
            if text_eq(self.entries[i].0.as_str(), key) {
                proof {
                    assert(self@[i as int].0 == key@);
                    lemma_lookup_at(self@, i as int);
                }
                return Some(i);
            }
            assert(self@[i as int].0 != key@);
            i = i + 1;
        }
        proof {
            lemma_lookup(self@, key@);
        }
        None
    }

    /// The value for `key`.
    pub fn get(&self, key: &str) -> (found: Option<&V>)
        ensures
            found == match lookup(self@, key@) {
                Some(v) => Some(&v),
                None => None,
            },
            ascending(self@),
    {
        match self.index_of(key) {
            Some(i) => Some(&self.entries[i].1),
            None => None,
        }
    }

    /// Whether there is an entry for `key`.
    pub fn contains_key(&self, key: &str) -> (found: bool)
        ensures
            found == has_key(self@, key@),
    {
        let found = self.index_of(key);
        match found {
            Some(i) => {
                assert(self@[i as int].0 == key@);
                true
            }
            None => false,
        }
    }

    /// The map with `value` for `key`.
    pub fn put(self, key: String, value: V) -> (map: StrMap<V>)
        ensures
            map@ == put(self@, key@, value),
            ascending(map@),
    {
        proof {
            use_type_invariant(&self);
            lemma_put_ascending(self@, key@, value);
        }
        let ghost before = self@;
        let mut entries = self.entries;
        let mut at: usize = 0;
        while at < entries.len() && text_less(entries[at].0.as_str(), key.as_str())
            invariant
                at <= entries@.len(),
                before == entries@.map_values(|e: (String, V)| (e.0@, e.1)),
                forall|i: int| 0 <= i < at ==> text_lt((#[trigger] before[i]).0, key@),
            decreases entries.len() - at,
        {
            at = at + 1;
        }
        proof {
            lemma_put_at(before, key@, value, at as int);
        }
        let ghost keyed = (key@, value);
        if at < entries.len() && text_eq(entries[at].0.as_str(), key.as_str()) {
            entries.set(at, (key, value));
            assert(entries@.map_values(|e: (String, V)| (e.0@, e.1)) =~= before.update(
                at as int,
                keyed,
            ));
        } else {
            entries.insert(at, (key, value));
            assert(entries@.map_values(|e: (String, V)| (e.0@, e.1)) =~= before.insert(
                at as int,
                keyed,
            ));
        }
        StrMap { entries }
    }

    /// The keys, in order.
    pub fn keys(&self) -> (keys: Vec<String>)
        ensures
            views(keys@) == keys_of(self@),
            ascending(self@),
    {
        proof {
            use_type_invariant(self);
        }
        let mut keys: Vec<String> = Vec::new();
        let mut i: usize = 0;
        while i < self.entries.len()
            invariant
                i <= self.entries@.len(),
                keys@.len() == i,
                forall|k: int| 0 <= k < i ==> (#[trigger] keys@[k])@ == self@[k].0,
            decreases self.entries.len() - i,
        {
            keys.push(self.entries[i].0.clone());
            i = i + 1;
        }
        assert(views(keys@) =~= keys_of(self@));
        keys
    }

    /// The entries, in order.
    pub fn entries(&self) -> (entries: &Vec<(String, V)>)
        ensures
            pair_views(entries@) == self@,
            ascending(self@),
    {
        proof {
            use_type_invariant(self);
        }
        assert(pair_views(self.entries@) =~= self@);
        &self.entries
    }

    /// The map that holds the given entries; of several for one key it holds the last.
    pub fn from_entries(pairs: Vec<(String, V)>) -> (map: StrMap<V>)
        ensures
            map@ == put_all(Seq::empty(), pair_views(pairs@)),
            ascending(map@),
    {
        let ghost given = pairs@;
        let ghost named = pair_views(pairs@);
        let mut rest = reverse(pairs);
        let mut map: StrMap<V> = StrMap::new();
        assert(named.take(0) =~= Seq::empty());
        assert(map@ =~= Seq::empty());
        while rest.len() > 0
            invariant
                named == pair_views(given),
                rest@.len() <= given.len(),
                forall|i: int|
                    0 <= i < rest@.len() ==> #[trigger] rest@[i] == given[given.len() - 1 - i],
                map@ == put_all(Seq::empty(), named.take(given.len() - rest@.len())),
                ascending(map@),
            decreases rest.len(),
        {
            let ghost done = given.len() - rest@.len();
            assert(rest@[rest@.len() - 1] == given[done]);
            match rest.pop() {
                Some(pair) => {
                    proof {
                        assert(named.take(done + 1).drop_last() =~= named.take(done));
                        assert(named.take(done + 1).last() == (pair.0@, pair.1));
                    }
                    map = map.put(pair.0, pair.1);
                }
                None => {}
            }
        }
        assert(named.take(given.len() as int) =~= named);
        map
    }
}

/// The entries that a vector of pairs stands for.
pub open spec fn pair_views<V>(pairs: Seq<(String, V)>) -> Seq<(Seq<char>, V)> {
    pairs.map_values(|e: (String, V)| (e.0@, e.1))
}

} // verus!
