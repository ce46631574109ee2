//! Stable sorting by an integer key.

use vstd::prelude::*;

verus! {

/// The item at `a` comes before the item at `b`: by its key, and among equal keys by where it
/// stood.
pub open spec fn comes_before(keys: Seq<usize>, descending: bool, a: int, b: int) -> bool {
    if keys[a] == keys[b] {
        a < b
    } else if descending {
        keys[a] > keys[b]
    } else {
        keys[a] < keys[b]
    }
}

/// `perm` lists all positions of `keys` in stable order.
pub open spec fn is_stable_order(keys: Seq<usize>, descending: bool, perm: Seq<int>) -> bool {
    &&& perm.len() == keys.len()
    &&& forall|i: int| 0 <= i < perm.len() ==> 0 <= #[trigger] perm[i] < keys.len()
    &&& forall|v: int| 0 <= v < keys.len() ==> #[trigger] perm.contains(v)
    &&& forall|i: int, j: int|
        0 <= i < j < perm.len() ==> comes_before(
            keys,
            descending,
            #[trigger] perm[i],
            #[trigger] perm[j],
        )
}

/// The items in the order that `perm` lists.
pub open spec fn reordered<T>(items: Seq<T>, perm: Seq<int>) -> Seq<T> {
    perm.map_values(|p: int| items[p])
}

/// `sorted` holds the items in stable order of their keys.
pub open spec fn stably_sorted<T>(
    items: Seq<T>,
    keys: Seq<usize>,
    descending: bool,
    sorted: Seq<T>,
) -> bool {
    exists|perm: Seq<int>| #[trigger]
        is_stable_order(keys, descending, perm) && sorted == reordered(items, perm)
}

/// Two sequences of positions in the same order that list the same positions are equal.
proof fn lemma_order_unique(keys: Seq<usize>, descending: bool, a: Seq<int>, b: Seq<int>)
    requires
        forall|i: int, j: int|
            0 <= i < j < a.len() ==> comes_before(
                keys,
                descending,
                #[trigger] a[i],
                #[trigger] a[j],
            ),
        forall|i: int, j: int|
            0 <= i < j < b.len() ==> comes_before(
                keys,
                descending,
                #[trigger] b[i],
                #[trigger] b[j],
            ),
        forall|v: int| #[trigger] a.contains(v) <==> b.contains(v),
    ensures
        a == b,
    decreases a.len(),
{
    if a.len() == 0 {
        if b.len() > 0 {
            assert(b.contains(b[0]));
            assert(a.contains(b[0]));
        }
        assert(a =~= b);
    } else {
        assert(a.contains(a[0]));
        assert(b.contains(a[0]));
        let j = choose|j: int| 0 <= j < b.len() && b[j] == a[0];
        assert(b.contains(b[0]));
        assert(a.contains(b[0]));
        let i = choose|i: int| 0 <= i < a.len() && a[i] == b[0];
        if i > 0 && j > 0 {
            assert(comes_before(keys, descending, a[0], a[i]));
            assert(comes_before(keys, descending, b[0], b[j]));
        }
        assert(a[0] == b[0]);
        let rest_a = a.drop_first();
        let rest_b = b.drop_first();
        assert forall|v: int| #[trigger] rest_a.contains(v) <==> rest_b.contains(v) by {
            if rest_a.contains(v) {
                let k = choose|k: int| 0 <= k < rest_a.len() && rest_a[k] == v;
                assert(a[k + 1] == v);
                assert(comes_before(keys, descending, a[0], a[k + 1]));
                assert(a.contains(v));
                let l = choose|l: int| 0 <= l < b.len() && b[l] == v;
                assert(rest_b[l - 1] == v);
            }
            if rest_b.contains(v) {
                let k = choose|k: int| 0 <= k < rest_b.len() && rest_b[k] == v;
                assert(b[k + 1] == v);
                assert(comes_before(keys, descending, b[0], b[k + 1]));
                assert(b.contains(v));
                assert(a.contains(v));
                let l = choose|l: int| 0 <= l < a.len() && a[l] == v;
                assert(rest_a[l - 1] == v);
            }
        }
        lemma_order_unique(keys, descending, rest_a, rest_b);
        assert(a =~= seq![a[0]] + rest_a);
        assert(b =~= seq![b[0]] + rest_b);
    }
}

/// There is one stable order: it determines what is sorted.
pub proof fn law_stable_order_unique<T>(
    items: Seq<T>,
    keys: Seq<usize>,
    descending: bool,
    a: Seq<T>,
    b: Seq<T>,
)
    requires
        stably_sorted(items, keys, descending, a),
        stably_sorted(items, keys, descending, b),
    ensures
        a == b,
{
    let p = choose|perm: Seq<int>| #[trigger]
        is_stable_order(keys, descending, perm) && a == reordered(items, perm);
    let q = choose|perm: Seq<int>| #[trigger]
        is_stable_order(keys, descending, perm) && b == reordered(items, perm);
    assert forall|v: int| #[trigger] p.contains(v) <==> q.contains(v) by {
        if p.contains(v) {
            let i = choose|i: int| 0 <= i < p.len() && p[i] == v;
            assert(0 <= p[i] < keys.len());
        }
        if q.contains(v) {
            let i = choose|i: int| 0 <= i < q.len() && q[i] == v;
            assert(0 <= q[i] < keys.len());
        }
    }
    lemma_order_unique(keys, descending, p, q);
}

/// The first `n` items without those that are not to be kept.
pub open spec fn picked<T>(items: Seq<T>, keep: Seq<bool>, n: int) -> Seq<T>
    decreases n,
{
    if n <= 0 {
        Seq::empty()
    } else if keep[n - 1] {
        picked(items, keep, n - 1).push(items[n - 1])
    } else {
        picked(items, keep, n - 1)
    }
}

/// How many of the first `n` items are kept.
spec fn rank(keep: Seq<bool>, n: int) -> int
    decreases n,
{
    if n <= 0 {
        0
    } else if keep[n - 1] {
        rank(keep, n - 1) + 1
    } else {
        rank(keep, n - 1)
    }
}

proof fn lemma_picked_len<T>(items: Seq<T>, keep: Seq<bool>, n: int)
    ensures
        picked(items, keep, n).len() == rank(keep, n),
    decreases n,
{
    if n > 0 {
        lemma_picked_len(items, keep, n - 1);
    }
}

/// Of two positions the later has the higher rank, if the earlier is kept.
proof fn lemma_rank_rises(keep: Seq<bool>, i: int, j: int)
    requires
        0 <= i < j,
        keep[i],
    ensures
        rank(keep, i) < rank(keep, j),
    decreases j,
{
    if j > i + 1 {
        lemma_rank_rises(keep, i, j - 1);
    }
}

/// What is kept stands at its rank.
proof fn lemma_picked_at<T>(items: Seq<T>, keep: Seq<bool>, n: int, i: int)
    requires
        0 <= i < n,
        keep[i],
    ensures
        0 <= rank(keep, i) < picked(items, keep, n).len(),
        picked(items, keep, n)[rank(keep, i)] == items[i],
    decreases n,
{
    lemma_picked_len(items, keep, n - 1);
    lemma_picked_len(items, keep, i);
    if i < n - 1 {
        lemma_picked_at(items, keep, n - 1, i);
    }
}

/// Every rank is that of a position that is kept.
proof fn lemma_ranked(keep: Seq<bool>, n: int, v: int) -> (i: int)
    requires
        0 <= v < rank(keep, n),
    ensures
        0 <= i < n,
        keep[i],
        rank(keep, i) == v,
    decreases n,
{
    if keep[n - 1] && rank(keep, n - 1) == v {
        n - 1
    } else {
        lemma_ranked(keep, n - 1, v)
    }
}

/// Positions that are picked from a stable order are in range, kept and still in order.
proof fn lemma_picked_order(
    keys: Seq<usize>,
    descending: bool,
    perm: Seq<int>,
    keep: Seq<bool>,
    flags: Seq<bool>,
    n: int,
)
    requires
        is_stable_order(keys, descending, perm),
        keep.len() == keys.len(),
        flags == reordered(keep, perm),
        0 <= n <= perm.len(),
    ensures
        ({
            let q = picked(perm, flags, n);
            &&& forall|j: int|
                0 <= j < q.len() ==> 0 <= #[trigger] q[j] < keys.len() && keep[q[j]]
                    && perm.take(n).contains(q[j])
            &&& forall|j: int, k: int|
                0 <= j < k < q.len() ==> comes_before(
                    keys,
                    descending,
                    #[trigger] q[j],
                    #[trigger] q[k],
                )
            &&& forall|a: int| 0 <= a < n && keep[#[trigger] perm[a]] ==> q.contains(perm[a])
        }),
    decreases n,
{
    if n > 0 {
        lemma_picked_order(keys, descending, perm, keep, flags, n - 1);
        let before = picked(perm, flags, n - 1);
        let q = picked(perm, flags, n);
        let front = perm.take(n - 1);
        let last = perm[n - 1];
        assert(flags[n - 1] == keep[last]);
        assert forall|j: int| 0 <= j < q.len() implies 0 <= #[trigger] q[j] < keys.len()
            && keep[q[j]] && perm.take(n).contains(q[j]) by {
            if j < before.len() {
                assert(q[j] == before[j]);
                let a = choose|a: int| 0 <= a < front.len() && front[a] == before[j];
                assert(perm.take(n)[a] == q[j]);
            } else {
                assert(perm.take(n)[n - 1] == q[j]);
            }
        }
        assert forall|j: int, k: int| 0 <= j < k < q.len() implies comes_before(
            keys,
            descending,
            #[trigger] q[j],
            #[trigger] q[k],
        ) by {
            assert(q[j] == before[j]);
            if k < before.len() {
                assert(q[k] == before[k]);
            } else {
                let a = choose|a: int| 0 <= a < front.len() && front[a] == before[j];
                assert(perm[a] == q[j]);
                assert(comes_before(keys, descending, perm[a], perm[n - 1]));
            }
        }
        assert forall|a: int| 0 <= a < n && keep[#[trigger] perm[a]] implies q.contains(
            perm[a],
        ) by {
            if a < n - 1 {
                assert(before.contains(perm[a]));
                let j = choose|j: int| 0 <= j < before.len() && before[j] == perm[a];
                assert(q[j] == perm[a]);
            } else {
                assert(q[q.len() - 1] == perm[a]);
            }
        }
    }
}

/// Picking from what is reordered gives the items at the positions that are picked.
proof fn lemma_picked_items<T>(items: Seq<T>, perm: Seq<int>, flags: Seq<bool>, n: int)
    requires
        0 <= n <= perm.len(),
    ensures
        picked(reordered(items, perm), flags, n) == reordered(items, picked(perm, flags, n)),
    decreases n,
{
    if n > 0 {
        lemma_picked_items(items, perm, flags, n - 1);
        let before = picked(perm, flags, n - 1);
        assert(reordered(items, before.push(perm[n - 1])) =~= reordered(items, before).push(
            items[perm[n - 1]],
        ));
    } else {
        assert(reordered(items, Seq::empty()) =~= Seq::<T>::empty());
    }
}

/// Different numbers that are all those under `n` are `n` numbers.
proof fn lemma_all_under(s: Seq<int>, n: int)
    requires
        0 <= n,
        s.no_duplicates(),
        forall|i: int| 0 <= i < s.len() ==> 0 <= #[trigger] s[i] < n,
        forall|v: int| 0 <= v < n ==> #[trigger] s.contains(v),
    ensures
        s.len() == n,
{
    s.unique_seq_to_set();
    vstd::set_lib::lemma_int_range(0, n);
    assert(s.to_set() =~= vstd::set_lib::set_int_range(0, n));
}

/// Sorting and then picking is picking and then sorting: what is picked keeps its order.
pub proof fn law_sorting_keeps_a_selection<T>(
    items: Seq<T>,
    keys: Seq<usize>,
    descending: bool,
    sorted: Seq<T>,
    chosen: spec_fn(T) -> bool,
)
    requires
        keys.len() == items.len(),
        stably_sorted(items, keys, descending, sorted),
    ensures
        stably_sorted(
            picked(items, items.map_values(chosen), items.len() as int),
            picked(keys, items.map_values(chosen), keys.len() as int),
            descending,
            picked(sorted, sorted.map_values(chosen), sorted.len() as int),
        ),
{
    let n = items.len() as int;
    let keep = items.map_values(chosen);
    let flags = sorted.map_values(chosen);
    let perm = choose|perm: Seq<int>| #[trigger]
        is_stable_order(keys, descending, perm) && sorted == reordered(items, perm);
    assert(flags =~= reordered(keep, perm));
    let few = picked(items, keep, n);
    let few_keys = picked(keys, keep, n);
    let q = picked(perm, flags, n);
    let order = q.map_values(|p: int| rank(keep, p));
    lemma_picked_order(keys, descending, perm, keep, flags, n);
    lemma_picked_items(items, perm, flags, n);
    lemma_picked_len(items, keep, n);
    lemma_picked_len(keys, keep, n);
    assert forall|i: int| 0 <= i < order.len() implies 0 <= #[trigger] order[i] < few.len() by {
        assert(0 <= q[i] < keys.len() && keep[q[i]]);
        lemma_picked_at(items, keep, n, q[i]);
    }
    assert forall|i: int, j: int| 0 <= i < j < order.len() implies comes_before(
        few_keys,
        descending,
        #[trigger] order[i],
        #[trigger] order[j],
    ) by {
        assert(comes_before(keys, descending, q[i], q[j]));
        lemma_picked_at(keys, keep, n, q[i]);
        lemma_picked_at(keys, keep, n, q[j]);
        if q[i] < q[j] {
            lemma_rank_rises(keep, q[i], q[j]);
        }
    }
    assert forall|v: int| 0 <= v < few.len() implies #[trigger] order.contains(v) by {
        let i = lemma_ranked(keep, n, v);
        assert(perm.contains(i));
        let a = choose|a: int| 0 <= a < perm.len() && perm[a] == i;
        assert(q.contains(perm[a]));
        let j = choose|j: int| 0 <= j < q.len() && q[j] == i;
        assert(order[j] == v);
    }
    assert(order.no_duplicates()) by {
        assert forall|i: int, j: int|
            0 <= i < order.len() && 0 <= j < order.len() && i != j implies order[i] != order[j] by {
            if i < j {
                assert(comes_before(few_keys, descending, order[i], order[j]));
            } else {
                assert(comes_before(few_keys, descending, order[j], order[i]));
            }
        }
    }
    lemma_all_under(order, few.len() as int);
    assert(is_stable_order(few_keys, descending, order));
    assert(picked(sorted, flags, n) =~= reordered(few, order)) by {
        assert forall|j: int| 0 <= j < q.len() implies items[#[trigger] q[j]] == few[order[j]] by {
            lemma_picked_at(items, keep, n, q[j]);
        }
    }
}

/// Sorts `items` by `keys`, keeping the order of items with equal keys.
pub fn stable_sort<T>(items: Vec<T>, keys: &Vec<usize>, descending: bool) -> (sorted: Vec<T>)
    requires
        keys@.len() == items@.len(),
    ensures
        stably_sorted(items@, keys@, descending, sorted@),
{
    let ghost given = items@;
    let mut sorted = items;
    let mut done: Vec<usize> = Vec::new();
    let ghost mut perm: Seq<int> = Seq::empty();
    let mut i: usize = 0;
    while i < keys.len()
        invariant
            keys@.len() == given.len(),
            i <= keys@.len(),
            sorted@.len() == given.len(),
            done@.len() == i,
            perm.len() == i,
            forall|k: int| 0 <= k < i ==> 0 <= #[trigger] perm[k] < i,
            forall|k: int| 0 <= k < i ==> #[trigger] done@[k] == keys@[perm[k]],
            forall|k: int| 0 <= k < i ==> #[trigger] sorted@[k] == given[perm[k]],
            forall|k: int| i <= k < given.len() ==> #[trigger] sorted@[k] == given[k],
            forall|v: int| 0 <= v < i ==> #[trigger] perm.contains(v),
            forall|k: int, l: int|
                0 <= k < l < i ==> comes_before(
                    keys@,
                    descending,
                    #[trigger] perm[k],
                    #[trigger] perm[l],
                ),
        decreases keys.len() - i,
    {
        let key = keys[i];
        let mut at: usize = i;
        while at > 0 && ((descending && done[at - 1] < key) || (!descending && done[at - 1] > key))
            invariant
                at <= i,
                i < keys@.len(),
                done@.len() == i,
                perm.len() == i,
                key == keys@[i as int],
                forall|k: int| 0 <= k < i ==> 0 <= #[trigger] perm[k] < i,
                forall|k: int| 0 <= k < i ==> #[trigger] done@[k] == keys@[perm[k]],
                forall|k: int|
                    at <= k < i ==> comes_before(
                        keys@,
                        descending,
                        i as int,
                        #[trigger] perm[k],
                    ),
            decreases at,
        {
            assert(done@[at - 1] == keys@[perm[at - 1]]);
            at = at - 1;
        }
        let ghost before = sorted@;
        let ghost before_perm = perm;
        let ghost before_done = done@;
        let item = sorted.remove(i);
        sorted.insert(at, item);
        done.insert(at, key);
        proof {
            perm = perm.insert(at as int, i as int);
            assert forall|k: int, l: int| 0 <= k < l < i + 1 implies comes_before(
                keys@,
                descending,
                #[trigger] perm[k],
                #[trigger] perm[l],
            ) by {
                if k < at && l == at {
                    assert(perm[k] == before_perm[k]);
                    assert(before_done[k] == keys@[before_perm[k]]);
                    assert(before_done[at - 1] == keys@[before_perm[at - 1]]);
                    if k < at - 1 {
                        assert(comes_before(
                            keys@,
                            descending,
                            before_perm[k],
                            before_perm[at - 1],
                        ));
                    }
                } else if k == at {
                    assert(perm[l] == before_perm[l - 1]);
                } else {
                    let a = if k < at {
                        k
                    } else {
                        k - 1
                    };
                    let b = if l < at {
                        l
                    } else {
                        l - 1
                    };
                    assert(perm[k] == before_perm[a]);
                    assert(perm[l] == before_perm[b]);
                    assert(comes_before(keys@, descending, before_perm[a], before_perm[b]));
                }
            }
            assert forall|v: int| 0 <= v < i + 1 implies #[trigger] perm.contains(v) by {
                if v == i {
                    assert(perm[at as int] == v);
                } else {
                    assert(before_perm.contains(v));
                    let k = choose|k: int| 0 <= k < before_perm.len() && before_perm[k] == v;
                    if k < at {
                        assert(perm[k] == v);
                    } else {
                        assert(perm[k + 1] == v);
                    }
                }
            }
            assert forall|k: int| 0 <= k < i + 1 implies #[trigger] sorted@[k] == given[perm[k]] by {
                if k < at {
                    assert(sorted@[k] == before[k]);
                } else if k > at {
                    assert(sorted@[k] == before[k - 1]);
                    assert(perm[k] == before_perm[k - 1]);
                }
            }
            assert forall|k: int| i + 1 <= k < given.len() implies #[trigger] sorted@[k]
                == given[k] by {
                assert(sorted@[k] == before[k]);
            }
            assert forall|k: int| 0 <= k < i + 1 implies #[trigger] done@[k] == keys@[perm[k]] by {
                if k < at {
                    assert(done@[k] == before_done[k]);
                } else if k > at {
                    assert(done@[k] == before_done[k - 1]);
                    assert(perm[k] == before_perm[k - 1]);
                }
            }
        }
        i = i + 1;
    }
    proof {
        assert(is_stable_order(keys@, descending, perm));
        assert(sorted@ =~= reordered(given, perm));
    }
    sorted
}

/// The items in reverse order, so that they can be taken from the end one by one.
pub fn reverse<T>(items: Vec<T>) -> (reversed: Vec<T>)
    ensures
        reversed@ == items@.reverse(),
{
    let ghost given = items@;
    let mut rest = items;
    let mut reversed: Vec<T> = Vec::new();
    while rest.len() > 0
        invariant
            given.len() == rest@.len() + reversed@.len(),
            forall|i: int| 0 <= i < rest@.len() ==> #[trigger] rest@[i] == given[i],
            forall|i: int|
                0 <= i < reversed@.len() ==> #[trigger] reversed@[i] == given[given.len() - 1 - i],
        decreases rest.len(),
    {
        match rest.pop() {
            Some(item) => {
                reversed.push(item);
            }
            None => {}
        }
    }
    assert(reversed@ =~= given.reverse());
    reversed
}

} // verus!
