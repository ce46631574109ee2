//! What stable sorting is for.

use crate::order::{comes_before, is_stable_order, reordered, stably_sorted};
use vstd::prelude::*;

verus! {

/// Sorting puts items in the order of their keys, and keeps items of equal keys in the order in
/// which they stood: of two items, the one that has to come first does.
pub proof fn law_sorting_orders_by_key_and_keeps_ties<T>(
    items: Seq<T>,
    keys: Seq<usize>,
    descending: bool,
    sorted: Seq<T>,
    i: int,
    j: int,
)
    requires
        stably_sorted(items, keys, descending, sorted),
        items.len() == keys.len(),
        0 <= i < items.len(),
        0 <= j < items.len(),
        (keys[i] == keys[j] && i < j) || (descending && keys[i] > keys[j]) || (!descending && keys[i]
            < keys[j]),
    ensures
        sorted.len() == items.len(),
        exists|p: int, q: int|
            0 <= p < q < sorted.len() && #[trigger] sorted[p] == items[i] && #[trigger] sorted[q]
                == items[j],
{
    let perm = choose|perm: Seq<int>| #[trigger]
        is_stable_order(keys, descending, perm) && sorted == reordered(items, perm);
    assert(perm.contains(i) && perm.contains(j));
    let p = choose|p: int| 0 <= p < perm.len() && perm[p] == i;
    let q = choose|q: int| 0 <= q < perm.len() && perm[q] == j;
    if q < p {
        assert(comes_before(keys, descending, perm[q], perm[p]));
    }
    assert(sorted[p] == items[i] && sorted[q] == items[j]);
}

/// Sorting neither loses nor repeats an item: there is one place in the sorted items for each
/// place in the items.
pub proof fn law_sorting_keeps_every_item<T>(
    items: Seq<T>,
    keys: Seq<usize>,
    descending: bool,
    sorted: Seq<T>,
) -> (places: Seq<int>)
    requires
        stably_sorted(items, keys, descending, sorted),
        items.len() == keys.len(),
    ensures
        places.len() == items.len(),
        sorted.len() == items.len(),
        forall|p: int|
            0 <= p < places.len() ==> 0 <= #[trigger] places[p] < items.len() && sorted[p]
                == items[places[p]],
        forall|p: int, q: int|
            0 <= p < q < places.len() ==> #[trigger] places[p] != #[trigger] places[q],
{
    let perm = choose|perm: Seq<int>| #[trigger]
        is_stable_order(keys, descending, perm) && sorted == reordered(items, perm);
    assert forall|p: int, q: int| 0 <= p < q < perm.len() implies #[trigger] perm[p]
        != #[trigger] perm[q] by {
        assert(comes_before(keys, descending, perm[p], perm[q]));
    }
    perm
}

} // verus!
