//! Views of sequences, options and results, element by element.

use vstd::prelude::*;

verus! {

/// The view of each item.
pub open spec fn views<T: View>(items: Seq<T>) -> Seq<T::V> {
    items.map_values(|item: T| item@)
}

/// The view of what an option holds.
pub open spec fn option_view<T: View>(option: Option<T>) -> Option<T::V> {
    match option {
        Some(value) => Some(value@),
        None => None,
    }
}

/// The view of what a result holds.
pub open spec fn result_view<T: View, E: View>(result: Result<T, E>) -> Result<T::V, E::V> {
    match result {
        Ok(value) => Ok(value@),
        Err(error) => Err(error@),
    }
}

/// The views after a push.
pub proof fn lemma_views_push<T: View>(items: Seq<T>, item: T)
    ensures
        views(items.push(item)) == views(items).push(item@),
{
    assert(views(items.push(item)) =~= views(items).push(item@));
}

/// The views of a concatenation.
pub proof fn lemma_views_add<T: View>(left: Seq<T>, right: Seq<T>)
    ensures
        views(left + right) == views(left) + views(right),
{
    assert(views(left + right) =~= views(left) + views(right));
}

} // verus!
