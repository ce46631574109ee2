//! What the equality of JSON values is for.

use crate::dag_laws::part;
use crate::derived_laws::at_path;
use crate::json::{is_zero, same_json, JsonView, NumberView};
use vstd::prelude::*;

verus! {

/// That two values are of one kind and agree in what they hold themselves: a string, a truth value
/// or a number, where zero is zero whatever its sign; the keys of an object; the length of a list.
pub open spec fn agree_here(a: JsonView, b: JsonView) -> bool {
    match (a, b) {
        (JsonView::Null, JsonView::Null) => true,
        (JsonView::Bool(x), JsonView::Bool(y)) => x == y,
        (JsonView::String(x), JsonView::String(y)) => x == y,
        (JsonView::Number(x), JsonView::Number(y)) => x == y || (x is Float && y is Float && is_zero(
            x->Float_0,
        ) && is_zero(y->Float_0)),
        (JsonView::Array(x), JsonView::Array(y)) => x.len() == y.len(),
        (JsonView::Object(x), JsonView::Object(y)) => x.len() == y.len() && forall|i: int|
            0 <= i < x.len() ==> (#[trigger] x[i]).0 == y[i].0,
        _ => false,
    }
}

/// That two values agree at the end of a path.
pub open spec fn agree_at(a: JsonView, b: JsonView, path: Seq<int>) -> bool {
    match (at_path(a, path), at_path(b, path)) {
        (Some(x), Some(y)) => agree_here(x, y),
        (None, None) => true,
        _ => false,
    }
}

/// Equal values agree at the end of every path.
pub proof fn law_equal_values_agree_everywhere(a: JsonView, b: JsonView, path: Seq<int>)
    requires
        same_json(a, b),
    ensures
        agree_at(a, b, path),
    decreases path.len(),
{
    if path.len() > 0 {
        let i = path[0];
        match (a, b) {
            (JsonView::Array(x), JsonView::Array(y)) => {
                if 0 <= i < x.len() {
                    assert(same_json(x[i], y[i]));
                    law_equal_values_agree_everywhere(x[i], y[i], path.drop_first());
                }
            },
            (JsonView::Object(x), JsonView::Object(y)) => {
                if 0 <= i < x.len() {
                    assert(x[i].0 == y[i].0);
                    law_equal_values_agree_everywhere(x[i].1, y[i].1, path.drop_first());
                }
            },
            _ => {},
        }
    }
}

/// Values that agree at the end of every path are equal.
pub proof fn law_values_that_agree_are_equal(a: JsonView, b: JsonView)
    requires
        forall|path: Seq<int>| #[trigger] agree_at(a, b, path),
    ensures
        same_json(a, b),
    decreases a,
{
    assert(agree_at(a, b, Seq::empty()));
    match (a, b) {
        (JsonView::Array(x), JsonView::Array(y)) => {
            assert forall|i: int| 0 <= i < x.len() implies same_json(#[trigger] x[i], y[i]) by {
                assert forall|path: Seq<int>| #[trigger] agree_at(x[i], y[i], path) by {
                    lemma_agree_under(a, b, i, path);
                }
                law_values_that_agree_are_equal(x[i], y[i]);
            }
        },
        (JsonView::Object(x), JsonView::Object(y)) => {
            assert forall|i: int| 0 <= i < x.len() implies (#[trigger] x[i]).0 == y[i].0
                && same_json(x[i].1, y[i].1) by {
                assert forall|path: Seq<int>| #[trigger] agree_at(x[i].1, y[i].1, path) by {
                    lemma_agree_under(a, b, i, path);
                }
                law_values_that_agree_are_equal(x[i].1, y[i].1);
            }
        },
        _ => {},
    }
}

proof fn lemma_agree_under(a: JsonView, b: JsonView, i: int, path: Seq<int>)
    requires
        forall|path: Seq<int>| #[trigger] agree_at(a, b, path),
        part(a, i) is Some,
        part(b, i) is Some,
    ensures
        agree_at(part(a, i)->0, part(b, i)->0, path),
{
    let longer = seq![i] + path;
    assert(longer.drop_first() =~= path);
    assert(agree_at(a, b, longer));
}

/// The two notations of zero with a fraction are equal; numbers of different notations are not.
pub proof fn law_zero_has_two_notations(a: Seq<char>, b: Seq<char>)
    ensures
        same_json(
            JsonView::Number(NumberView::Float(a)),
            JsonView::Number(NumberView::Float(b)),
        ) <==> a == b || ((a == "0.0"@ || a == "-0.0"@) && (b == "0.0"@ || b == "-0.0"@)),
{
}

} // verus!
