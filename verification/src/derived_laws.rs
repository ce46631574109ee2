//! What the resolution of `derived-from` nodes is for, over the JSON that holds them.

use crate::dag_laws::{is_failure_of, may_fail, part};
use crate::derived::{
    derived_expression, derived_inputs, expression_given, full_expression, input_given, is_outcome,
    items_settle, members_settle, node_settles, safe_path, tree_settles, DerivedFromErrorView,
    MK_HELPERS,
};
use crate::jq::{may_answer, JqFailureView};
use crate::json::{member, member_text, members, JsonView};
use crate::strmap::{ascending, lemma_put_last, put};
use crate::text::text_lt;
use vstd::prelude::*;

verus! {

/// That `path`, an input of a `derived-from` node, evaluates to `value`, where a failure on the
/// way counts as null.
pub open spec fn gives(path: Seq<char>, crystalized: JsonView, value: JsonView) -> bool {
    let text = "try ("@ + path + ") catch null"@;
    forall|answer: Result<JsonView, JqFailureView>| #[trigger]
        may_answer(text, text, crystalized, answer) ==> answer == Ok::<JsonView, JqFailureView>(
            value,
        )
}

/// That the evaluation of `path` fails even so.
pub open spec fn gives_no_value(path: Seq<char>, crystalized: JsonView) -> bool {
    let text = "try ("@ + path + ") catch null"@;
    forall|answer: Result<JsonView, JqFailureView>| #[trigger]
        may_answer(text, text, crystalized, answer) ==> answer is Err
}

/// That `node` is a `derived-from` node with the given inputs, paths by alias; none where it has
/// no object of inputs.
pub open spec fn derives_from(node: JsonView, inputs: Seq<(Seq<char>, JsonView)>) -> bool {
    &&& member_text(node, "__nixhapi"@) == Some("derived-from"@)
    &&& match member(node, "inputs"@) {
        Some(JsonView::Object(entries)) => inputs == entries,
        _ => inputs.len() == 0,
    }
    &&& ascending(inputs)
    &&& forall|k: int| 0 <= k < inputs.len() ==> (#[trigger] inputs[k]).1 is String
}

/// What the aliases of the inputs stand for in the expression, by the values of their paths.
pub open spec fn values_by_alias(
    inputs: Seq<(Seq<char>, JsonView)>,
    values: Seq<JsonView>,
) -> Seq<(Seq<char>, JsonView)> {
    Seq::new(values.len(), |k: int| (inputs[k].0, values[k]))
}

/// What may come of a `derived-from` node, by way of the walk.
spec fn found_of(
    node: JsonView,
    crystalized: JsonView,
    outcome: Result<JsonView, DerivedFromErrorView>,
) -> Result<Option<JsonView>, DerivedFromErrorView> {
    choose|found: Result<Option<JsonView>, DerivedFromErrorView>| #[trigger]
        node_settles(
            derived_inputs(node),
            0,
            derived_expression(node),
            crystalized,
            Seq::empty(),
            found,
        ) && outcome == match found {
            Ok(Some(value)) => Ok(value),
            Ok(None) => Ok(node),
            Err(error) => Err(error),
        }
}

/// The inputs that are read are those that stand in the node.
proof fn lemma_inputs_read(node: JsonView, inputs: Seq<(Seq<char>, JsonView)>)
    requires
        derives_from(node, inputs),
    ensures
        derived_inputs(node).len() == inputs.len(),
        forall|k: int|
            0 <= k < inputs.len() ==> #[trigger] derived_inputs(node)[k] == (
                inputs[k].0,
                inputs[k].1->String_0,
            ),
{
}

/// After the first inputs gave values, those of the rest are still to come.
proof fn lemma_inputs_given(
    inputs: Seq<(Seq<char>, JsonView)>,
    read: Seq<(Seq<char>, Seq<char>)>,
    i: int,
    n: int,
    expression: Seq<char>,
    crystalized: JsonView,
    values: Seq<JsonView>,
    outcome: Result<Option<JsonView>, DerivedFromErrorView>,
)
    requires
        0 <= i <= n <= inputs.len(),
        n == values.len(),
        ascending(inputs),
        read.len() == inputs.len(),
        forall|k: int|
            0 <= k < inputs.len() ==> #[trigger] read[k] == (inputs[k].0, inputs[k].1->String_0),
        forall|k: int|
            0 <= k < n ==> gives(inputs[k].1->String_0, crystalized, #[trigger] values[k])
                && values[k] !is Null,
        node_settles(
            read,
            i,
            expression,
            crystalized,
            values_by_alias(inputs, values.take(i)),
            outcome,
        ),
    ensures
        node_settles(
            read,
            n,
            expression,
            crystalized,
            values_by_alias(inputs, values),
            outcome,
        ),
    decreases n - i,
{
    if i == n {
        assert(values.take(i) =~= values);
    } else {
        let given = values_by_alias(inputs, values.take(i));
        let (alias, path) = read[i];
        let answer = choose|answer: Result<JsonView, JqFailureView>| #[trigger]
            may_answer(safe_path(path), safe_path(path), crystalized, answer) && match input_given(
                path,
                answer,
            ) {
                Err(error) => outcome == Err::<Option<JsonView>, DerivedFromErrorView>(error),
                Ok(None) => outcome == Ok::<Option<JsonView>, DerivedFromErrorView>(None),
                Ok(Some(value)) => node_settles(
                    read,
                    i + 1,
                    expression,
                    crystalized,
                    put(given, alias, value),
                    outcome,
                ),
            };
        assert(gives(inputs[i].1->String_0, crystalized, values[i]));
        assert(answer == Ok::<JsonView, JqFailureView>(values[i]));
        assert forall|k: int| 0 <= k < given.len() implies text_lt((#[trigger] given[k]).0, alias) by {
            assert(text_lt(inputs[k].0, inputs[i].0));
        }
        lemma_put_last(given, alias, values[i]);
        assert(put(given, alias, values[i]) =~= values_by_alias(inputs, values.take(i + 1)));
        lemma_inputs_given(inputs, read, i + 1, n, expression, crystalized, values, outcome);
    }
}

/// A `derived-from` node whose inputs all evaluate to something other than null is not left in
/// place: it comes out as what its expression, with the helper functions before it, gives for
/// the object of exactly these values by alias, and fails where that evaluation fails.
pub proof fn law_available_inputs_resolve_the_node(
    node: JsonView,
    inputs: Seq<(Seq<char>, JsonView)>,
    expression: Seq<char>,
    values: Seq<JsonView>,
    crystalized: JsonView,
    outcome: Result<JsonView, DerivedFromErrorView>,
)
    requires
        derives_from(node, inputs),
        member_text(node, "expression"@) == Some(expression) || (member_text(node, "expression"@)
            is None && expression.len() == 0),
        values.len() == inputs.len(),
        forall|k: int|
            0 <= k < inputs.len() ==> gives(
                inputs[k].1->String_0,
                crystalized,
                #[trigger] values[k],
            ) && values[k] !is Null,
        tree_settles(node, crystalized, outcome),
    ensures
        exists|answer: Result<JsonView, JqFailureView>| #[trigger]
            may_answer(
                MK_HELPERS@ + "\n"@ + expression,
                expression,
                JsonView::Object(values_by_alias(inputs, values)),
                answer,
            ) && match answer {
                Ok(value) => outcome == Ok::<JsonView, DerivedFromErrorView>(value),
                Err(failure) => outcome is Err && outcome->Err_0 is ExpressionEval
                    && outcome->Err_0->ExpressionEval_expression == expression && is_failure_of(
                    outcome->Err_0->ExpressionEval_source,
                    "(derived-from)"@,
                    MK_HELPERS@ + "\n"@ + expression,
                    failure,
                ),
            },
{
    let found = found_of(node, crystalized, outcome);
    let read = derived_inputs(node);
    assert(expression =~= derived_expression(node));
    lemma_inputs_read(node, inputs);
    assert(values.take(0) =~= Seq::empty());
    assert(values_by_alias(inputs, values.take(0)) =~= Seq::empty());
    lemma_inputs_given(
        inputs,
        read,
        0,
        inputs.len() as int,
        expression,
        crystalized,
        values,
        found,
    );
    let answer = choose|answer: Result<JsonView, JqFailureView>| #[trigger]
        may_answer(
            full_expression(expression),
            expression,
            JsonView::Object(values_by_alias(inputs, values)),
            answer,
        ) && found == match expression_given(expression, answer) {
            Ok(value) => Ok(Some(value)),
            Err(error) => Err(error),
        };
    assert(full_expression(expression) =~= MK_HELPERS@ + "\n"@ + expression);
    assert(may_answer(
        MK_HELPERS@ + "\n"@ + expression,
        expression,
        JsonView::Object(values_by_alias(inputs, values)),
        answer,
    ));
}

/// Inputs of which any is no path count for nothing: the node comes out as what its expression
/// gives for the empty object.
pub proof fn law_inputs_without_paths_count_for_nothing(
    node: JsonView,
    inputs: Seq<(Seq<char>, JsonView)>,
    expression: Seq<char>,
    i: int,
    crystalized: JsonView,
    outcome: Result<JsonView, DerivedFromErrorView>,
)
    requires
        member_text(node, "__nixhapi"@) == Some("derived-from"@),
        member(node, "inputs"@) == Some(JsonView::Object(inputs)),
        0 <= i < inputs.len(),
        !(inputs[i].1 is String),
        member_text(node, "expression"@) == Some(expression),
        tree_settles(node, crystalized, outcome),
    ensures
        exists|answer: Result<JsonView, JqFailureView>| #[trigger]
            may_answer(
                MK_HELPERS@ + "\n"@ + expression,
                expression,
                JsonView::Object(Seq::empty()),
                answer,
            ) && match answer {
                Ok(value) => outcome == Ok::<JsonView, DerivedFromErrorView>(value),
                Err(_) => outcome is Err && outcome->Err_0 is ExpressionEval,
            },
{
    let found = found_of(node, crystalized, outcome);
    assert(!(members(JsonView::Object(inputs))[i].1 is String));
    assert(derived_inputs(node).len() == 0);
    assert(node_settles(derived_inputs(node), 0, expression, crystalized, Seq::empty(), found));
    let answer = choose|answer: Result<JsonView, JqFailureView>| #[trigger]
        may_answer(
            full_expression(expression),
            expression,
            JsonView::Object(Seq::empty()),
            answer,
        ) && found == match expression_given(expression, answer) {
            Ok(value) => Ok(Some(value)),
            Err(error) => Err(error),
        };
    assert(full_expression(expression) =~= MK_HELPERS@ + "\n"@ + expression);
    assert(may_answer(
        MK_HELPERS@ + "\n"@ + expression,
        expression,
        JsonView::Object(Seq::empty()),
        answer,
    ));
}

/// A `derived-from` node one of whose inputs evaluates to null, after those before it evaluated to
/// something else, stays as it is.
pub proof fn law_null_input_leaves_the_node(
    node: JsonView,
    inputs: Seq<(Seq<char>, JsonView)>,
    values: Seq<JsonView>,
    crystalized: JsonView,
    outcome: Result<JsonView, DerivedFromErrorView>,
)
    requires
        derives_from(node, inputs),
        values.len() < inputs.len(),
        forall|k: int|
            0 <= k < values.len() ==> gives(
                inputs[k].1->String_0,
                crystalized,
                #[trigger] values[k],
            ) && values[k] !is Null,
        gives(inputs[values.len() as int].1->String_0, crystalized, JsonView::Null),
        tree_settles(node, crystalized, outcome),
    ensures
        outcome == Ok::<JsonView, DerivedFromErrorView>(node),
{
    let found = found_of(node, crystalized, outcome);
    let read = derived_inputs(node);
    let expression = derived_expression(node);
    let n = values.len() as int;
    lemma_inputs_read(node, inputs);
    assert(values.take(0) =~= Seq::empty());
    assert(values_by_alias(inputs, values.take(0)) =~= Seq::empty());
    lemma_inputs_given(inputs, read, 0, n, expression, crystalized, values, found);
    let (alias, path) = read[n];
    assert(path == inputs[n].1->String_0);
}

/// A `derived-from` node one of whose inputs cannot be evaluated, after those before it evaluated
/// to something other than null, fails with an error that names the path of that input.
pub proof fn law_failing_input_fails_the_node(
    node: JsonView,
    inputs: Seq<(Seq<char>, JsonView)>,
    values: Seq<JsonView>,
    crystalized: JsonView,
    outcome: Result<JsonView, DerivedFromErrorView>,
)
    requires
        derives_from(node, inputs),
        values.len() < inputs.len(),
        forall|k: int|
            0 <= k < values.len() ==> gives(
                inputs[k].1->String_0,
                crystalized,
                #[trigger] values[k],
            ) && values[k] !is Null,
        gives_no_value(inputs[values.len() as int].1->String_0, crystalized),
        tree_settles(node, crystalized, outcome),
    ensures
        outcome is Err,
        outcome->Err_0 is InputPathEval,
        outcome->Err_0->InputPathEval_path == inputs[values.len() as int].1->String_0,
        exists|failure: JqFailureView| #[trigger]
            may_fail(
                crystalized,
                "try ("@ + inputs[values.len() as int].1->String_0 + ") catch null"@,
                failure,
            ) && is_failure_of(
                outcome->Err_0->InputPathEval_source,
                "(derived-from)"@,
                "try ("@ + inputs[values.len() as int].1->String_0 + ") catch null"@,
                failure,
            ),
{
    let found = found_of(node, crystalized, outcome);
    let read = derived_inputs(node);
    let expression = derived_expression(node);
    let n = values.len() as int;
    lemma_inputs_read(node, inputs);
    assert(values.take(0) =~= Seq::empty());
    assert(values_by_alias(inputs, values.take(0)) =~= Seq::empty());
    lemma_inputs_given(inputs, read, 0, n, expression, crystalized, values, found);
    let (alias, path) = read[n];
    assert(path == inputs[n].1->String_0);
    let given = values_by_alias(inputs, values);
    let answer = choose|answer: Result<JsonView, JqFailureView>| #[trigger]
        may_answer(safe_path(path), safe_path(path), crystalized, answer) && match input_given(
            path,
            answer,
        ) {
            Err(error) => found == Err::<Option<JsonView>, DerivedFromErrorView>(error),
            Ok(None) => found == Ok::<Option<JsonView>, DerivedFromErrorView>(None),
            Ok(Some(value)) => node_settles(
                read,
                n + 1,
                expression,
                crystalized,
                put(given, alias, value),
                found,
            ),
        };
    assert(may_fail(crystalized, "try ("@ + path + ") catch null"@, answer->Err_0));
}

/// An object that is no field value keeps its keys, and each of its members comes out as it would
/// by itself; an error is that of a member.
pub proof fn law_objects_are_resolved_member_by_member(
    entries: Seq<(Seq<char>, JsonView)>,
    crystalized: JsonView,
    outcome: Result<JsonView, DerivedFromErrorView>,
)
    requires
        member_text(JsonView::Object(entries), "__nixhapi"@) is None,
        tree_settles(JsonView::Object(entries), crystalized, outcome),
    ensures
        match outcome {
            Ok(value) => value is Object && value->Object_0.len() == entries.len() && forall|k: int|
                0 <= k < entries.len() ==> (#[trigger] value->Object_0[k]).0 == entries[k].0
                    && tree_settles(
                    entries[k].1,
                    crystalized,
                    Ok::<JsonView, DerivedFromErrorView>(value->Object_0[k].1),
                ),
            Err(error) => exists|k: int|
                0 <= k < entries.len() && tree_settles(
                    (#[trigger] entries[k]).1,
                    crystalized,
                    Err::<JsonView, DerivedFromErrorView>(error),
                ),
        },
{
    lemma_members_resolved(entries, 0, crystalized, Seq::empty(), outcome);
}

proof fn lemma_members_resolved(
    entries: Seq<(Seq<char>, JsonView)>,
    i: nat,
    crystalized: JsonView,
    done: Seq<(Seq<char>, JsonView)>,
    outcome: Result<JsonView, DerivedFromErrorView>,
)
    requires
        done.len() == i <= entries.len(),
        forall|k: int|
            0 <= k < i ==> (#[trigger] done[k]).0 == entries[k].0 && tree_settles(
                entries[k].1,
                crystalized,
                Ok::<JsonView, DerivedFromErrorView>(done[k].1),
            ),
        members_settle(entries, i, crystalized, done, outcome),
    ensures
        match outcome {
            Ok(value) => value is Object && value->Object_0.len() == entries.len() && forall|k: int|
                0 <= k < entries.len() ==> (#[trigger] value->Object_0[k]).0 == entries[k].0
                    && tree_settles(
                    entries[k].1,
                    crystalized,
                    Ok::<JsonView, DerivedFromErrorView>(value->Object_0[k].1),
                ),
            Err(error) => exists|k: int|
                0 <= k < entries.len() && tree_settles(
                    (#[trigger] entries[k]).1,
                    crystalized,
                    Err::<JsonView, DerivedFromErrorView>(error),
                ),
        },
    decreases entries.len() - i,
{
    if i < entries.len() {
        let (key, child) = entries[i as int];
        let item = choose|item: Result<JsonView, DerivedFromErrorView>| #[trigger]
            is_outcome(item) && tree_settles(child, crystalized, item) && match item {
                Err(error) => outcome == Err::<JsonView, DerivedFromErrorView>(error),
                Ok(value) => members_settle(
                    entries,
                    i + 1,
                    crystalized,
                    done.push((key, value)),
                    outcome,
                ),
            };
        match item {
            Err(_) => {
                assert(tree_settles(entries[i as int].1, crystalized, item));
            },
            Ok(value) => {
                lemma_members_resolved(
                    entries,
                    i + 1,
                    crystalized,
                    done.push((key, value)),
                    outcome,
                );
            },
        }
    }
}

/// A list keeps its length, and each of its items comes out as it would by itself; an error is
/// that of an item.
pub proof fn law_lists_are_resolved_item_by_item(
    items: Seq<JsonView>,
    crystalized: JsonView,
    outcome: Result<JsonView, DerivedFromErrorView>,
)
    requires
        tree_settles(JsonView::Array(items), crystalized, outcome),
    ensures
        match outcome {
            Ok(value) => value is Array && value->Array_0.len() == items.len() && forall|k: int|
                0 <= k < items.len() ==> tree_settles(
                    items[k],
                    crystalized,
                    Ok::<JsonView, DerivedFromErrorView>(#[trigger] value->Array_0[k]),
                ),
            Err(error) => exists|k: int|
                0 <= k < items.len() && tree_settles(
                    #[trigger] items[k],
                    crystalized,
                    Err::<JsonView, DerivedFromErrorView>(error),
                ),
        },
{
    lemma_items_resolved(items, 0, crystalized, Seq::empty(), outcome);
}

proof fn lemma_items_resolved(
    items: Seq<JsonView>,
    i: nat,
    crystalized: JsonView,
    done: Seq<JsonView>,
    outcome: Result<JsonView, DerivedFromErrorView>,
)
    requires
        done.len() == i <= items.len(),
        forall|k: int|
            0 <= k < i ==> tree_settles(
                items[k],
                crystalized,
                Ok::<JsonView, DerivedFromErrorView>(#[trigger] done[k]),
            ),
        items_settle(items, i, crystalized, done, outcome),
    ensures
        match outcome {
            Ok(value) => value is Array && value->Array_0.len() == items.len() && forall|k: int|
                0 <= k < items.len() ==> tree_settles(
                    items[k],
                    crystalized,
                    Ok::<JsonView, DerivedFromErrorView>(#[trigger] value->Array_0[k]),
                ),
            Err(error) => exists|k: int|
                0 <= k < items.len() && tree_settles(
                    #[trigger] items[k],
                    crystalized,
                    Err::<JsonView, DerivedFromErrorView>(error),
                ),
        },
    decreases items.len() - i,
{
    if i < items.len() {
        let item = choose|item: Result<JsonView, DerivedFromErrorView>| #[trigger]
            is_outcome(item) && tree_settles(items[i as int], crystalized, item) && match item {
                Err(error) => outcome == Err::<JsonView, DerivedFromErrorView>(error),
                Ok(value) => items_settle(items, i + 1, crystalized, done.push(value), outcome),
            };
        match item {
            Err(_) => {
                assert(tree_settles(items[i as int], crystalized, item));
            },
            Ok(value) => {
                lemma_items_resolved(items, i + 1, crystalized, done.push(value), outcome);
            },
        }
    }
}

/// What stands in a tree at the end of a path.
pub open spec fn at_path(tree: JsonView, path: Seq<int>) -> Option<JsonView>
    decreases path.len(),
{
    if path.len() == 0 {
        Some(tree)
    } else {
        match part(tree, path[0]) {
            Some(inner) => at_path(inner, path.drop_first()),
            None => None,
        }
    }
}

/// That no field value stands above the end of the path.
pub open spec fn free_path(tree: JsonView, path: Seq<int>) -> bool
    decreases path.len(),
{
    path.len() == 0 || (member_text(tree, "__nixhapi"@) is None && part(tree, path[0]) is Some
        && free_path(part(tree, path[0])->0, path.drop_first()))
}

/// Every node of a tree that is not under a field value comes out in its place, as it would by
/// itself.
pub proof fn law_every_node_is_resolved_in_place(
    tree: JsonView,
    crystalized: JsonView,
    after: JsonView,
    path: Seq<int>,
)
    requires
        tree_settles(tree, crystalized, Ok::<JsonView, DerivedFromErrorView>(after)),
        free_path(tree, path),
    ensures
        at_path(tree, path) is Some,
        at_path(after, path) is Some,
        tree_settles(
            at_path(tree, path)->0,
            crystalized,
            Ok::<JsonView, DerivedFromErrorView>(at_path(after, path)->0),
        ),
    decreases path.len(),
{
    if path.len() > 0 {
        let i = path[0];
        let outcome = Ok::<JsonView, DerivedFromErrorView>(after);
        match tree {
            JsonView::Object(entries) => {
                law_objects_are_resolved_member_by_member(entries, crystalized, outcome);
                assert(after->Object_0[i].0 == entries[i].0);
            },
            JsonView::Array(items) => {
                law_lists_are_resolved_item_by_item(items, crystalized, outcome);
                let item = after->Array_0[i];
            },
            _ => {},
        }
        law_every_node_is_resolved_in_place(
            part(tree, i)->0,
            crystalized,
            part(after, i)->0,
            path.drop_first(),
        );
    }
}

} // verus!
