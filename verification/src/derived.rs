//! Runtime resolution of `derived-from` nodes.
//!
//! During wave-parallel execution the executor builds a *crystalized* tree: after each wave's
//! apply, the live state of every instance in the wave is inserted at the instance's key.
//! Between waves, [`resolve_derived_from_tree`] walks the active desired-state tree and replaces
//! every `derived-from` node whose inputs are all present in the crystalized tree.
//!
//! Nodes whose inputs are not yet available are left unchanged and will be revisited after the
//! next wave completes.

use crate::dag::{evaluation_error, jq_error, DagError, DagErrorView};
use crate::guard::comes_back;
use crate::jq::{evaluate, may_answer, JqFailure, JqFailureView};
use crate::json::{
    get_text, lemma_array_view, lemma_object_view, member, member_text, read_string_members,
    string_members, Json, JsonView,
};
use crate::strmap::{
    ascending, entry_views, lemma_put_last, lemma_value_smaller, lemma_views_put, put, StrMap,
};
use crate::text::{quote, quoted, text_eq, text_lt};
use crate::views::{lemma_views_push, option_view, result_view, views};
use vstd::prelude::*;

verus! {

/// Why a `derived-from` node could not be resolved.
#[derive(Debug, PartialEq)]
pub enum DerivedFromError {
    InputPathEval { path: String, source: DagError },
    ExpressionEval { expression: String, source: DagError },
}

/// What a [`DerivedFromError`] stands for.
pub enum DerivedFromErrorView {
    InputPathEval { path: Seq<char>, source: DagErrorView },
    ExpressionEval { expression: Seq<char>, source: DagErrorView },
}

impl View for DerivedFromError {
    type V = DerivedFromErrorView;

    open spec fn view(&self) -> DerivedFromErrorView {
        match self {
            DerivedFromError::InputPathEval { path, source } =>
                DerivedFromErrorView::InputPathEval { path: path@, source: source@ },
            DerivedFromError::ExpressionEval { expression, source } =>
                DerivedFromErrorView::ExpressionEval { expression: expression@, source: source@ },
        }
    }
}

impl DerivedFromErrorView {
    /// The message of this error.
    pub open spec fn message(self) -> Seq<char> {
        match self {
            DerivedFromErrorView::InputPathEval { path, source } =>
                "Failed to evaluate derivedFrom input path "@
                + quoted(path) + ": "@ + source.message(),
            DerivedFromErrorView::ExpressionEval { expression, source } =>
                "Failed to evaluate derivedFrom expression "@
                + quoted(expression) + ": "@ + source.message(),
        }
    }
}

impl DerivedFromError {
    /// The message of this error.
    pub fn message(&self) -> (message: String)
        ensures
            message@ == self@.message(),
    {
        match self {
            DerivedFromError::InputPathEval { path, source } => {
                "Failed to evaluate derivedFrom input path ".to_owned()
                    .concat(quote(path.as_str()).as_str())
                    .concat(": ")
                    .concat(source.message().as_str())
            }
            DerivedFromError::ExpressionEval { expression, source } => {
                "Failed to evaluate derivedFrom expression ".to_owned()
                    .concat(quote(expression.as_str()).as_str())
                    .concat(": ")
                    .concat(source.message().as_str())
            }
        }
    }
}

/// jq definitions of the `mk*` helper functions available in every `derived-from` expression.
/// They produce JSON objects that are field values.
pub const MK_HELPERS: &'static str = r#"def mkManaged(v): {"__nixhapi": "managed", "value": v};
def mkInitial(v): {"__nixhapi": "initial", "value": v};
def mkUnmanaged: {"__nixhapi": "unmanaged"};
def mkManagedFromPath(p): {"__nixhapi": "managed-from-path", "path": p};
def mkInitialFromPath(p): {"__nixhapi": "initial-from-path", "path": p};
def mkManagedFromEnv(e): {"__nixhapi": "managed-from-env", "env": e};
def mkInitialFromEnv(e): {"__nixhapi": "initial-from-env", "env": e};"#;

/// The expression that an input path is evaluated as: a path through something that is missing
/// gives null.
pub open spec fn safe_path(path: Seq<char>) -> Seq<char> {
    "try ("@ + path + ") catch null"@
}

/// The program that a `derived-from` expression is evaluated as: the helpers before it.
pub open spec fn full_expression(expression: Seq<char>) -> Seq<char> {
    MK_HELPERS@ + "\n"@ + expression
}

/// What an input path gives, by the outcome of its evaluation: nothing where it is null.
pub open spec fn input_given(
    path: Seq<char>,
    outcome: Result<JsonView, JqFailureView>,
) -> Result<Option<JsonView>, DerivedFromErrorView> {
    match outcome {
        Ok(JsonView::Null) => Ok(None),
        Ok(value) => Ok(Some(value)),
        Err(failure) => Err(
            DerivedFromErrorView::InputPathEval {
                path,
                source: jq_error("(derived-from)"@, safe_path(path), failure),
            },
        ),
    }
}

/// The expression that an input path is evaluated as.
fn safe_path_text(path: &str) -> (text: String)
    ensures
        text@ == safe_path(path@),
{
    "try (".to_owned().concat(path).concat(") catch null")
}

/// The program that a `derived-from` expression is evaluated as.
fn full_expression_text(expression: &str) -> (text: String)
    ensures
        text@ == full_expression(expression@),
{
    MK_HELPERS.to_owned().concat("\n").concat(expression)
}

/// What an input path gives, by the outcome of its evaluation.
pub fn input_result(path: &str, outcome: Result<Json, JqFailure>) -> (given: Result<
    Option<Json>,
    DerivedFromError,
>)
    ensures
        match given {
            Ok(value) => input_given(path@, result_view(outcome)) == Ok::<
                Option<JsonView>,
                DerivedFromErrorView,
            >(option_view(value)),
            Err(error) => input_given(path@, result_view(outcome)) == Err::<
                Option<JsonView>,
                DerivedFromErrorView,
            >(error@),
        },
{
    match outcome {
        Ok(value) => if value.is_null() {
            Ok(None)
        } else {
            Ok(Some(value))
        },
        Err(failure) => Err(
            DerivedFromError::InputPathEval {
                path: path.to_owned(),
                source: evaluation_error(
                    "(derived-from)",
                    safe_path_text(path).as_str(),
                    failure,
                ),
            },
        ),
    }
}

/// What a `derived-from` expression gives, by the outcome of its evaluation.
pub open spec fn expression_given(
    expression: Seq<char>,
    outcome: Result<JsonView, JqFailureView>,
) -> Result<JsonView, DerivedFromErrorView> {
    match outcome {
        Ok(value) => Ok(value),
        Err(failure) => Err(
            DerivedFromErrorView::ExpressionEval {
                expression,
                source: jq_error("(derived-from)"@, full_expression(expression), failure),
            },
        ),
    }
}

/// What a `derived-from` expression gives, by the outcome of its evaluation.
pub fn expression_result(expression: &str, outcome: Result<Json, JqFailure>) -> (given: Result<
    Json,
    DerivedFromError,
>)
    ensures
        result_view(given) == expression_given(expression@, result_view(outcome)),
{
    match outcome {
        Ok(value) => Ok(value),
        Err(failure) => Err(
            DerivedFromError::ExpressionEval {
                expression: expression.to_owned(),
                source: evaluation_error(
                    "(derived-from)",
                    full_expression_text(expression).as_str(),
                    failure,
                ),
            },
        ),
    }
}

/// That `outcome` may come of a `derived-from` node whose inputs from the `i`-th on are still to
/// be evaluated, after the others gave `given`: nothing as soon as an input is not available, and
/// otherwise what the expression gives for the object of all inputs.
pub open spec fn node_settles(
    inputs: Seq<(Seq<char>, Seq<char>)>,
    i: int,
    expression: Seq<char>,
    crystalized: JsonView,
    given: Seq<(Seq<char>, JsonView)>,
    outcome: Result<Option<JsonView>, DerivedFromErrorView>,
) -> bool
    decreases inputs.len() - i,
{
    if i < 0 || i >= inputs.len() {
        exists|answer: Result<JsonView, JqFailureView>| #[trigger]
            may_answer(full_expression(expression), expression, JsonView::Object(given), answer)
                && outcome == match expression_given(expression, answer) {
                Ok(value) => Ok(Some(value)),
                Err(error) => Err(error),
            }
    } else {
        let (alias, path) = inputs[i];
        exists|answer: Result<JsonView, JqFailureView>| #[trigger]
            may_answer(safe_path(path), safe_path(path), crystalized, answer) && match input_given(
                path,
                answer,
            ) {
                Err(error) => outcome == Err::<Option<JsonView>, DerivedFromErrorView>(error),
                Ok(None) => outcome == Ok::<Option<JsonView>, DerivedFromErrorView>(None),
                Ok(Some(value)) => node_settles(
                    inputs,
                    i + 1,
                    expression,
                    crystalized,
                    put(given, alias, value),
                    outcome,
                ),
            }
    }
}

/// Evaluates a single input path against the crystalized tree.
///
/// Gives nothing when the path produces null, as it does where it traverses through a missing
/// key (e.g. the instance has not been applied yet).
fn eval_input_path(path: &str, crystalized: &Json) -> (given: Result<
    Option<Json>,
    DerivedFromError,
>)
    ensures
        exists|answer: Result<JsonView, JqFailureView>| #[trigger]
            may_answer(safe_path(path@), safe_path(path@), crystalized@, answer) && match given {
                Ok(value) => input_given(path@, answer) == Ok::<
                    Option<JsonView>,
                    DerivedFromErrorView,
                >(option_view(value)),
                Err(error) => input_given(path@, answer) == Err::<
                    Option<JsonView>,
                    DerivedFromErrorView,
                >(error@),
            },
{
    let safe = safe_path_text(path);
    let outcome = evaluate(safe.as_str(), safe.as_str(), crystalized);
    let ghost answer = result_view(outcome);
    assert(may_answer(safe_path(path@), safe_path(path@), crystalized@, answer));
    input_result(path, outcome)
}

/// Evaluates a `derived-from` expression with the resolved inputs as its input.
fn eval_derived_expression(expression: &str, inputs: &Json) -> (given: Result<
    Json,
    DerivedFromError,
>)
    ensures
        exists|answer: Result<JsonView, JqFailureView>| #[trigger]
            may_answer(full_expression(expression@), expression@, inputs@, answer)
                && result_view(given) == expression_given(expression@, answer),
{
    let full = full_expression_text(expression);
    let outcome = evaluate(full.as_str(), expression, inputs);
    let ghost answer = result_view(outcome);
    assert(may_answer(full_expression(expression@), expression@, inputs@, answer));
    expression_result(expression, outcome)
}

/// The view of what a node resolves to.
pub open spec fn node_view(outcome: Result<Option<Json>, DerivedFromError>) -> Result<
    Option<JsonView>,
    DerivedFromErrorView,
> {
    match outcome {
        Ok(value) => Ok(option_view(value)),
        Err(error) => Err(error@),
    }
}

/// Attempts to resolve a single `derived-from` node against `crystalized`.
///
/// Gives nothing if any input is not yet available.
fn try_resolve_node(inputs: &StrMap<String>, expression: &str, crystalized: &Json) -> (outcome:
    Result<Option<Json>, DerivedFromError>)
    ensures
        node_settles(
            entry_views(inputs@),
            0,
            expression@,
            crystalized@,
            Seq::empty(),
            node_view(outcome),
        ),
{
    let ghost named = entry_views(inputs@);
    let mut given = Json::empty_object();
    let ghost mut members: Seq<(Seq<char>, JsonView)> = Seq::empty();
    let mut i: usize = 0;
    while i < inputs.len()
        invariant
            i <= inputs@.len(),
            named == entry_views(inputs@),
            given@ == JsonView::Object(members),
            forall|outcome: Result<Option<JsonView>, DerivedFromErrorView>| #[trigger]
                node_settles(named, i as int, expression@, crystalized@, members, outcome)
                    ==> node_settles(
                    named,
                    0,
                    expression@,
                    crystalized@,
                    Seq::empty(),
                    outcome,
                ),
        decreases inputs@.len() - i,
    {
        let alias = inputs.key_at(i);
        let path = inputs.value_at(i).as_str();
        assert(named[i as int] == (alias@, path@));
        let value = eval_input_path(path, crystalized);
        let ghost answer = choose|answer: Result<JsonView, JqFailureView>| #[trigger]
            may_answer(safe_path(path@), safe_path(path@), crystalized@, answer) && match value {
                Ok(value) => input_given(path@, answer) == Ok::<
                    Option<JsonView>,
                    DerivedFromErrorView,
                >(option_view(value)),
                Err(error) => input_given(path@, answer) == Err::<
                    Option<JsonView>,
                    DerivedFromErrorView,
                >(error@),
            };
        match value {
            Err(error) => {
                assert(node_settles(
                    named,
                    i as int,
                    expression@,
                    crystalized@,
                    members,
                    Err::<Option<JsonView>, DerivedFromErrorView>(error@),
                ));
                return Err(error);
            }
            Ok(None) => {
                assert(node_settles(
                    named,
                    i as int,
                    expression@,
                    crystalized@,
                    members,
                    Ok::<Option<JsonView>, DerivedFromErrorView>(None),
                ));
                return Ok(None);
            }
            Ok(Some(value)) => {
                let ghost after = put(members, alias@, value@);
                assert forall|outcome: Result<
                    Option<JsonView>,
                    DerivedFromErrorView,
                >| #[trigger]
                    node_settles(
                        named,
                        i + 1,
                        expression@,
                        crystalized@,
                        after,
                        outcome,
                    ) implies node_settles(
                    named,
                    0,
                    expression@,
                    crystalized@,
                    Seq::empty(),
                    outcome,
                ) by {
                    assert(may_answer(safe_path(path@), safe_path(path@), crystalized@, answer));
                    assert(node_settles(
                        named,
                        i as int,
                        expression@,
                        crystalized@,
                        members,
                        outcome,
                    ));
                }
                given = given.with_member(alias, value);
                proof {
                    members = after;
                }
            }
        }
        i = i + 1;
    }
    let value = eval_derived_expression(expression, &given);
    let ghost answer = choose|answer: Result<JsonView, JqFailureView>| #[trigger]
        may_answer(full_expression(expression@), expression@, given@, answer) && result_view(value)
            == expression_given(expression@, answer);
    let outcome = match value {
        Ok(value) => Ok(Some(value)),
        Err(error) => Err(error),
    };
    assert(node_settles(
        named,
        i as int,
        expression@,
        crystalized@,
        members,
        node_view(outcome),
    ));
    outcome
}

/// The inputs of a `derived-from` node by alias; none unless all of them are strings.
pub open spec fn derived_inputs(node: JsonView) -> Seq<(Seq<char>, Seq<char>)> {
    match member(node, "inputs"@) {
        Some(value) => string_members(value),
        None => Seq::empty(),
    }
}

/// The inputs of a `derived-from` node by alias; none unless all of them are strings.
pub fn read_derived_inputs(node: &Json) -> (inputs: StrMap<String>)
    ensures
        entry_views(inputs@) == derived_inputs(node@),
        ascending(inputs@),
{
    match node.get("inputs") {
        Some(value) => read_string_members(value),
        None => {
            let inputs: StrMap<String> = StrMap::new();
            assert(entry_views(inputs@) =~= Seq::empty());
            inputs
        }
    }
}

/// The expression of a `derived-from` node; empty where it is no string.
pub open spec fn derived_expression(node: JsonView) -> Seq<char> {
    match member_text(node, "expression"@) {
        Some(text) => text,
        None => Seq::empty(),
    }
}

/// Any outcome at all.
pub open spec fn is_outcome(outcome: Result<JsonView, DerivedFromErrorView>) -> bool {
    true
}

/// That a tree may come out as `outcome`: every `derived-from` node that is not under another
/// field value is replaced if it resolves; everything else stays as it is.  The walk goes in
/// order and ends at the first error.
pub open spec fn tree_settles(
    node: JsonView,
    crystalized: JsonView,
    outcome: Result<JsonView, DerivedFromErrorView>,
) -> bool
    decreases node, 0nat,
{
    match node {
        JsonView::Array(items) => items_settle(items, 0, crystalized, Seq::empty(), outcome),
        JsonView::Object(entries) => match member_text(node, "__nixhapi"@) {
            None => members_settle(entries, 0, crystalized, Seq::empty(), outcome),
            Some(tag) => if tag == "derived-from"@ {
                exists|found: Result<Option<JsonView>, DerivedFromErrorView>| #[trigger]
                    node_settles(
                        derived_inputs(node),
                        0,
                        derived_expression(node),
                        crystalized,
                        Seq::empty(),
                        found,
                    ) && outcome == match found {
                        Ok(Some(value)) => Ok(value),
                        Ok(None) => Ok(node),
                        Err(error) => Err(error),
                    }
            } else {
                outcome == Ok::<JsonView, DerivedFromErrorView>(node)
            },
        },
        _ => outcome == Ok::<JsonView, DerivedFromErrorView>(node),
    }
}

/// That an array may come out as `outcome`, after its first `i` items came out as `done`.
pub open spec fn items_settle(
    items: Seq<JsonView>,
    i: nat,
    crystalized: JsonView,
    done: Seq<JsonView>,
    outcome: Result<JsonView, DerivedFromErrorView>,
) -> bool
    decreases items, items.len() - i,
{
    if i >= items.len() {
        outcome == Ok::<JsonView, DerivedFromErrorView>(JsonView::Array(done))
    } else {
        exists|item: Result<JsonView, DerivedFromErrorView>| #[trigger]
            is_outcome(item) && tree_settles(items[i as int], crystalized, item) && match item {
                Err(error) => outcome == Err::<JsonView, DerivedFromErrorView>(error),
                Ok(value) => items_settle(items, i + 1, crystalized, done.push(value), outcome),
            }
    }
}

/// That an object may come out as `outcome`, after its first `i` members came out as `done`.
pub open spec fn members_settle(
    entries: Seq<(Seq<char>, JsonView)>,
    i: nat,
    crystalized: JsonView,
    done: Seq<(Seq<char>, JsonView)>,
    outcome: Result<JsonView, DerivedFromErrorView>,
) -> bool
    decreases entries, entries.len() - i,
{
    if i >= entries.len() {
        outcome == Ok::<JsonView, DerivedFromErrorView>(JsonView::Object(done))
    } else {
        let (key, child) = entries[i as int];
        exists|item: Result<JsonView, DerivedFromErrorView>| #[trigger]
            is_outcome(item) && tree_settles(child, crystalized, item) && match item {
                Err(error) => outcome == Err::<JsonView, DerivedFromErrorView>(error),
                Ok(value) => members_settle(
                    entries,
                    i + 1,
                    crystalized,
                    done.push((key, value)),
                    outcome,
                ),
            }
    }
}

/// What one more item does to the outcome of an array.
proof fn lemma_items_step(
    items: Seq<JsonView>,
    i: nat,
    crystalized: JsonView,
    done: Seq<JsonView>,
    item: Result<JsonView, DerivedFromErrorView>,
    outcome: Result<JsonView, DerivedFromErrorView>,
)
    requires
        i < items.len(),
        tree_settles(items[i as int], crystalized, item),
        match item {
            Err(error) => outcome == Err::<JsonView, DerivedFromErrorView>(error),
            Ok(value) => items_settle(items, i + 1, crystalized, done.push(value), outcome),
        },
    ensures
        items_settle(items, i, crystalized, done, outcome),
{
    assert(is_outcome(item));
}

/// What one more member does to the outcome of an object.
proof fn lemma_members_step(
    entries: Seq<(Seq<char>, JsonView)>,
    i: nat,
    crystalized: JsonView,
    done: Seq<(Seq<char>, JsonView)>,
    item: Result<JsonView, DerivedFromErrorView>,
    outcome: Result<JsonView, DerivedFromErrorView>,
)
    requires
        i < entries.len(),
        tree_settles(entries[i as int].1, crystalized, item),
        match item {
            Err(error) => outcome == Err::<JsonView, DerivedFromErrorView>(error),
            Ok(value) => members_settle(
                entries,
                i + 1,
                crystalized,
                done.push((entries[i as int].0, value)),
                outcome,
            ),
        },
    ensures
        members_settle(entries, i, crystalized, done, outcome),
{
    assert(is_outcome(item));
}

/// Recursively walks `node`, replacing resolvable `derived-from` leaves.
fn resolve_value(node: &Json, crystalized: &Json) -> (outcome: Result<Json, DerivedFromError>)
    ensures
        tree_settles(node@, crystalized@, result_view(outcome)),
    decreases node, 1nat,
{
    match node {
        Json::Array(items) => {
            assert(decreases_to!(*node => node->Array_0));
            resolve_items(items, crystalized, node)
        }
        Json::Object(map) => {
            proof {
                lemma_object_view(*map);
            }
            match get_text(node, "__nixhapi") {
                None => {
                    assert(decreases_to!(*node => node->Object_0));
                    resolve_members(map, crystalized, node)
                }
                Some(tag) => {
                    if text_eq(tag.as_str(), "derived-from") {
                        let inputs = read_derived_inputs(node);
                        let expression = match get_text(node, "expression") {
                            Some(text) => text,
                            None => String::new(),
                        };
                        assert(expression@ =~= derived_expression(node@));
                        let found = try_resolve_node(&inputs, expression.as_str(), crystalized);
                        let ghost seen = node_view(found);
                        assert(node_settles(
                            derived_inputs(node@),
                            0,
                            derived_expression(node@),
                            crystalized@,
                            Seq::empty(),
                            seen,
                        ));
                        match found {
                            Ok(Some(value)) => Ok(value),
                            Ok(None) => Ok(node.copy()),
                            Err(error) => Err(error),
                        }
                    } else {
                        Ok(node.copy())
                    }
                }
            }
        }
        other => Ok(other.copy()),
    }
}

fn resolve_items(items: &Vec<Json>, crystalized: &Json, node: &Json) -> (outcome: Result<
    Json,
    DerivedFromError,
>)
    requires
        *node == Json::Array(*items),
    ensures
        tree_settles(node@, crystalized@, result_view(outcome)),
    decreases node, 0nat,
{
    proof {
        lemma_array_view(*items);
    }
    let ghost all = views(items@);
    let mut done: Vec<Json> = Vec::new();
    let mut i: usize = 0;
    assert(views(done@) =~= Seq::empty());
    while i < items.len()
        invariant
            *node == Json::Array(*items),
            all == views(items@),
            i <= items@.len(),
            forall|outcome: Result<JsonView, DerivedFromErrorView>| #[trigger]
                items_settle(all, i as nat, crystalized@, views(done@), outcome) ==> items_settle(
                    all,
                    0,
                    crystalized@,
                    Seq::empty(),
                    outcome,
                ),
            node@ == JsonView::Array(all),
        decreases items.len() - i,
    {
        assert(decreases_to!(*node => node->Array_0));
        let item = resolve_value(&items[i], crystalized);
        let ghost seen = result_view(item);
        match item {
            Err(error) => {
                proof {
                    lemma_items_step(
                        all,
                        i as nat,
                        crystalized@,
                        views(done@),
                        seen,
                        Err::<JsonView, DerivedFromErrorView>(error@),
                    );
                }
                return Err(error);
            }
            Ok(value) => {
                let ghost before = views(done@);
                proof {
                    lemma_views_push(done@, value);
                }
                done.push(value);
                let ghost k = i as nat;
                i = i + 1;
                assert forall|outcome: Result<JsonView, DerivedFromErrorView>| #[trigger]
                    items_settle(
                        all,
                        i as nat,
                        crystalized@,
                        views(done@),
                        outcome,
                    ) implies items_settle(all, 0, crystalized@, Seq::empty(), outcome) by {
                    lemma_items_step(all, k, crystalized@, before, seen, outcome);
                }
            }
        }
    }
    proof {
        lemma_array_view(done);
        assert(items_settle(
            all,
            i as nat,
            crystalized@,
            views(done@),
            Ok::<JsonView, DerivedFromErrorView>(JsonView::Array(views(done@))),
        ));
    }
    Ok(Json::Array(done))
}

fn resolve_members(map: &StrMap<Json>, crystalized: &Json, node: &Json) -> (outcome: Result<
    Json,
    DerivedFromError,
>)
    requires
        *node == Json::Object(*map),
        member_text(node@, "__nixhapi"@) is None,
    ensures
        tree_settles(node@, crystalized@, result_view(outcome)),
    decreases node, 0nat,
{
    proof {
        lemma_object_view(*map);
    }
    let ghost all = entry_views(map@);
    let mut done: StrMap<Json> = StrMap::new();
    let mut i: usize = 0;
    assert(entry_views(done@) =~= Seq::empty());
    while i < map.len()
        invariant
            *node == Json::Object(*map),
            all == entry_views(map@),
            node@ == JsonView::Object(all),
            member_text(node@, "__nixhapi"@) is None,
            i <= map@.len(),
            entry_views(done@).len() == i,
            forall|k: int| 0 <= k < i ==> (#[trigger] entry_views(done@)[k]).0 == all[k].0,
            forall|outcome: Result<JsonView, DerivedFromErrorView>| #[trigger]
                members_settle(all, i as nat, crystalized@, entry_views(done@), outcome)
                    ==> members_settle(all, 0, crystalized@, Seq::empty(), outcome),
        decreases map@.len() - i,
    {
        proof {
            lemma_value_smaller(*map, i as int);
            assert(decreases_to!(*node => node->Object_0));
        }
        assert(ascending(map@));
        let key = map.key_at(i);
        let item = resolve_value(map.value_at(i), crystalized);
        assert(all[i as int] == (key@, map@[i as int].1@));
        let ghost seen = result_view(item);
        match item {
            Err(error) => {
                proof {
                    lemma_members_step(
                        all,
                        i as nat,
                        crystalized@,
                        entry_views(done@),
                        seen,
                        Err::<JsonView, DerivedFromErrorView>(error@),
                    );
                }
                return Err(error);
            }
            Ok(value) => {
                let ghost before = entry_views(done@);
                proof {
                    lemma_views_put(done@, key@, value);
                    assert forall|k: int| 0 <= k < before.len() implies text_lt(
                        (#[trigger] before[k]).0,
                        key@,
                    ) by {
                        assert(text_lt(map@[k].0, map@[i as int].0));
                        assert(all[k].0 == map@[k].0);
                    }
                    lemma_put_last(before, key@, value@);
                }
                done = done.put(key.to_owned(), value);
                let ghost k = i as nat;
                i = i + 1;
                assert forall|outcome: Result<JsonView, DerivedFromErrorView>| #[trigger]
                    members_settle(
                        all,
                        i as nat,
                        crystalized@,
                        entry_views(done@),
                        outcome,
                    ) implies members_settle(all, 0, crystalized@, Seq::empty(), outcome) by {
                    lemma_members_step(all, k, crystalized@, before, seen, outcome);
                }
            }
        }
    }
    proof {
        lemma_object_view(done);
        assert(members_settle(
            all,
            i as nat,
            crystalized@,
            entry_views(done@),
            Ok::<JsonView, DerivedFromErrorView>(JsonView::Object(entry_views(done@))),
        ));
    }
    Ok(Json::Object(done))
}

/// Walks `desired` and replaces every `derived-from` node whose inputs are all present in
/// `crystalized`, an object mapping provider instance names to the live state that they reported
/// last.  Nodes whose inputs reference an instance that has not yet been applied (absent, or
/// evaluating to null) are left unchanged.
pub fn resolve_derived_from_tree(desired: &Json, crystalized: &Json) -> (outcome: Result<
    Json,
    DerivedFromError,
>)
    ensures
        tree_settles(desired@, crystalized@, result_view(outcome)),
{
    resolve_value(desired, crystalized)
}

/// No `derived-from` node is to be found in the tree, other than under another field value.
pub open spec fn without_derived(node: JsonView) -> bool
    decreases node,
{
    match node {
        JsonView::Array(items) => forall|i: int|
            0 <= i < items.len() ==> without_derived(#[trigger] items[i]),
        JsonView::Object(entries) => match member_text(node, "__nixhapi"@) {
            Some(tag) => tag != "derived-from"@,
            None => forall|i: int|
                0 <= i < entries.len() ==> without_derived((#[trigger] entries[i]).1),
        },
        _ => true,
    }
}

/// A tree without `derived-from` nodes comes out unchanged, whatever is crystalized.
pub proof fn law_other_nodes_pass_through(
    node: JsonView,
    crystalized: JsonView,
    outcome: Result<JsonView, DerivedFromErrorView>,
)
    requires
        without_derived(node),
        tree_settles(node, crystalized, outcome),
    ensures
        outcome == Ok::<JsonView, DerivedFromErrorView>(node),
    decreases node, 0nat,
{
    match node {
        JsonView::Array(items) => {
            assert(items.take(0) =~= Seq::empty());
            lemma_items_pass_through(items, 0, crystalized, outcome);
        },
        JsonView::Object(entries) => {
            if member_text(node, "__nixhapi"@) is None {
                assert(entries.take(0) =~= Seq::empty());
                lemma_members_pass_through(entries, 0, crystalized, outcome);
            }
        },
        _ => {},
    }
}

proof fn lemma_items_pass_through(
    items: Seq<JsonView>,
    i: nat,
    crystalized: JsonView,
    outcome: Result<JsonView, DerivedFromErrorView>,
)
    requires
        i <= items.len(),
        forall|k: int| 0 <= k < items.len() ==> without_derived(#[trigger] items[k]),
        items_settle(items, i, crystalized, items.take(i as int), outcome),
    ensures
        outcome == Ok::<JsonView, DerivedFromErrorView>(JsonView::Array(items)),
    decreases items, items.len() - i,
{
    if i < items.len() {
        let item = choose|item: Result<JsonView, DerivedFromErrorView>| #[trigger]
            is_outcome(item) && tree_settles(items[i as int], crystalized, item) && match item {
                Err(error) => outcome == Err::<JsonView, DerivedFromErrorView>(error),
                Ok(value) => items_settle(
                    items,
                    i + 1,
                    crystalized,
                    items.take(i as int).push(value),
                    outcome,
                ),
            };
        law_other_nodes_pass_through(items[i as int], crystalized, item);
        assert(items.take(i as int).push(items[i as int]) =~= items.take(i as int + 1));
        lemma_items_pass_through(items, i + 1, crystalized, outcome);
    } else {
        assert(items.take(i as int) =~= items);
    }
}

proof fn lemma_members_pass_through(
    entries: Seq<(Seq<char>, JsonView)>,
    i: nat,
    crystalized: JsonView,
    outcome: Result<JsonView, DerivedFromErrorView>,
)
    requires
        i <= entries.len(),
        forall|k: int| 0 <= k < entries.len() ==> without_derived((#[trigger] entries[k]).1),
        members_settle(entries, i, crystalized, entries.take(i as int), outcome),
    ensures
        outcome == Ok::<JsonView, DerivedFromErrorView>(JsonView::Object(entries)),
    decreases entries, entries.len() - i,
{
    if i < entries.len() {
        let (key, child) = entries[i as int];
        let item = choose|item: Result<JsonView, DerivedFromErrorView>| #[trigger]
            is_outcome(item) && tree_settles(child, crystalized, item) && match item {
                Err(error) => outcome == Err::<JsonView, DerivedFromErrorView>(error),
                Ok(value) => members_settle(
                    entries,
                    i + 1,
                    crystalized,
                    entries.take(i as int).push((key, value)),
                    outcome,
                ),
            };
        law_other_nodes_pass_through(child, crystalized, item);
        assert(entries.take(i as int).push((key, child)) =~= entries.take(i as int + 1));
        lemma_members_pass_through(entries, i + 1, crystalized, outcome);
    } else {
        assert(entries.take(i as int) =~= entries);
    }
}

/// Every evaluation of the input path gives null: the input is not available.
pub open spec fn unavailable(path: Seq<char>, crystalized: JsonView) -> bool {
    forall|answer: Result<JsonView, JqFailureView>| #[trigger]
        may_answer(safe_path(path), safe_path(path), crystalized, answer) ==> answer == Ok::<
            JsonView,
            JqFailureView,
        >(JsonView::Null)
}

/// A `derived-from` node stays as it is as long as one of its inputs is not available, unless
/// the evaluation of an input before it is an error.
pub proof fn law_unavailable_input_leaves_node(
    node: JsonView,
    crystalized: JsonView,
    k: int,
    outcome: Result<JsonView, DerivedFromErrorView>,
)
    requires
        node is Object,
        member_text(node, "__nixhapi"@) == Some("derived-from"@),
        0 <= k < derived_inputs(node).len(),
        unavailable(derived_inputs(node)[k].1, crystalized),
        tree_settles(node, crystalized, outcome),
    ensures
        outcome is Err || outcome == Ok::<JsonView, DerivedFromErrorView>(node),
{
    let found = choose|found: Result<Option<JsonView>, DerivedFromErrorView>| #[trigger]
        node_settles(
            derived_inputs(node),
            0,
            derived_expression(node),
            crystalized,
            Seq::empty(),
            found,
        ) && outcome == match found {
            Ok(Some(value)) => Ok(value),
            Ok(None) => Ok(node),
            Err(error) => Err(error),
        };
    lemma_node_waits(
        derived_inputs(node),
        0,
        derived_expression(node),
        crystalized,
        Seq::empty(),
        k,
        found,
    );
}

proof fn lemma_node_waits(
    inputs: Seq<(Seq<char>, Seq<char>)>,
    i: int,
    expression: Seq<char>,
    crystalized: JsonView,
    given: Seq<(Seq<char>, JsonView)>,
    k: int,
    outcome: Result<Option<JsonView>, DerivedFromErrorView>,
)
    requires
        0 <= i <= k < inputs.len(),
        unavailable(inputs[k].1, crystalized),
        node_settles(inputs, i, expression, crystalized, given, outcome),
    ensures
        outcome is Err || outcome == Ok::<Option<JsonView>, DerivedFromErrorView>(None),
    decreases inputs.len() - i,
{
    let (alias, path) = inputs[i];
    let answer = choose|answer: Result<JsonView, JqFailureView>| #[trigger]
        may_answer(safe_path(path), safe_path(path), crystalized, answer) && match input_given(
            path,
            answer,
        ) {
            Err(error) => outcome == Err::<Option<JsonView>, DerivedFromErrorView>(error),
            Ok(None) => outcome == Ok::<Option<JsonView>, DerivedFromErrorView>(None),
            Ok(Some(value)) => node_settles(
                inputs,
                i + 1,
                expression,
                crystalized,
                put(given, alias, value),
                outcome,
            ),
        };
    if i < k {
        if let Ok(Some(value)) = input_given(path, answer) {
            lemma_node_waits(
                inputs,
                i + 1,
                expression,
                crystalized,
                put(given, alias, value),
                k,
                outcome,
            );
        }
    }
}

/// A `derived-from` expression that is not sure to come back on its inputs is not evaluated: it is
/// an error of the node.
pub proof fn law_refused_expression_fails_the_node(
    inputs: Seq<(Seq<char>, Seq<char>)>,
    expression: Seq<char>,
    crystalized: JsonView,
    given: Seq<(Seq<char>, JsonView)>,
    outcome: Result<Option<JsonView>, DerivedFromErrorView>,
)
    requires
        !comes_back(expression, JsonView::Object(given)),
        node_settles(
            inputs,
            inputs.len() as int,
            expression,
            crystalized,
            given,
            outcome,
        ),
    ensures
        outcome == Err::<Option<JsonView>, DerivedFromErrorView>(
            DerivedFromErrorView::ExpressionEval {
                expression,
                source: DagErrorView::ExpressionRefused {
                    instance: "(derived-from)"@,
                    expression: full_expression(expression),
                },
            },
        ),
{
}

} // verus!
