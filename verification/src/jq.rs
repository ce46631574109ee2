//! Evaluation of jq expressions.

use crate::derived::full_expression;
use crate::guard::{comes_back, is_sure_to_come_back};
use crate::json::{from_serde, to_serde, Json, JsonView};
use crate::strmap::StrMap;
use crate::views::result_view;
use core::iter::empty;
use jaq_core::load::{Arena, File, Loader};
use jaq_core::{Compiler, Ctx, RcIter};
use jaq_json::Val;
use vstd::prelude::*;

verus! {

/// Why an expression gave no value.
#[derive(Debug, PartialEq)]
pub enum JqFailure {
    /// The expression is not in the language.
    Parse(String),
    /// The expression names something that is not defined.
    Compile(String),
    /// The evaluation raised an error before its first output.
    Runtime(String),
    /// The evaluation ended without an output.
    NoOutput,
    /// The expression is not evaluated: nothing assures that its evaluation would come back.
    Refused,
}

/// What a [`JqFailure`] stands for.
pub enum JqFailureView {
    Parse(Seq<char>),
    Compile(Seq<char>),
    Runtime(Seq<char>),
    NoOutput,
    Refused,
}

impl View for JqFailure {
    type V = JqFailureView;

    open spec fn view(&self) -> JqFailureView {
        match self {
            JqFailure::Parse(message) => JqFailureView::Parse(message@),
            JqFailure::Compile(message) => JqFailureView::Compile(message@),
            JqFailure::Runtime(message) => JqFailureView::Runtime(message@),
            JqFailure::NoOutput => JqFailureView::NoOutput,
            JqFailure::Refused => JqFailureView::Refused,
        }
    }
}

/// That an evaluation of `program` on `input` may give `outcome`.  It is a relation, not a
/// function: a program can read the clock.
pub uninterp spec fn jq_may_yield(
    program: Seq<char>,
    input: JsonView,
    outcome: Result<JsonView, JqFailureView>,
) -> bool;

/// `jaq_core::Error`: what an evaluation may raise.
#[verifier::external_type_specification]
#[verifier::external_body]
#[verifier::reject_recursive_types(V)]
pub struct ExError<V>(jaq_core::Error<V>);

/// `jaq_json::Val`: what the evaluation of an expression yields.
#[verifier::external_type_specification]
#[verifier::external_body]
pub struct ExVal(Val);

/// Turns a `jaq_json::Val` into a value of this library, variant by variant.  A number that jaq
/// keeps as text goes through `serde_json::Number`'s `FromStr`, and one out of its range becomes
/// null, as an infinity does.  Nothing is claimed of the result here: [`first_output`] relates
/// what it returns as a whole.
#[verifier::external_body]
fn from_val(value: Val) -> Json {
    match value {
        Val::Num(text) => from_serde(text.parse().map_or(().into(), serde_json::Value::Number)),
        Val::Arr(items) => Json::Array(items.iter().map(|v| from_val(v.clone())).collect()),
        Val::Obj(map) => Json::Object(
            StrMap::from_entries(
                map.iter().map(|(k, v)| ((**k).clone(), from_val(v.clone()))).collect(),
            ),
        ),
        other => from_serde(other.into()),
    }
}

/// Whether `program` is evaluated on `input`: an expression, as it is or with the helper
/// definitions before it, of which the evaluation is sure to come back.
pub open spec fn is_run(program: Seq<char>, input: JsonView) -> bool {
    ||| comes_back(program, input)
    ||| exists|expression: Seq<char>|
        program == #[trigger] full_expression(expression) && comes_back(expression, input)
}

/// Parses `program` with the loader of `jaq_core`, compiles it against the definitions and
/// functions of `jaq_std` and `jaq_json`, runs it on `input` and takes the first output.  What
/// comes back is only said to be a possible outcome of that program on that input.
///
/// That something comes back is claimed of the programs that [`is_run`] admits, on a machine with
/// the memory for the values and the stack for the nesting that they have.  The others may call
/// what ends the process (`halt`, `halt_error`), what panics (such as `strftime` with a malformed
/// format), what never ends (a definition that only calls itself), or overflow a machine integer.
#[verifier::external_body]
fn first_output(program: &str, input: &Json) -> (outcome: Result<Json, JqFailure>)
    requires
        is_run(program@, input@),
    ensures
        jq_may_yield(program@, input@, result_view(outcome)),
{
    let arena = Arena::default();
    let modules = Loader::new(jaq_std::defs().chain(jaq_json::defs()))
        .load(&arena, File { code: program, path: "(expr)" })
        .map_err(|e| JqFailure::Parse(format!("{e:?}")))?;
    let filter = Compiler::default()
        .with_funs(jaq_std::funs().chain(jaq_json::funs()))
        .compile(modules)
        .map_err(|e| JqFailure::Compile(format!("{e:?}")))?;
    let inputs = RcIter::new(empty());
    let first = filter.run((Ctx::new([], &inputs), to_serde(input).into())).next();
    first.ok_or(JqFailure::NoOutput)?
        .map(from_val)
        .map_err(|e| JqFailure::Runtime(e.to_string()))
}

/// That `outcome` may come of evaluating `expression` on `input` by way of `program`: a refusal
/// exactly where nothing assures that the evaluation comes back.
pub open spec fn may_answer(
    program: Seq<char>,
    expression: Seq<char>,
    input: JsonView,
    outcome: Result<JsonView, JqFailureView>,
) -> bool {
    if comes_back(expression, input) {
        jq_may_yield(program, input, outcome)
    } else {
        outcome == Err::<JsonView, JqFailureView>(JqFailureView::Refused)
    }
}

/// Evaluates `expression` on `input` by way of `program`, unless it has to be refused.
pub(crate) fn evaluate(program: &str, expression: &str, input: &Json) -> (outcome: Result<
    Json,
    JqFailure,
>)
    requires
        program@ == expression@ || program@ == full_expression(expression@),
    ensures
        may_answer(program@, expression@, input@, result_view(outcome)),
{
    if is_sure_to_come_back(expression, input) {
        first_output(program, input)
    } else {
        Err(JqFailure::Refused)
    }
}

} // verus!
