//! Dependency-graph resolution for provider instances.
//!
//! Each provider instance can declare `dependsOn` jq expressions that identify other instances
//! it requires to be fully applied first.  Additionally, any `derived-from` node anywhere in the
//! desired-state tree creates an implicit edge: the owning provider instance depends on every
//! provider instance that one of its `inputs` paths traverses into.
//!
//! Both edge sources go into one graph, which gives
//!
//! * a flat ordering for sequential processing ([`topological_order`]);
//! * a wave decomposition for parallel execution ([`execution_waves`]).
//!
//! Providers that share no dependency relationship belong to the same wave and may execute
//! concurrently.  All instances in wave N must complete before any instance in wave N+1 begins.
//!
//! ```text
//! wave 0 |  A      B        no dependencies; run in parallel
//!        |  |      |
//! wave 1 |  C      D        C needs A, D needs B; run in parallel
//!        |   \    /
//! wave 2 |     E            E needs C and D; runs alone
//! ```

use crate::graph::{
    closed_edges, dependency_waves, depends, flatten_waves, has_cycle, in_order, is_waves,
    law_waves_exclude_cycles, law_waves_unique, sorted, wave_views,
};
use crate::guard::comes_back;
use crate::jq::{evaluate, may_answer, JqFailure, JqFailureView};
use crate::jq_expr::{
    expression_file, expression_text, JqExpr, JqExprError, JqExprErrorView, JqExprView,
};
use crate::json::{
    json_text, lemma_array_view, lemma_object_view, members, same_json, Json, JsonView,
};
use crate::meta::{meta_from, NixHapiMeta};
use crate::sources::{reading_of, Sources, SourcesView};
use crate::strmap::{
    ascending, entry_views, has_key, keys_of, lemma_lists_put, lemma_lookup, lemma_lookup_at,
    lemma_lookup_put, lemma_put_ascending, lemma_put_last, lemma_value_smaller, lemma_views_lookup,
    list_views, lookup, put, StrMap,
};
use crate::text::{chars_of, find, position, quote, quoted, stands_at, text_eq, text_lt};
use crate::views::{lemma_views_push, result_view, views};
use vstd::prelude::*;

verus! {

/// Why the dependency order could not be had.
#[derive(Debug, PartialEq)]
pub enum DagError {
    ExpressionParse { instance: String, expression: String, message: String },
    ExpressionCompile { instance: String, expression: String, message: String },
    ExpressionNoOutput { instance: String, expression: String },
    ExpressionRuntime { instance: String, expression: String, message: String },
    /// Nothing assures that the evaluation of the expression would come back.
    ExpressionRefused { instance: String, expression: String },
    /// The file that holds a `dependsOn` expression could not be read.
    ExpressionFile { instance: String, source: JqExprError },
    UnresolvedDependency { instance: String, expression: String },
    InvalidInputPath { instance: String, alias: String, path: String },
    UnresolvedInputDependency { instance: String, alias: String, referenced: String },
    /// The `__nixhapi` object of a scope does not hold directives.
    MetadataParse { instance: String, message: String },
    Cycle,
}

/// What a [`DagError`] stands for.
pub enum DagErrorView {
    ExpressionParse { instance: Seq<char>, expression: Seq<char>, message: Seq<char> },
    ExpressionCompile { instance: Seq<char>, expression: Seq<char>, message: Seq<char> },
    ExpressionNoOutput { instance: Seq<char>, expression: Seq<char> },
    ExpressionRuntime { instance: Seq<char>, expression: Seq<char>, message: Seq<char> },
    ExpressionRefused { instance: Seq<char>, expression: Seq<char> },
    ExpressionFile { instance: Seq<char>, source: JqExprErrorView },
    UnresolvedDependency { instance: Seq<char>, expression: Seq<char> },
    InvalidInputPath { instance: Seq<char>, alias: Seq<char>, path: Seq<char> },
    UnresolvedInputDependency { instance: Seq<char>, alias: Seq<char>, referenced: Seq<char> },
    MetadataParse { instance: Seq<char>, message: Seq<char> },
    Cycle,
}

impl View for DagError {
    type V = DagErrorView;

    open spec fn view(&self) -> DagErrorView {
        match self {
            DagError::ExpressionParse { instance, expression, message } =>
                DagErrorView::ExpressionParse {
                    instance: instance@,
                    expression: expression@,
                    message: message@,
                },
            DagError::ExpressionCompile { instance, expression, message } =>
                DagErrorView::ExpressionCompile {
                    instance: instance@,
                    expression: expression@,
                    message: message@,
                },
            DagError::ExpressionNoOutput { instance, expression } =>
                DagErrorView::ExpressionNoOutput { instance: instance@, expression: expression@ },
            DagError::ExpressionRuntime { instance, expression, message } =>
                DagErrorView::ExpressionRuntime {
                    instance: instance@,
                    expression: expression@,
                    message: message@,
                },
            DagError::ExpressionRefused { instance, expression } =>
                DagErrorView::ExpressionRefused { instance: instance@, expression: expression@ },
            DagError::ExpressionFile { instance, source } => DagErrorView::ExpressionFile {
                instance: instance@,
                source: source@,
            },
            DagError::UnresolvedDependency { instance, expression } =>
                DagErrorView::UnresolvedDependency { instance: instance@, expression: expression@ },
            DagError::InvalidInputPath { instance, alias, path } =>
                DagErrorView::InvalidInputPath {
                    instance: instance@,
                    alias: alias@,
                    path: path@,
                },
            DagError::UnresolvedInputDependency { instance, alias, referenced } =>
                DagErrorView::UnresolvedInputDependency {
                    instance: instance@,
                    alias: alias@,
                    referenced: referenced@,
                },
            DagError::MetadataParse { instance, message } => DagErrorView::MetadataParse {
                instance: instance@,
                message: message@,
            },
            DagError::Cycle => DagErrorView::Cycle,
        }
    }
}

impl DagErrorView {
    /// The message of this error.
    pub open spec fn message(self) -> Seq<char> {
        match self {
            DagErrorView::ExpressionParse { instance, expression, message } =>
                "dependsOn expression "@
                + quoted(expression) + " for instance "@ + quoted(instance) + " failed to parse: "@
                + message,
            DagErrorView::ExpressionCompile { instance, expression, message } =>
                "dependsOn expression "@
                + quoted(expression) + " for instance "@ + quoted(instance)
                + " failed to compile: "@ + message,
            DagErrorView::ExpressionNoOutput { instance, expression } => "dependsOn expression "@
                + quoted(expression) + " for instance "@ + quoted(instance)
                + " produced no output"@,
            DagErrorView::ExpressionRuntime { instance, expression, message } =>
                "dependsOn expression "@
                + quoted(expression) + " for instance "@ + quoted(instance) + " runtime error: "@
                + message,
            DagErrorView::ExpressionRefused { instance, expression } => "dependsOn expression "@
                + quoted(expression) + " for instance "@ + quoted(instance)
                + " is not evaluated: it might not come back"@,
            DagErrorView::ExpressionFile { instance, source } =>
                "dependsOn expression for instance "@
                + quoted(instance) + " could not be had: "@ + source.message(),
            DagErrorView::UnresolvedDependency { instance, expression } => "dependsOn expression "@
                + quoted(expression) + " in instance "@ + quoted(instance)
                + " did not resolve to any known provider instance"@,
            DagErrorView::InvalidInputPath { instance, alias, path } => "derivedFrom input "@
                + quoted(alias) + " in instance "@ + quoted(instance) + " has invalid path "@
                + quoted(path) + ": must begin with .[\"<instance-name>\"]"@,
            DagErrorView::UnresolvedInputDependency { instance, alias, referenced } =>
                "derivedFrom input "@
                + quoted(alias) + " in instance "@ + quoted(instance)
                + " references unknown provider instance "@ + quoted(referenced),
            DagErrorView::MetadataParse { instance, message } =>
                "Malformed __nixhapi metadata in instance "@
                + quoted(instance) + ": "@ + message,
            DagErrorView::Cycle => "Cycle detected in provider dependency graph"@,
        }
    }
}

impl DagError {
    /// The message of this error.
    pub fn message(&self) -> (message: String)
        ensures
            message@ == self@.message(),
    {
        match self {
            DagError::ExpressionParse { instance, expression, message } => {
                "dependsOn expression ".to_owned()
                    .concat(quote(expression.as_str()).as_str())
                    .concat(" for instance ")
                    .concat(quote(instance.as_str()).as_str())
                    .concat(" failed to parse: ")
                    .concat(message.as_str())
            }
            DagError::ExpressionCompile { instance, expression, message } => {
                "dependsOn expression ".to_owned()
                    .concat(quote(expression.as_str()).as_str())
                    .concat(" for instance ")
                    .concat(quote(instance.as_str()).as_str())
                    .concat(" failed to compile: ")
                    .concat(message.as_str())
            }
            DagError::ExpressionNoOutput { instance, expression } => {
                "dependsOn expression ".to_owned()
                    .concat(quote(expression.as_str()).as_str())
                    .concat(" for instance ")
                    .concat(quote(instance.as_str()).as_str())
                    .concat(" produced no output")
            }
            DagError::ExpressionRuntime { instance, expression, message } => {
                "dependsOn expression ".to_owned()
                    .concat(quote(expression.as_str()).as_str())
                    .concat(" for instance ")
                    .concat(quote(instance.as_str()).as_str())
                    .concat(" runtime error: ")
                    .concat(message.as_str())
            }
            DagError::ExpressionRefused { instance, expression } => {
                "dependsOn expression ".to_owned()
                    .concat(quote(expression.as_str()).as_str())
                    .concat(" for instance ")
                    .concat(quote(instance.as_str()).as_str())
                    .concat(" is not evaluated: it might not come back")
            }
            DagError::ExpressionFile { instance, source } => {
                "dependsOn expression for instance ".to_owned()
                    .concat(quote(instance.as_str()).as_str())
                    .concat(" could not be had: ")
                    .concat(source.message().as_str())
            }
            DagError::UnresolvedDependency { instance, expression } => {
                "dependsOn expression ".to_owned()
                    .concat(quote(expression.as_str()).as_str())
                    .concat(" in instance ")
                    .concat(quote(instance.as_str()).as_str())
                    .concat(" did not resolve to any known provider instance")
            }
            DagError::InvalidInputPath { instance, alias, path } => {
                "derivedFrom input ".to_owned()
                    .concat(quote(alias.as_str()).as_str())
                    .concat(" in instance ")
                    .concat(quote(instance.as_str()).as_str())
                    .concat(" has invalid path ")
                    .concat(quote(path.as_str()).as_str())
                    .concat(": must begin with .[\"<instance-name>\"]")
            }
            DagError::UnresolvedInputDependency { instance, alias, referenced } => {
                "derivedFrom input ".to_owned()
                    .concat(quote(alias.as_str()).as_str())
                    .concat(" in instance ")
                    .concat(quote(instance.as_str()).as_str())
                    .concat(" references unknown provider instance ")
                    .concat(quote(referenced.as_str()).as_str())
            }
            DagError::MetadataParse { instance, message } => {
                "Malformed __nixhapi metadata in instance ".to_owned()
                    .concat(quote(instance.as_str()).as_str())
                    .concat(": ")
                    .concat(message.as_str())
            }
            DagError::Cycle => {
                "Cycle detected in provider dependency graph".to_owned()
            }
        }
    }
}

impl DagError {
    /// A copy of this error.
    pub fn copy(&self) -> (copy: DagError)
        ensures
            copy@ == self@,
    {
        match self {
            DagError::ExpressionParse { instance, expression, message } =>
                DagError::ExpressionParse {
                    instance: instance.clone(),
                    expression: expression.clone(),
                    message: message.clone(),
                },
            DagError::ExpressionCompile { instance, expression, message } =>
                DagError::ExpressionCompile {
                    instance: instance.clone(),
                    expression: expression.clone(),
                    message: message.clone(),
                },
            DagError::ExpressionNoOutput { instance, expression } => DagError::ExpressionNoOutput {
                instance: instance.clone(),
                expression: expression.clone(),
            },
            DagError::ExpressionRuntime { instance, expression, message } =>
                DagError::ExpressionRuntime {
                    instance: instance.clone(),
                    expression: expression.clone(),
                    message: message.clone(),
                },
            DagError::ExpressionRefused { instance, expression } => DagError::ExpressionRefused {
                instance: instance.clone(),
                expression: expression.clone(),
            },
            DagError::ExpressionFile { instance, source } => DagError::ExpressionFile {
                instance: instance.clone(),
                source: source.copy(),
            },
            DagError::UnresolvedDependency { instance, expression } =>
                DagError::UnresolvedDependency {
                    instance: instance.clone(),
                    expression: expression.clone(),
                },
            DagError::InvalidInputPath { instance, alias, path } => DagError::InvalidInputPath {
                instance: instance.clone(),
                alias: alias.clone(),
                path: path.clone(),
            },
            DagError::UnresolvedInputDependency { instance, alias, referenced } =>
                DagError::UnresolvedInputDependency {
                    instance: instance.clone(),
                    alias: alias.clone(),
                    referenced: referenced.clone(),
                },
            DagError::MetadataParse { instance, message } => DagError::MetadataParse {
                instance: instance.clone(),
                message: message.clone(),
            },
            DagError::Cycle => DagError::Cycle,
        }
    }
}

/// The name of the instance that an absolute input path begins with: what stands between `.["`
/// at its start and the first `"]` after it.
pub open spec fn instance_named(path: Seq<char>) -> Option<Seq<char>> {
    if path.len() >= 3 && path.subrange(0, 3) == ".[\""@ {
        match position(path, "\"]"@, 3) {
            Some(end) => Some(path.subrange(3, end)),
            None => None,
        }
    } else {
        None
    }
}

/// The name of the instance that an absolute input path of the form `.["instance-name"]...`
/// begins with; `None` for any other path.
pub fn instance_from_input_path(path: &str) -> (name: Option<&str>)
    ensures
        match name {
            Some(name) => instance_named(path@) == Some(name@),
            None => instance_named(path@) is None,
        },
{
    let chars = chars_of(path);
    let prefix = chars_of(".[\"");
    let end = chars_of("\"]");
    proof {
        reveal_strlit(".[\"");
        assert(prefix@.len() == 3);
    }
    if !stands_at(&chars, &prefix, 0) {
        return None;
    }
    match find(&chars, &end, 3) {
        Some(at) => {
            proof {
                crate::text::lemma_position(path@, "\"]"@, 3);
            }
            Some(path.substring_char(3, at))
        }
        None => None,
    }
}

/// What a walk through an instance's scope finds: something to depend on, or a fault.
#[derive(Debug, PartialEq)]
pub enum Declaration {
    /// A `dependsOn` expression.
    DependsOn(JqExpr),
    /// An input of a `derived-from` node, which leads into the named instance.
    Reference(String),
    /// What is written there is invalid.
    Invalid(DagError),
}

/// What a [`Declaration`] stands for.
pub enum DeclarationView {
    DependsOn(JqExprView),
    Reference(Seq<char>),
    Invalid(DagErrorView),
}

impl View for Declaration {
    type V = DeclarationView;

    open spec fn view(&self) -> DeclarationView {
        match self {
            Declaration::DependsOn(expr) => DeclarationView::DependsOn(expr@),
            Declaration::Reference(name) => DeclarationView::Reference(name@),
            Declaration::Invalid(error) => DeclarationView::Invalid(error@),
        }
    }
}

/// What the input `alias` of a `derived-from` node declares.
pub open spec fn input_declared(
    instance: Seq<char>,
    alias: Seq<char>,
    path: JsonView,
    top: Seq<(Seq<char>, JsonView)>,
) -> DeclarationView {
    match path {
        JsonView::String(text) => match instance_named(text) {
            Some(name) => if has_key(top, name) {
                DeclarationView::Reference(name)
            } else {
                DeclarationView::Invalid(
                    DagErrorView::UnresolvedInputDependency { instance, alias, referenced: name },
                )
            },
            None => DeclarationView::Invalid(
                DagErrorView::InvalidInputPath { instance, alias, path: text },
            ),
        },
        other => DeclarationView::Invalid(
            DagErrorView::InvalidInputPath { instance, alias, path: json_text(other) },
        ),
    }
}

/// The inputs of a `derived-from` node; none where they are no object.
pub open spec fn inputs_of(entries: Seq<(Seq<char>, JsonView)>) -> Seq<(Seq<char>, JsonView)> {
    match lookup(entries, "inputs"@) {
        Some(value) => members(value),
        None => Seq::empty(),
    }
}

/// What the inputs of a `derived-from` node declare.
pub open spec fn inputs_declared(
    instance: Seq<char>,
    inputs: Seq<(Seq<char>, JsonView)>,
    top: Seq<(Seq<char>, JsonView)>,
) -> Seq<DeclarationView> {
    inputs.map_values(|e: (Seq<char>, JsonView)| input_declared(instance, e.0, e.1, top))
}

/// What a meta block declares: its `dependsOn` expressions.
pub open spec fn meta_declared(instance: Seq<char>, meta: JsonView) -> Seq<DeclarationView> {
    match meta_from(meta) {
        Ok(meta) => meta.depends_on.map_values(|expr: JqExprView| DeclarationView::DependsOn(expr)),
        Err(message) => seq![
            DeclarationView::Invalid(DagErrorView::MetadataParse { instance, message }),
        ],
    }
}

/// What a node in the scope of `instance` declares, with all that is under it:
/// - `__nixhapi` is a string `derived-from`: its inputs;
/// - `__nixhapi` is any other string: nothing, it is a leaf;
/// - `__nixhapi` is an object: the directives in it, and what its other members declare;
/// - any other object: what its members declare;
/// - an array: what its items declare.
pub open spec fn declared(
    instance: Seq<char>,
    node: JsonView,
    top: Seq<(Seq<char>, JsonView)>,
) -> Seq<DeclarationView>
    decreases node, 0nat,
{
    match node {
        JsonView::Object(entries) => match lookup(entries, "__nixhapi"@) {
            Some(JsonView::String(tag)) => if tag == "derived-from"@ {
                inputs_declared(instance, inputs_of(entries), top)
            } else {
                Seq::empty()
            },
            Some(JsonView::Object(meta)) => meta_declared(instance, JsonView::Object(meta))
                + members_declared(instance, entries, entries.len(), top),
            _ => members_declared(instance, entries, entries.len(), top),
        },
        JsonView::Array(items) => items_declared(instance, items, items.len(), top),
        _ => Seq::empty(),
    }
}

/// What the first `n` items declare.
pub open spec fn items_declared(
    instance: Seq<char>,
    items: Seq<JsonView>,
    n: nat,
    top: Seq<(Seq<char>, JsonView)>,
) -> Seq<DeclarationView>
    decreases items, n,
{
    if n == 0 || n > items.len() {
        Seq::empty()
    } else {
        items_declared(instance, items, (n - 1) as nat, top) + declared(
            instance,
            items[n - 1],
            top,
        )
    }
}

/// What the first `n` members declare, apart from the directives.
pub open spec fn members_declared(
    instance: Seq<char>,
    entries: Seq<(Seq<char>, JsonView)>,
    n: nat,
    top: Seq<(Seq<char>, JsonView)>,
) -> Seq<DeclarationView>
    decreases entries, n,
{
    if n == 0 || n > entries.len() {
        Seq::empty()
    } else {
        let (key, child) = entries[n - 1];
        members_declared(instance, entries, (n - 1) as nat, top) + if key == "__nixhapi"@
            && child is Object {
            Seq::empty()
        } else {
            declared(instance, child, top)
        }
    }
}

/// What the input `alias` of a `derived-from` node declares.
fn declare_input(instance: &str, alias: &str, path: &Json, top: &StrMap<Json>) -> (declaration:
    Declaration)
    ensures
        declaration@ == input_declared(instance@, alias@, path@, entry_views(top@)),
{
    match path {
        Json::String(text) => match instance_from_input_path(text.as_str()) {
            Some(name) => {
                proof {
                    lemma_known(top@, name@);
                }
                if top.contains_key(name) {
                    Declaration::Reference(name.to_owned())
                } else {
                    Declaration::Invalid(
                        DagError::UnresolvedInputDependency {
                            instance: instance.to_owned(),
                            alias: alias.to_owned(),
                            referenced: name.to_owned(),
                        },
                    )
                }
            }
            None => Declaration::Invalid(
                DagError::InvalidInputPath {
                    instance: instance.to_owned(),
                    alias: alias.to_owned(),
                    path: text.clone(),
                },
            ),
        },
        other => Declaration::Invalid(
            DagError::InvalidInputPath {
                instance: instance.to_owned(),
                alias: alias.to_owned(),
                path: other.text(),
            },
        ),
    }
}

/// Views of values do not change which keys there are.
proof fn lemma_known<V: View>(entries: Seq<(Seq<char>, V)>, key: Seq<char>)
    ensures
        has_key(entry_views(entries), key) == has_key(entries, key),
{
    lemma_lookup(entries, key);
    lemma_lookup(entry_views(entries), key);
    lemma_views_lookup(entries, key);
}

/// Appends what a node in the scope of `instance` declares.
fn declare(instance: &str, node: &Json, top: &StrMap<Json>, found: &mut Vec<Declaration>)
    ensures
        views(final(found)@) == views(old(found)@) + declared(
            instance@,
            node@,
            entry_views(top@),
        ),
    decreases node,
{
    let ghost start = views(found@);
    let ghost known = entry_views(top@);
    let map = match node {
        Json::Object(map) => map,
        Json::Array(items) => {
            proof {
                lemma_array_view(*items);
            }
            let ghost all = views(items@);
            let mut i: usize = 0;
            assert(start + Seq::empty() =~= start);
            while i < items.len()
                invariant
                    i <= items@.len(),
                    *node == Json::Array(*items),
                    known == entry_views(top@),
                    all == views(items@),
                    views(found@) == start + items_declared(instance@, all, i as nat, known),
                decreases items.len() - i,
            {
                let ghost before = items_declared(instance@, all, i as nat, known);
                assert(decreases_to!(*node => node->Array_0));
                declare(instance, &items[i], top, found);
                assert((start + before) + declared(instance@, all[i as int], known) =~= start + (
                before + declared(instance@, all[i as int], known)));
                i = i + 1;
            }
            return;
        }
        _ => {
            assert(start + Seq::empty() =~= start);
            return;
        }
    };
    proof {
        lemma_object_view(*map);
    }
    let ghost entries = entry_views(map@);
    proof {
        lemma_views_lookup(map@, "__nixhapi"@);
        lemma_views_lookup(map@, "inputs"@);
    }
    match map.get("__nixhapi") {
        Some(Json::String(tag)) => {
            if text_eq(tag.as_str(), "derived-from") {
                declare_inputs(instance, map, top, found);
            } else {
                assert(start + Seq::empty() =~= start);
            }
            return;
        }
        Some(Json::Object(meta)) => {
            let ghost block = Json::Object(*meta)@;
            proof {
                lemma_object_view(*meta);
            }
            match NixHapiMeta::from_json(map.get("__nixhapi").unwrap()) {
                Ok(meta) => {
                    declare_expressions(&meta.depends_on, found);
                }
                Err(message) => {
                    let fault = DagError::MetadataParse { instance: instance.to_owned(), message };
                    proof {
                        lemma_views_push(found@, Declaration::Invalid(fault));
                    }
                    found.push(Declaration::Invalid(fault));
                    assert(views(found@) =~= start + meta_declared(instance@, block));
                }
            }
            assert(views(found@) == start + meta_declared(instance@, block));
        }
        _ => {
            assert(start + Seq::empty() =~= start);
        }
    }
    let ghost middle = views(found@);
    let mut i: usize = 0;
    assert(middle + Seq::empty() =~= middle);
    while i < map.len()
        invariant
            i <= map@.len(),
            *node == Json::Object(*map),
            known == entry_views(top@),
            entries == entry_views(map@),
            views(found@) == middle + members_declared(instance@, entries, i as nat, known),
        decreases map@.len() - i,
    {
        let ghost before = members_declared(instance@, entries, i as nat, known);
        let key = map.key_at(i);
        let child = map.value_at(i);
        assert(entries[i as int] == (key@, child@));
        if !(text_eq(key, "__nixhapi") && child.as_object().is_some()) {
            proof {
                lemma_value_smaller(*map, i as int);
                assert(decreases_to!(*node => node->Object_0));
            }
            declare(instance, child, top, found);
            assert((middle + before) + declared(instance@, entries[i as int].1, known) =~= middle
                + (before + declared(instance@, entries[i as int].1, known)));
        } else {
            assert(before + Seq::empty() =~= before);
        }
        i = i + 1;
    }
    proof {
        let under = members_declared(instance@, entries, entries.len(), known);
        if let Some(JsonView::Object(meta)) = lookup(entries, "__nixhapi"@) {
            let block = meta_declared(instance@, JsonView::Object(meta));
            assert((start + block) + under =~= start + (block + under));
        }
    }
}

/// Appends what the inputs of a `derived-from` node declare.
fn declare_inputs(
    instance: &str,
    map: &StrMap<Json>,
    top: &StrMap<Json>,
    found: &mut Vec<Declaration>,
)
    ensures
        views(final(found)@) == views(old(found)@) + inputs_declared(
            instance@,
            inputs_of(entry_views(map@)),
            entry_views(top@),
        ),
{
    let ghost start = views(found@);
    let ghost known = entry_views(top@);
    proof {
        lemma_views_lookup(map@, "inputs"@);
    }
    let ghost declarations = inputs_declared(
        instance@,
        inputs_of(entry_views(map@)),
        entry_views(top@),
    );
    if let Some(value) = map.get("inputs") {
        if let Some(inputs) = value.as_object() {
            let mut i: usize = 0;
            assert(start + declarations.take(0) =~= start);
            while i < inputs.len()
                invariant
                    i <= inputs@.len(),
                    known == entry_views(top@),
                    declarations == inputs_declared(instance@, entry_views(inputs@), known),
                    views(found@) == start + declarations.take(i as int),
                decreases inputs@.len() - i,
            {
                let declaration = declare_input(
                    instance,
                    inputs.key_at(i),
                    inputs.value_at(i),
                    top,
                );
                proof {
                    lemma_views_push(found@, declaration);
                    assert(declarations[i as int] == declaration@);
                    assert((start + declarations.take(i as int)).push(declaration@) =~= start
                        + declarations.take(i + 1));
                }
                found.push(declaration);
                i = i + 1;
            }
            assert(declarations.take(i as int) =~= declarations);
            return;
        }
    }
    assert(declarations =~= Seq::empty());
    assert(start + declarations =~= start);
}

/// Appends a declaration for each `dependsOn` expression.
fn declare_expressions(exprs: &Vec<JqExpr>, found: &mut Vec<Declaration>)
    ensures
        views(final(found)@) == views(old(found)@) + views(exprs@).map_values(
            |expr: JqExprView| DeclarationView::DependsOn(expr),
        ),
{
    let ghost start = views(found@);
    let ghost declarations = views(exprs@).map_values(
        |expr: JqExprView| DeclarationView::DependsOn(expr),
    );
    let mut i: usize = 0;
    assert(start + declarations.take(0) =~= start);
    while i < exprs.len()
        invariant
            i <= exprs@.len(),
            declarations == views(exprs@).map_values(
                |expr: JqExprView| DeclarationView::DependsOn(expr),
            ),
            views(found@) == start + declarations.take(i as int),
        decreases exprs.len() - i,
    {
        let declaration = Declaration::DependsOn(exprs[i].copy());
        proof {
            lemma_views_push(found@, declaration);
            assert(declarations[i as int] == declaration@);
            assert((start + declarations.take(i as int)).push(declaration@) =~= start
                + declarations.take(i + 1));
        }
        found.push(declaration);
        i = i + 1;
    }
    assert(declarations.take(i as int) =~= declarations);
}

/// What is declared in the scope of `instance`, in the order of the walk.
pub fn declarations(instance: &str, scope: &Json, top: &StrMap<Json>) -> (found: Vec<Declaration>)
    ensures
        views(found@) == declared(instance@, scope@, entry_views(top@)),
{
    let mut found: Vec<Declaration> = Vec::new();
    assert(views(found@) =~= Seq::empty());
    declare(instance, scope, top, &mut found);
    assert(Seq::empty() + declared(instance@, scope@, entry_views(top@)) =~= declared(
        instance@,
        scope@,
        entry_views(top@),
    ));
    found
}

/// The error for a failed evaluation of `expression` on behalf of `instance`.
pub open spec fn jq_error(
    instance: Seq<char>,
    expression: Seq<char>,
    failure: JqFailureView,
) -> DagErrorView {
    match failure {
        JqFailureView::Parse(message) => DagErrorView::ExpressionParse {
            instance,
            expression,
            message,
        },
        JqFailureView::Compile(message) => DagErrorView::ExpressionCompile {
            instance,
            expression,
            message,
        },
        JqFailureView::Runtime(message) => DagErrorView::ExpressionRuntime {
            instance,
            expression,
            message,
        },
        JqFailureView::NoOutput => DagErrorView::ExpressionNoOutput { instance, expression },
        JqFailureView::Refused => DagErrorView::ExpressionRefused { instance, expression },
    }
}

/// The error for a failed evaluation of `expression` on behalf of `instance`.
pub fn evaluation_error(instance: &str, expression: &str, failure: JqFailure) -> (error: DagError)
    ensures
        error@ == jq_error(instance@, expression@, failure@),
{
    let instance = instance.to_owned();
    let expression = expression.to_owned();
    match failure {
        JqFailure::Parse(message) => DagError::ExpressionParse { instance, expression, message },
        JqFailure::Compile(message) => DagError::ExpressionCompile {
            instance,
            expression,
            message,
        },
        JqFailure::Runtime(message) => DagError::ExpressionRuntime {
            instance,
            expression,
            message,
        },
        JqFailure::NoOutput => DagError::ExpressionNoOutput { instance, expression },
        JqFailure::Refused => DagError::ExpressionRefused { instance, expression },
    }
}

/// The name of the first of the top-level values, from `i` on, that equals `value`.
pub open spec fn instance_with(
    top: Seq<(Seq<char>, JsonView)>,
    value: JsonView,
    i: int,
) -> Option<Seq<char>>
    decreases top.len() - i,
{
    if i < 0 || i >= top.len() {
        None
    } else if same_json(top[i].1, value) {
        Some(top[i].0)
    } else {
        instance_with(top, value, i + 1)
    }
}

/// The instance that a `dependsOn` expression stands for, given the outcome of its evaluation:
/// the first whose scope equals the output.
pub open spec fn dependency_of(
    instance: Seq<char>,
    expression: Seq<char>,
    top: Seq<(Seq<char>, JsonView)>,
    outcome: Result<JsonView, JqFailureView>,
) -> Result<Seq<char>, DagErrorView> {
    match outcome {
        Err(failure) => Err(jq_error(instance, expression, failure)),
        Ok(value) => match instance_with(top, value, 0) {
            Some(name) => Ok(name),
            None => Err(DagErrorView::UnresolvedDependency { instance, expression }),
        },
    }
}

/// The instance that a `dependsOn` expression stands for, given the outcome of its evaluation.
pub fn resolve_dependency(
    instance: &str,
    expression: &str,
    top: &StrMap<Json>,
    outcome: Result<Json, JqFailure>,
) -> (dependency: Result<String, DagError>)
    ensures
        result_view(dependency) == dependency_of(
            instance@,
            expression@,
            entry_views(top@),
            result_view(outcome),
        ),
{
    let value = match outcome {
        Err(failure) => {
            return Err(evaluation_error(instance, expression, failure));
        }
        Ok(value) => value,
    };
    let ghost known = entry_views(top@);
    let mut i: usize = 0;
    while i < top.len()
        invariant
            i <= top@.len(),
            known == entry_views(top@),
            result_view(outcome) == Ok::<JsonView, JqFailureView>(value@),
            instance_with(known, value@, 0) == instance_with(known, value@, i as int),
        decreases top@.len() - i,
    {
        if top.value_at(i).same(&value) {
            return Ok(top.key_at(i).to_owned());
        }
        i = i + 1;
    }
    Err(
        DagError::UnresolvedDependency {
            instance: instance.to_owned(),
            expression: expression.to_owned(),
        },
    )
}

/// The dependencies with one more; an instance does not count as its own dependency.
pub open spec fn with_dependency(
    deps: Seq<(Seq<char>, ())>,
    instance: Seq<char>,
    dependency: Seq<char>,
) -> Seq<(Seq<char>, ())> {
    if dependency == instance {
        deps
    } else {
        put(deps, dependency, ())
    }
}

/// That `outcome` may come of what is declared in the scope of `instance`, after `deps` were
/// found: the declarations are worked off in order, up to the first fault.
pub open spec fn settles(
    instance: Seq<char>,
    declarations: Seq<DeclarationView>,
    root: JsonView,
    sources: SourcesView,
    deps: Seq<(Seq<char>, ())>,
    outcome: Result<Seq<(Seq<char>, ())>, DagErrorView>,
) -> bool
    decreases declarations.len(),
{
    if declarations.len() == 0 {
        outcome == Ok::<Seq<(Seq<char>, ())>, DagErrorView>(deps)
    } else {
        let rest = declarations.drop_first();
        match declarations[0] {
            DeclarationView::Invalid(error) => outcome == Err::<
                Seq<(Seq<char>, ())>,
                DagErrorView,
            >(error),
            DeclarationView::Reference(name) => settles(
                instance,
                rest,
                root,
                sources,
                with_dependency(deps, instance, name),
                outcome,
            ),
            DeclarationView::DependsOn(expr) => match expression_text(expr, sources) {
                Err(source) => outcome == Err::<Seq<(Seq<char>, ())>, DagErrorView>(
                    DagErrorView::ExpressionFile { instance, source },
                ),
                Ok(text) => exists|answer: Result<JsonView, JqFailureView>| #[trigger]
                    may_answer(text, text, root, answer) && match dependency_of(
                        instance,
                        text,
                        members(root),
                        answer,
                    ) {
                        Err(error) => outcome == Err::<Seq<(Seq<char>, ())>, DagErrorView>(error),
                        Ok(name) => settles(
                            instance,
                            rest,
                            root,
                            sources,
                            with_dependency(deps, instance, name),
                            outcome,
                        ),
                    },
            },
        }
    }
}

/// That `outcome` may come of the scopes from the `i`-th on, after `edges` were found.
pub open spec fn scopes_settle(
    root: JsonView,
    sources: SourcesView,
    i: int,
    edges: Seq<(Seq<char>, Seq<Seq<char>>)>,
    outcome: Result<Seq<(Seq<char>, Seq<Seq<char>>)>, DagErrorView>,
) -> bool
    decreases members(root).len() - i,
{
    let top = members(root);
    if i < 0 || i >= top.len() {
        outcome == Ok::<Seq<(Seq<char>, Seq<Seq<char>>)>, DagErrorView>(edges)
    } else {
        let (name, scope) = top[i];
        exists|found: Result<Seq<(Seq<char>, ())>, DagErrorView>| #[trigger]
            settles(name, declared(name, scope, top), root, sources, Seq::empty(), found)
                && match found {
                Err(error) => outcome == Err::<Seq<(Seq<char>, Seq<Seq<char>>)>, DagErrorView>(
                    error,
                ),
                Ok(deps) => scopes_settle(
                    root,
                    sources,
                    i + 1,
                    edges.push((name, keys_of(deps))),
                    outcome,
                ),
            }
    }
}

/// That `outcome` may be the dependency graph of the instances in `root`: each instance in the
/// order of the names, with the names of its direct dependencies in ascending order.
pub open spec fn collected(
    root: JsonView,
    sources: SourcesView,
    outcome: Result<Seq<(Seq<char>, Seq<Seq<char>>)>, DagErrorView>,
) -> bool {
    scopes_settle(root, sources, 0, Seq::empty(), outcome)
}

/// The dependencies of `instance`, from what is declared in its scope.
fn settle(
    instance: &str,
    declarations: Vec<Declaration>,
    root: &Json,
    top: &StrMap<Json>,
    sources: &Sources,
) -> (outcome: Result<StrMap<()>, DagError>)
    requires
        members(root@) == entry_views(top@),
    ensures
        settles(
            instance@,
            views(declarations@),
            root@,
            sources@,
            Seq::empty(),
            match outcome {
                Ok(deps) => Ok(deps@),
                Err(error) => Err(error@),
            },
        ),
{
    let ghost all = views(declarations@);
    let mut deps: StrMap<()> = StrMap::new();
    let mut i: usize = 0;
    assert(all.skip(0) =~= all);
    while i < declarations.len()
        invariant
            all == views(declarations@),
            members(root@) == entry_views(top@),
            i <= declarations@.len(),
            forall|outcome: Result<Seq<(Seq<char>, ())>, DagErrorView>| #[trigger]
                settles(instance@, all.skip(i as int), root@, sources@, deps@, outcome) ==> settles(
                    instance@,
                    all,
                    root@,
                    sources@,
                    Seq::empty(),
                    outcome,
                ),
        decreases declarations.len() - i,
    {
        let ghost here = all.skip(i as int);
        assert(here.len() > 0);
        assert(here[0] == declarations@[i as int]@);
        assert(here.drop_first() =~= all.skip(i + 1));
        let ghost before = deps@;
        match &declarations[i] {
            Declaration::Invalid(error) => {
                let error = error.copy();
                assert(settles(
                    instance@,
                    here,
                    root@,
                    sources@,
                    deps@,
                    Err::<Seq<(Seq<char>, ())>, DagErrorView>(error@),
                ));
                return Err(error);
            }
            Declaration::Reference(name) => {
                if !text_eq(name.as_str(), instance) {
                    deps = deps.put(name.clone(), ());
                }
                assert(deps@ == with_dependency(before, instance@, name@));
            }
            Declaration::DependsOn(expr) => {
                let text = match expr.resolve(sources) {
                    Err(source) => {
                        let error = DagError::ExpressionFile {
                            instance: instance.to_owned(),
                            source,
                        };
                        assert(settles(
                            instance@,
                            here,
                            root@,
                            sources@,
                            deps@,
                            Err::<Seq<(Seq<char>, ())>, DagErrorView>(error@),
                        ));
                        return Err(error);
                    }
                    Ok(text) => text,
                };
                let answer = evaluate(text.as_str(), text.as_str(), root);
                let ghost given = result_view(answer);
                assert(may_answer(text@, text@, root@, given));
                match resolve_dependency(instance, text.as_str(), top, answer) {
                    Err(error) => {
                        assert(settles(
                            instance@,
                            here,
                            root@,
                            sources@,
                            deps@,
                            Err::<Seq<(Seq<char>, ())>, DagErrorView>(error@),
                        ));
                        return Err(error);
                    }
                    Ok(name) => {
                        if !text_eq(name.as_str(), instance) {
                            deps = deps.put(name.clone(), ());
                        }
                        assert(deps@ == with_dependency(before, instance@, name@));
                    }
                }
            }
        }
        assert forall|outcome: Result<Seq<(Seq<char>, ())>, DagErrorView>| #[trigger]
            settles(
                instance@,
                all.skip(i + 1),
                root@,
                sources@,
                deps@,
                outcome,
            ) implies settles(instance@, all, root@, sources@, Seq::empty(), outcome) by {
            assert(settles(instance@, here, root@, sources@, before, outcome));
        }
        i = i + 1;
    }
    assert(all.skip(i as int).len() == 0);
    assert(settles(
        instance@,
        all.skip(i as int),
        root@,
        sources@,
        deps@,
        Ok::<Seq<(Seq<char>, ())>, DagErrorView>(deps@),
    ));
    Ok(deps)
}

/// A fault in the `i`-th scope is the outcome.
proof fn lemma_scope_fails(
    root: JsonView,
    sources: SourcesView,
    i: int,
    edges: Seq<(Seq<char>, Seq<Seq<char>>)>,
    error: DagErrorView,
)
    requires
        0 <= i < members(root).len(),
        settles(
            members(root)[i].0,
            declared(members(root)[i].0, members(root)[i].1, members(root)),
            root,
            sources,
            Seq::empty(),
            Err::<Seq<(Seq<char>, ())>, DagErrorView>(error),
        ),
    ensures
        scopes_settle(
            root,
            sources,
            i,
            edges,
            Err::<Seq<(Seq<char>, Seq<Seq<char>>)>, DagErrorView>(error),
        ),
{
}

/// Without a fault in the `i`-th scope, the outcome is that of the scopes after it.
proof fn lemma_scope_found(
    root: JsonView,
    sources: SourcesView,
    i: int,
    edges: Seq<(Seq<char>, Seq<Seq<char>>)>,
    deps: Seq<(Seq<char>, ())>,
    outcome: Result<Seq<(Seq<char>, Seq<Seq<char>>)>, DagErrorView>,
)
    requires
        0 <= i < members(root).len(),
        settles(
            members(root)[i].0,
            declared(members(root)[i].0, members(root)[i].1, members(root)),
            root,
            sources,
            Seq::empty(),
            Ok::<Seq<(Seq<char>, ())>, DagErrorView>(deps),
        ),
        scopes_settle(
            root,
            sources,
            i + 1,
            edges.push((members(root)[i].0, keys_of(deps))),
            outcome,
        ),
    ensures
        scopes_settle(root, sources, i, edges, outcome),
{
}

/// Collects the dependency graph by walking every top-level instance scope.
fn collect_edges(root: &Json, sources: &Sources) -> (edges: Result<StrMap<Vec<String>>, DagError>)
    ensures
        match edges {
            Ok(edges) => collected(
                root@,
                sources@,
                Ok::<Seq<(Seq<char>, Seq<Seq<char>>)>, DagErrorView>(list_views(edges@)),
            ) && ascending(members(root@)),
            Err(error) => collected(
                root@,
                sources@,
                Err::<Seq<(Seq<char>, Seq<Seq<char>>)>, DagErrorView>(error@),
            ),
        },
{
    let mut edges: StrMap<Vec<String>> = StrMap::new();
    assert(list_views(edges@) =~= Seq::empty());
    let top = match root.as_object() {
        Some(top) => top,
        None => {
            return Ok(edges);
        }
    };
    let ghost known = entry_views(top@);
    let mut i: usize = 0;
    while i < top.len()
        invariant
            i <= top@.len(),
            known == entry_views(top@),
            members(root@) == known,
            ascending(known),
            list_views(edges@).len() == i,
            forall|k: int| 0 <= k < i ==> (#[trigger] list_views(edges@)[k]).0 == known[k].0,
            forall|outcome: Result<Seq<(Seq<char>, Seq<Seq<char>>)>, DagErrorView>| #[trigger]
                scopes_settle(root@, sources@, i as int, list_views(edges@), outcome) ==> collected(
                    root@,
                    sources@,
                    outcome,
                ),
        decreases top@.len() - i,
    {
        let name = top.key_at(i);
        let scope = top.value_at(i);
        let found = declarations(name, scope, top);
        match settle(name, found, root, top, sources) {
            Err(error) => {
                proof {
                    assert(known[i as int] == (name@, scope@));
                    lemma_scope_fails(root@, sources@, i as int, list_views(edges@), error@);
                }
                return Err(error);
            }
            Ok(deps) => {
                let names = deps.keys();
                let ghost before = list_views(edges@);
                proof {
                    lemma_lists_put(edges@, name@, names);
                    assert forall|k: int| 0 <= k < before.len() implies text_lt(
                        (#[trigger] before[k]).0,
                        name@,
                    ) by {
                        assert(known[k].0 == before[k].0);
                        assert(known[i as int].0 == name@);
                    }
                    lemma_put_last(before, name@, views(names@));
                }
                edges = edges.put(name.to_owned(), names);
                assert forall|outcome: Result<
                    Seq<(Seq<char>, Seq<Seq<char>>)>,
                    DagErrorView,
                >| #[trigger]
                    scopes_settle(
                        root@,
                        sources@,
                        i + 1,
                        list_views(edges@),
                        outcome,
                    ) implies collected(root@, sources@, outcome) by {
                    assert(known[i as int] == (name@, scope@));
                    lemma_scope_found(root@, sources@, i as int, before, deps@, outcome);
                }
            }
        }
        i = i + 1;
    }
    assert(scopes_settle(
        root@,
        sources@,
        i as int,
        list_views(edges@),
        Ok::<Seq<(Seq<char>, Seq<Seq<char>>)>, DagErrorView>(list_views(edges@)),
    ));
    Ok(edges)
}

/// Every reference names a top-level instance.
pub open spec fn known_references(
    declarations: Seq<DeclarationView>,
    top: Seq<(Seq<char>, JsonView)>,
) -> bool {
    forall|k: int|
        0 <= k < declarations.len() ==> ((#[trigger] declarations[k]) matches
            DeclarationView::Reference(name) ==> has_key(top, name))
}

/// The walk declares references to known instances only.
proof fn lemma_declared_known(
    instance: Seq<char>,
    node: JsonView,
    top: Seq<(Seq<char>, JsonView)>,
)
    ensures
        known_references(declared(instance, node, top), top),
    decreases node, 0nat,
{
    match node {
        JsonView::Object(entries) => lemma_members_known(instance, entries, entries.len(), top),
        JsonView::Array(items) => lemma_items_known(instance, items, items.len(), top),
        _ => {},
    }
}

proof fn lemma_items_known(
    instance: Seq<char>,
    items: Seq<JsonView>,
    n: nat,
    top: Seq<(Seq<char>, JsonView)>,
)
    ensures
        known_references(items_declared(instance, items, n, top), top),
    decreases items, n,
{
    if n > 0 && n <= items.len() {
        lemma_items_known(instance, items, (n - 1) as nat, top);
        lemma_declared_known(instance, items[n - 1], top);
    }
}

proof fn lemma_members_known(
    instance: Seq<char>,
    entries: Seq<(Seq<char>, JsonView)>,
    n: nat,
    top: Seq<(Seq<char>, JsonView)>,
)
    ensures
        known_references(members_declared(instance, entries, n, top), top),
    decreases entries, n,
{
    if n > 0 && n <= entries.len() {
        lemma_members_known(instance, entries, (n - 1) as nat, top);
        lemma_declared_known(instance, entries[n - 1].1, top);
    }
}

/// The instance that a value stands for is among the top-level instances.
proof fn lemma_instance_with(top: Seq<(Seq<char>, JsonView)>, value: JsonView, i: int)
    ensures
        instance_with(top, value, i) matches Some(name) ==> has_key(top, name),
    decreases top.len() - i,
{
    if 0 <= i < top.len() && !same_json(top[i].1, value) {
        lemma_instance_with(top, value, i + 1);
    } else if 0 <= i < top.len() {
        assert(top[i].0 == top[i].0);
    }
}

/// All names in `deps` are names of top-level instances other than `instance`, in ascending
/// order.
pub open spec fn proper_dependencies(
    deps: Seq<(Seq<char>, ())>,
    instance: Seq<char>,
    top: Seq<(Seq<char>, JsonView)>,
) -> bool {
    &&& ascending(deps)
    &&& forall|name: Seq<char>| #[trigger]
        lookup(deps, name) is Some ==> has_key(top, name) && name != instance
}

proof fn lemma_with_dependency(
    deps: Seq<(Seq<char>, ())>,
    instance: Seq<char>,
    name: Seq<char>,
    top: Seq<(Seq<char>, JsonView)>,
)
    requires
        proper_dependencies(deps, instance, top),
        has_key(top, name),
    ensures
        proper_dependencies(with_dependency(deps, instance, name), instance, top),
        forall|other: Seq<char>|
            lookup(deps, other) is Some ==> (#[trigger] lookup(
                with_dependency(deps, instance, name),
                other,
            )) is Some,
        name != instance ==> lookup(with_dependency(deps, instance, name), name) is Some,
{
    lemma_put_ascending(deps, name, ());
    assert forall|other: Seq<char>| true implies #[trigger] lookup(put(deps, name, ()), other)
        == if other == name {
        Some(())
    } else {
        lookup(deps, other)
    } by {
        lemma_lookup_put(deps, name, (), other);
    }
}

/// What a walk without a fault leaves: proper dependencies, those from before among them, and
/// every instance that is referred to.
proof fn lemma_settles(
    instance: Seq<char>,
    declarations: Seq<DeclarationView>,
    root: JsonView,
    sources: SourcesView,
    deps: Seq<(Seq<char>, ())>,
    out: Seq<(Seq<char>, ())>,
)
    requires
        settles(
            instance,
            declarations,
            root,
            sources,
            deps,
            Ok::<Seq<(Seq<char>, ())>, DagErrorView>(out),
        ),
        known_references(declarations, members(root)),
        proper_dependencies(deps, instance, members(root)),
    ensures
        proper_dependencies(out, instance, members(root)),
        forall|name: Seq<char>|
            lookup(deps, name) is Some ==> (#[trigger] lookup(out, name)) is Some,
        forall|k: int|
            0 <= k < declarations.len() ==> match #[trigger] declarations[k] {
                DeclarationView::Reference(name) => name != instance ==> lookup(out, name) is Some,
                DeclarationView::Invalid(_) => false,
                DeclarationView::DependsOn(_) => true,
            },
    decreases declarations.len(),
{
    let top = members(root);
    if declarations.len() > 0 {
        let rest = declarations.drop_first();
        assert(known_references(rest, top)) by {
            assert forall|k: int| 0 <= k < rest.len() implies ((#[trigger] rest[k]) matches
                DeclarationView::Reference(name) ==> has_key(top, name)) by {
                assert(rest[k] == declarations[k + 1]);
            }
        }
        let name = match declarations[0] {
            DeclarationView::Reference(name) => name,
            DeclarationView::DependsOn(expr) => {
                let text = expression_text(expr, sources)->Ok_0;
                let answer = choose|answer: Result<JsonView, JqFailureView>| #[trigger]
                    may_answer(text, text, root, answer) && match dependency_of(
                        instance,
                        text,
                        members(root),
                        answer,
                    ) {
                        Err(error) => false,
                        Ok(name) => settles(
                            instance,
                            rest,
                            root,
                            sources,
                            with_dependency(deps, instance, name),
                            Ok::<Seq<(Seq<char>, ())>, DagErrorView>(out),
                        ),
                    };
                lemma_instance_with(top, answer->Ok_0, 0);
                dependency_of(instance, text, members(root), answer)->Ok_0
            },
            DeclarationView::Invalid(_) => Seq::empty(),
        };
        lemma_with_dependency(deps, instance, name, top);
        lemma_settles(
            instance,
            rest,
            root,
            sources,
            with_dependency(deps, instance, name),
            out,
        );
        assert forall|other: Seq<char>| lookup(deps, other) is Some implies (#[trigger] lookup(
            out,
            other,
        )) is Some by {
            assert(lookup(with_dependency(deps, instance, name), other) is Some);
        }
        assert forall|k: int| 0 <= k < declarations.len() implies match #[trigger] declarations[k] {
            DeclarationView::Reference(name) => name != instance ==> lookup(out, name) is Some,
            DeclarationView::Invalid(_) => false,
            DeclarationView::DependsOn(_) => true,
        } by {
            if k > 0 {
                assert(rest[k - 1] == declarations[k]);
            }
        }
    }
}

/// What the graph holds of the first `n` instances: their names, and for each the dependencies
/// that its scope declares.
pub open spec fn edges_hold(
    root: JsonView,
    sources: SourcesView,
    edges: Seq<(Seq<char>, Seq<Seq<char>>)>,
    n: int,
) -> bool {
    &&& edges.len() == n
    &&& forall|k: int|
        0 <= k < n ==> (#[trigger] edges[k]).0 == members(root)[k].0 && exists|
            deps: Seq<(Seq<char>, ())>,
        | #[trigger]
            keys_of(deps) == edges[k].1 && settles(
                edges[k].0,
                declared(edges[k].0, members(root)[k].1, members(root)),
                root,
                sources,
                Seq::empty(),
                Ok::<Seq<(Seq<char>, ())>, DagErrorView>(deps),
            )
}

pub(crate) proof fn lemma_scopes_settle(
    root: JsonView,
    sources: SourcesView,
    i: int,
    edges: Seq<(Seq<char>, Seq<Seq<char>>)>,
    out: Seq<(Seq<char>, Seq<Seq<char>>)>,
)
    requires
        0 <= i <= members(root).len(),
        edges_hold(root, sources, edges, i),
        scopes_settle(
            root,
            sources,
            i,
            edges,
            Ok::<Seq<(Seq<char>, Seq<Seq<char>>)>, DagErrorView>(out),
        ),
    ensures
        edges_hold(root, sources, out, members(root).len() as int),
    decreases members(root).len() - i,
{
    let top = members(root);
    if i < top.len() {
        let (name, scope) = top[i];
        let outcome = Ok::<Seq<(Seq<char>, Seq<Seq<char>>)>, DagErrorView>(out);
        let found = choose|found: Result<Seq<(Seq<char>, ())>, DagErrorView>| #[trigger]
            settles(name, declared(name, scope, top), root, sources, Seq::empty(), found)
                && match found {
                Err(error) => outcome == Err::<Seq<(Seq<char>, Seq<Seq<char>>)>, DagErrorView>(
                    error,
                ),
                Ok(deps) => scopes_settle(
                    root,
                    sources,
                    i + 1,
                    edges.push((name, keys_of(deps))),
                    outcome,
                ),
            };
        let deps = found->Ok_0;
        let more = edges.push((name, keys_of(deps)));
        assert(keys_of(deps) == more[i].1);
        assert forall|k: int| 0 <= k < i + 1 implies (#[trigger] more[k]).0 == top[k].0 && exists|
            deps: Seq<(Seq<char>, ())>,
        | #[trigger]
            keys_of(deps) == more[k].1 && settles(
                more[k].0,
                declared(more[k].0, top[k].1, top),
                root,
                sources,
                Seq::empty(),
                Ok::<Seq<(Seq<char>, ())>, DagErrorView>(deps),
            ) by {
            if k < i {
                assert(more[k] == edges[k]);
            }
        }
        lemma_scopes_settle(root, sources, i + 1, more, out);
    }
}

/// The dependency graph has the top-level instances as its nodes, in their order; the
/// dependencies of each are other instances, in ascending order.
pub proof fn law_graph_of_instances(
    root: JsonView,
    sources: SourcesView,
    edges: Seq<(Seq<char>, Seq<Seq<char>>)>,
)
    requires
        collected(root, sources, Ok::<Seq<(Seq<char>, Seq<Seq<char>>)>, DagErrorView>(edges)),
    ensures
        keys_of(edges) == keys_of(members(root)),
        closed_edges(edges),
        forall|i: int|
            0 <= i < edges.len() ==> sorted((#[trigger] edges[i]).1) && !edges[i].1.contains(
                edges[i].0,
            ),
{
    let top = members(root);
    lemma_scopes_settle(root, sources, 0, Seq::empty(), edges);
    assert(keys_of(edges) =~= keys_of(top));
    assert forall|i: int| 0 <= i < edges.len() implies sorted((#[trigger] edges[i]).1)
        && !edges[i].1.contains(edges[i].0) && forall|k: int|
        0 <= k < edges[i].1.len() ==> has_key(edges, #[trigger] edges[i].1[k]) by {
        let deps = choose|deps: Seq<(Seq<char>, ())>| #[trigger]
            keys_of(deps) == edges[i].1 && settles(
                edges[i].0,
                declared(edges[i].0, top[i].1, top),
                root,
                sources,
                Seq::empty(),
                Ok::<Seq<(Seq<char>, ())>, DagErrorView>(deps),
            );
        lemma_declared_known(edges[i].0, top[i].1, top);
        lemma_settles(
            edges[i].0,
            declared(edges[i].0, top[i].1, top),
            root,
            sources,
            Seq::empty(),
            deps,
        );
        assert forall|k: int| 0 <= k < edges[i].1.len() implies has_key(
            edges,
            #[trigger] edges[i].1[k],
        ) && edges[i].1[k] != edges[i].0 by {
            let name = edges[i].1[k];
            assert(deps[k].0 == name);
            lemma_lookup_at(deps, k);
            assert(has_key(top, name));
            let j = choose|j: int| 0 <= j < top.len() && (#[trigger] top[j]).0 == name;
            assert(edges[j].0 == name);
        }
        assert forall|k: int, l: int| 0 <= k < l < edges[i].1.len() implies text_lt(
            #[trigger] edges[i].1[k],
            #[trigger] edges[i].1[l],
        ) by {
            assert(text_lt(deps[k].0, deps[l].0));
        }
    }
}

/// That `waves` follow from the outcome of collecting the graph: its waves, or the error, where
/// a graph with a cycle is an error of its own.
pub open spec fn waves_follow(
    edges: Result<Seq<(Seq<char>, Seq<Seq<char>>)>, DagErrorView>,
    waves: Result<Seq<Seq<Seq<char>>>, DagErrorView>,
) -> bool {
    match (edges, waves) {
        (Ok(edges), Ok(waves)) => is_waves(edges, waves),
        (Ok(edges), Err(error)) => error == DagErrorView::Cycle && has_cycle(edges),
        (Err(fault), Err(error)) => error == fault,
        (Err(_), Ok(_)) => false,
    }
}

/// That `waves` may be the waves of the instances in `root`.
pub open spec fn may_have_waves(
    root: JsonView,
    sources: SourcesView,
    waves: Result<Seq<Seq<Seq<char>>>, DagErrorView>,
) -> bool {
    exists|edges: Result<Seq<(Seq<char>, Seq<Seq<char>>)>, DagErrorView>| #[trigger]
        collected(root, sources, edges) && waves_follow(edges, waves)
}

/// Groups provider instance names into sequential waves for parallel execution.
///
/// The wave index of an instance is 0 if it has no dependencies, and otherwise one more than the
/// greatest wave index among its dependencies.  Instances within a wave are in alphabetical
/// order.  There are no waves when `root` contains no instances.  A graph with a cycle is
/// [`DagError::Cycle`].
pub fn execution_waves(root: &Json, sources: &Sources) -> (waves: Result<
    Vec<Vec<String>>,
    DagError,
>)
    ensures
        may_have_waves(
            root@,
            sources@,
            match waves {
                Ok(waves) => Ok(wave_views(waves@)),
                Err(error) => Err(error@),
            },
        ),
{
    match collect_edges(root, sources) {
        Err(error) => Err(error),
        Ok(edges) => {
            proof {
                law_graph_of_instances(root@, sources@, list_views(edges@));
            }
            match dependency_waves(&edges) {
                Some(waves) => Ok(waves),
                None => Err(DagError::Cycle),
            }
        }
    }
}

/// Returns provider instance names in topological dependency order: wave after wave, so that
/// instances at the same dependency depth are in alphabetical order.
pub fn topological_order(root: &Json, sources: &Sources) -> (order: Result<
    Vec<String>,
    DagError,
>)
    ensures
        match order {
            Ok(order) => exists|waves: Seq<Seq<Seq<char>>>|
                views(order@) == #[trigger] in_order(waves) && may_have_waves(
                    root@,
                    sources@,
                    Ok::<Seq<Seq<Seq<char>>>, DagErrorView>(waves),
                ),
            Err(error) => may_have_waves(
                root@,
                sources@,
                Err::<Seq<Seq<Seq<char>>>, DagErrorView>(error@),
            ),
        },
{
    match execution_waves(root, sources) {
        Ok(waves) => Ok(flatten_waves(&waves)),
        Err(error) => Err(error),
    }
}

/// Where the graph could be had, the walk through the `i`-th instance's scope found no fault,
/// and the instance depends on every other instance that is referred to in it.
pub proof fn law_scope_without_fault(
    root: JsonView,
    sources: SourcesView,
    edges: Seq<(Seq<char>, Seq<Seq<char>>)>,
    i: int,
    k: int,
)
    requires
        collected(root, sources, Ok::<Seq<(Seq<char>, Seq<Seq<char>>)>, DagErrorView>(edges)),
        0 <= i < members(root).len(),
        0 <= k < declared(members(root)[i].0, members(root)[i].1, members(root)).len(),
    ensures
        match declared(members(root)[i].0, members(root)[i].1, members(root))[k] {
            DeclarationView::Reference(name) => name == members(root)[i].0 || depends(
                edges,
                members(root)[i].0,
                name,
            ),
            DeclarationView::Invalid(_) => false,
            DeclarationView::DependsOn(_) => true,
        },
{
    let top = members(root);
    let (instance, scope) = top[i];
    lemma_scopes_settle(root, sources, 0, Seq::empty(), edges);
    assert(edges[i].0 == instance);
    let deps = choose|deps: Seq<(Seq<char>, ())>| #[trigger]
        keys_of(deps) == edges[i].1 && settles(
            edges[i].0,
            declared(edges[i].0, top[i].1, top),
            root,
            sources,
            Seq::empty(),
            Ok::<Seq<(Seq<char>, ())>, DagErrorView>(deps),
        );
    lemma_declared_known(instance, scope, top);
    lemma_settles(instance, declared(instance, scope, top), root, sources, Seq::empty(), deps);
    if let DeclarationView::Reference(name) = declared(instance, scope, top)[k] {
        if name != instance {
            lemma_lookup(deps, name);
            let j = choose|j: int| 0 <= j < deps.len() && (#[trigger] deps[j]).0 == name;
            assert(edges[i].1[j] == name);
            assert(edges[i].1.contains(name));
        }
    }
}

/// The files that the first `n` declarations are to be read from.
pub open spec fn files_declared(declarations: Seq<DeclarationView>, n: int) -> Seq<Seq<char>>
    decreases n,
{
    if n <= 0 {
        Seq::empty()
    } else {
        let before = files_declared(declarations, n - 1);
        match declarations[n - 1] {
            DeclarationView::DependsOn(expr) => match expression_file(expr) {
                Some(path) => before.push(path),
                None => before,
            },
            _ => before,
        }
    }
}

/// The files that the `dependsOn` expressions of the first `n` instances are to be read from.
pub open spec fn files_of(root: JsonView, n: int) -> Seq<Seq<char>>
    decreases n,
{
    if n <= 0 {
        Seq::empty()
    } else {
        let (name, scope) = members(root)[n - 1];
        let found = declared(name, scope, members(root));
        files_of(root, n - 1) + files_declared(found, found.len() as int)
    }
}

/// The files that `dependsOn` expressions are to be read from, in the order of the walk.
pub fn expression_files(root: &Json) -> (files: Vec<String>)
    ensures
        views(files@) == files_of(root@, members(root@).len() as int),
{
    let mut files: Vec<String> = Vec::new();
    assert(views(files@) =~= Seq::empty());
    let top = match root.as_object() {
        Some(top) => top,
        None => {
            return files;
        }
    };
    let ghost known = entry_views(top@);
    let mut i: usize = 0;
    while i < top.len()
        invariant
            i <= top@.len(),
            known == entry_views(top@),
            members(root@) == known,
            views(files@) == files_of(root@, i as int),
        decreases top@.len() - i,
    {
        let found = declarations(top.key_at(i), top.value_at(i), top);
        let ghost before = views(files@);
        let ghost views_found = views(found@);
        let mut k: usize = 0;
        assert(before + Seq::empty() =~= before);
        while k < found.len()
            invariant
                k <= found@.len(),
                views_found == views(found@),
                views(files@) == before + files_declared(views_found, k as int),
            decreases found.len() - k,
        {
            let ghost so_far = files_declared(views_found, k as int);
            if let Declaration::DependsOn(expr) = &found[k] {
                if let Some(path) = expr.file() {
                    let path = path.to_owned();
                    proof {
                        lemma_views_push(files@, path);
                        assert((before + so_far).push(path@) =~= before + so_far.push(path@));
                    }
                    files.push(path);
                }
            }
            k = k + 1;
        }
        assert(known[i as int] == (top@[i as int].0, top@[i as int].1@));
        i = i + 1;
    }
    files
}

/// Two readings agree on the given files.
pub open spec fn agree_on(a: SourcesView, b: SourcesView, files: Seq<Seq<char>>) -> bool {
    forall|k: int|
        0 <= k < files.len() ==> reading_of(a.files, #[trigger] files[k]) == reading_of(
            b.files,
            files[k],
        )
}

/// A file that a declaration is to be read from is among those of all declarations.
pub(crate) proof fn lemma_file_declared(declarations: Seq<DeclarationView>, n: int, k: int)
    requires
        0 <= k < n <= declarations.len(),
    ensures
        declarations[k] matches DeclarationView::DependsOn(expr) ==> (expression_file(
            expr,
        ) matches Some(path) ==> files_declared(declarations, n).contains(path)),
    decreases n,
{
    if let DeclarationView::DependsOn(expr) = declarations[k] {
        if let Some(path) = expression_file(expr) {
            let before = files_declared(declarations, n - 1);
            let all = files_declared(declarations, n);
            if k == n - 1 {
                assert(all[all.len() - 1] == path);
            } else {
                lemma_file_declared(declarations, n - 1, k);
                let i = choose|i: int| 0 <= i < before.len() && before[i] == path;
                assert(all[i] == path);
            }
        }
    }
}

proof fn lemma_settles_agree(
    instance: Seq<char>,
    all: Seq<DeclarationView>,
    i: int,
    root: JsonView,
    a: SourcesView,
    b: SourcesView,
    deps: Seq<(Seq<char>, ())>,
    outcome: Result<Seq<(Seq<char>, ())>, DagErrorView>,
)
    requires
        0 <= i <= all.len(),
        agree_on(a, b, files_declared(all, all.len() as int)),
        settles(instance, all.skip(i), root, a, deps, outcome),
    ensures
        settles(instance, all.skip(i), root, b, deps, outcome),
    decreases all.len() - i,
{
    let declarations = all.skip(i);
    if i < all.len() {
        let rest = declarations.drop_first();
        assert(rest =~= all.skip(i + 1));
        assert(declarations[0] == all[i]);
        match declarations[0] {
            DeclarationView::Reference(name) => {
                lemma_settles_agree(
                    instance,
                    all,
                    i + 1,
                    root,
                    a,
                    b,
                    with_dependency(deps, instance, name),
                    outcome,
                );
            },
            DeclarationView::DependsOn(expr) => {
                lemma_file_declared(all, all.len() as int, i);
                assert(expression_text(expr, a) == expression_text(expr, b)) by {
                    if let Some(path) = expression_file(expr) {
                        let files = files_declared(all, all.len() as int);
                        let k = choose|k: int| 0 <= k < files.len() && files[k] == path;
                        assert(reading_of(a.files, files[k]) == reading_of(b.files, files[k]));
                    }
                }
                if let Ok(text) = expression_text(expr, a) {
                    let answer = choose|answer: Result<JsonView, JqFailureView>| #[trigger]
                        may_answer(text, text, root, answer) && match dependency_of(
                            instance,
                            text,
                            members(root),
                            answer,
                        ) {
                            Err(error) => outcome == Err::<Seq<(Seq<char>, ())>, DagErrorView>(
                                error,
                            ),
                            Ok(name) => settles(
                                instance,
                                rest,
                                root,
                                a,
                                with_dependency(deps, instance, name),
                                outcome,
                            ),
                        };
                    if let Ok(name) = dependency_of(instance, text, members(root), answer) {
                        lemma_settles_agree(
                            instance,
                            all,
                            i + 1,
                            root,
                            a,
                            b,
                            with_dependency(deps, instance, name),
                            outcome,
                        );
                    }
                    assert(may_answer(text, text, root, answer));
                }
            },
            DeclarationView::Invalid(_) => {},
        }
    }
}

pub(crate) proof fn lemma_files_of(root: JsonView, n: int, i: int)
    requires
        0 <= i < n <= members(root).len(),
    ensures
        ({
            let (name, scope) = members(root)[i];
            let found = declared(name, scope, members(root));
            forall|k: int|
                0 <= k < files_declared(found, found.len() as int).len() ==> files_of(
                    root,
                    n,
                ).contains(#[trigger] files_declared(found, found.len() as int)[k])
        }),
    decreases n,
{
    let (name, scope) = members(root)[i];
    let found = declared(name, scope, members(root));
    let files = files_declared(found, found.len() as int);
    let (last_name, last_scope) = members(root)[n - 1];
    let last = declared(last_name, last_scope, members(root));
    let before = files_of(root, n - 1);
    let after = files_declared(last, last.len() as int);
    assert forall|k: int| 0 <= k < files.len() implies files_of(root, n).contains(
        #[trigger] files[k],
    ) by {
        if i == n - 1 {
            assert((before + after)[before.len() + k] == files[k]);
        } else {
            lemma_files_of(root, n - 1, i);
            let j = choose|j: int| 0 <= j < before.len() && before[j] == files[k];
            assert((before + after)[j] == files[k]);
        }
    }
}

proof fn lemma_scopes_agree(
    root: JsonView,
    a: SourcesView,
    b: SourcesView,
    i: int,
    edges: Seq<(Seq<char>, Seq<Seq<char>>)>,
    outcome: Result<Seq<(Seq<char>, Seq<Seq<char>>)>, DagErrorView>,
)
    requires
        0 <= i <= members(root).len(),
        agree_on(a, b, files_of(root, members(root).len() as int)),
        scopes_settle(root, a, i, edges, outcome),
    ensures
        scopes_settle(root, b, i, edges, outcome),
    decreases members(root).len() - i,
{
    let top = members(root);
    if i < top.len() {
        let (name, scope) = top[i];
        let all = declared(name, scope, top);
        let found = choose|found: Result<Seq<(Seq<char>, ())>, DagErrorView>| #[trigger]
            settles(name, all, root, a, Seq::empty(), found) && match found {
                Err(error) => outcome == Err::<Seq<(Seq<char>, Seq<Seq<char>>)>, DagErrorView>(
                    error,
                ),
                Ok(deps) => scopes_settle(
                    root,
                    a,
                    i + 1,
                    edges.push((name, keys_of(deps))),
                    outcome,
                ),
            };
        assert(agree_on(a, b, files_declared(all, all.len() as int))) by {
            lemma_files_of(root, top.len() as int, i);
            let whole = files_of(root, top.len() as int);
            let files = files_declared(all, all.len() as int);
            assert forall|k: int| 0 <= k < files.len() implies reading_of(
                a.files,
                #[trigger] files[k],
            ) == reading_of(b.files, files[k]) by {
                assert(whole.contains(files[k]));
                let j = choose|j: int| 0 <= j < whole.len() && whole[j] == files[k];
                assert(reading_of(a.files, whole[j]) == reading_of(b.files, whole[j]));
            }
        }
        assert(all.skip(0) =~= all);
        lemma_settles_agree(name, all, 0, root, a, b, Seq::empty(), found);
        match found {
            Ok(deps) => {
                lemma_scopes_agree(root, a, b, i + 1, edges.push((name, keys_of(deps))), outcome);
                lemma_scope_found(root, b, i, edges, deps, outcome);
            },
            Err(error) => {
                lemma_scope_fails(root, b, i, edges, error);
            },
        }
    }
}

/// The waves depend on no other file than those that the `dependsOn` expressions are to be read
/// from: other readings change nothing.
pub proof fn law_only_expression_files_matter(
    root: JsonView,
    a: SourcesView,
    b: SourcesView,
    waves: Result<Seq<Seq<Seq<char>>>, DagErrorView>,
)
    requires
        agree_on(a, b, files_of(root, members(root).len() as int)),
    ensures
        may_have_waves(root, a, waves) == may_have_waves(root, b, waves),
{
    if may_have_waves(root, a, waves) {
        let edges = choose|edges: Result<Seq<(Seq<char>, Seq<Seq<char>>)>, DagErrorView>| #[trigger]
            collected(root, a, edges) && waves_follow(edges, waves);
        lemma_scopes_agree(root, a, b, 0, Seq::empty(), edges);
        assert(collected(root, b, edges));
    }
    if may_have_waves(root, b, waves) {
        let edges = choose|edges: Result<Seq<(Seq<char>, Seq<Seq<char>>)>, DagErrorView>| #[trigger]
            collected(root, b, edges) && waves_follow(edges, waves);
        lemma_scopes_agree(root, b, a, 0, Seq::empty(), edges);
        assert(collected(root, a, edges));
    }
}

/// No `dependsOn` expression is declared.
pub open spec fn without_expressions(declarations: Seq<DeclarationView>) -> bool {
    forall|k: int| 0 <= k < declarations.len() ==> !((#[trigger] declarations[k]) is DependsOn)
}

proof fn lemma_settles_once(
    instance: Seq<char>,
    declarations: Seq<DeclarationView>,
    root: JsonView,
    a: SourcesView,
    b: SourcesView,
    deps: Seq<(Seq<char>, ())>,
    x: Result<Seq<(Seq<char>, ())>, DagErrorView>,
    y: Result<Seq<(Seq<char>, ())>, DagErrorView>,
)
    requires
        without_expressions(declarations),
        settles(instance, declarations, root, a, deps, x),
        settles(instance, declarations, root, b, deps, y),
    ensures
        x == y,
    decreases declarations.len(),
{
    if declarations.len() > 0 {
        let rest = declarations.drop_first();
        assert(!(declarations[0] is DependsOn));
        assert forall|k: int| 0 <= k < rest.len() implies !((#[trigger] rest[k]) is DependsOn) by {
            assert(rest[k] == declarations[k + 1]);
        }
        if let DeclarationView::Reference(name) = declarations[0] {
            let more = with_dependency(deps, instance, name);
            lemma_settles_once(instance, rest, root, a, b, more, x, y);
        }
    }
}

proof fn lemma_scopes_settle_once(
    root: JsonView,
    a: SourcesView,
    b: SourcesView,
    i: int,
    edges: Seq<(Seq<char>, Seq<Seq<char>>)>,
    x: Result<Seq<(Seq<char>, Seq<Seq<char>>)>, DagErrorView>,
    y: Result<Seq<(Seq<char>, Seq<Seq<char>>)>, DagErrorView>,
)
    requires
        0 <= i <= members(root).len(),
        forall|j: int|
            0 <= j < members(root).len() ==> without_expressions(
                declared((#[trigger] members(root)[j]).0, members(root)[j].1, members(root)),
            ),
        scopes_settle(root, a, i, edges, x),
        scopes_settle(root, b, i, edges, y),
    ensures
        x == y,
    decreases members(root).len() - i,
{
    let top = members(root);
    if i < top.len() {
        let (name, scope) = top[i];
        let all = declared(name, scope, top);
        let none = Seq::<(Seq<char>, ())>::empty();
        let p = choose|found: Result<Seq<(Seq<char>, ())>, DagErrorView>| #[trigger]
            settles(name, all, root, a, none, found) && match found {
                Err(error) => x == Err::<Seq<(Seq<char>, Seq<Seq<char>>)>, DagErrorView>(error),
                Ok(deps) => scopes_settle(root, a, i + 1, edges.push((name, keys_of(deps))), x),
            };
        let q = choose|found: Result<Seq<(Seq<char>, ())>, DagErrorView>| #[trigger]
            settles(name, all, root, b, none, found) && match found {
                Err(error) => y == Err::<Seq<(Seq<char>, Seq<Seq<char>>)>, DagErrorView>(error),
                Ok(deps) => scopes_settle(root, b, i + 1, edges.push((name, keys_of(deps))), y),
            };
        assert(without_expressions(declared(top[i].0, top[i].1, top)));
        lemma_settles_once(name, all, root, a, b, none, p, q);
        if let Ok(deps) = p {
            lemma_scopes_settle_once(root, a, b, i + 1, edges.push((name, keys_of(deps))), x, y);
        }
    }
}

/// Where no `dependsOn` expression has to be evaluated, the waves, or the error, follow from the
/// tree alone.
pub proof fn law_waves_without_expressions_are_determined(
    root: JsonView,
    a: SourcesView,
    b: SourcesView,
    x: Result<Seq<Seq<Seq<char>>>, DagErrorView>,
    y: Result<Seq<Seq<Seq<char>>>, DagErrorView>,
)
    requires
        forall|j: int|
            0 <= j < members(root).len() ==> without_expressions(
                declared((#[trigger] members(root)[j]).0, members(root)[j].1, members(root)),
            ),
        may_have_waves(root, a, x),
        may_have_waves(root, b, y),
    ensures
        x == y,
{
    let p = choose|edges: Result<Seq<(Seq<char>, Seq<Seq<char>>)>, DagErrorView>| #[trigger]
        collected(root, a, edges) && waves_follow(edges, x);
    let q = choose|edges: Result<Seq<(Seq<char>, Seq<Seq<char>>)>, DagErrorView>| #[trigger]
        collected(root, b, edges) && waves_follow(edges, y);
    lemma_scopes_settle_once(root, a, b, 0, Seq::empty(), p, q);
    if let Ok(edges) = p {
        match (x, y) {
            (Ok(v), Ok(w)) => law_waves_unique(edges, v, w),
            (Ok(v), Err(_)) => law_waves_exclude_cycles(edges, v),
            (Err(_), Ok(w)) => law_waves_exclude_cycles(edges, w),
            (Err(_), Err(_)) => {},
        }
    }
}

/// An expression that is not sure to come back is not evaluated: it is an error of the scope that
/// it stands in, whatever else is declared after it.
pub proof fn law_refused_expression_is_an_error(
    instance: Seq<char>,
    declarations: Seq<DeclarationView>,
    root: JsonView,
    sources: SourcesView,
    deps: Seq<(Seq<char>, ())>,
    expr: JqExprView,
    text: Seq<char>,
    outcome: Result<Seq<(Seq<char>, ())>, DagErrorView>,
)
    requires
        declarations.len() > 0,
        declarations[0] == DeclarationView::DependsOn(expr),
        expression_text(expr, sources) == Ok::<Seq<char>, JqExprErrorView>(text),
        !comes_back(text, root),
        settles(instance, declarations, root, sources, deps, outcome),
    ensures
        outcome == Err::<Seq<(Seq<char>, ())>, DagErrorView>(
            DagErrorView::ExpressionRefused { instance, expression: text },
        ),
{
}

} // verus!
