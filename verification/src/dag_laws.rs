//! What the dependency graph is for, over the JSON that declares it.
//!
//! The laws here speak of the members of the desired state themselves: of `dependsOn` lists and of
//! the `inputs` of `derived-from` nodes, wherever in the scope of an instance they stand.

use crate::dag::{
    collected, declared, dependency_of, files_declared, files_of, input_declared, inputs_declared,
    inputs_of, instance_named, instance_with, items_declared, law_graph_of_instances,
    lemma_file_declared, lemma_files_of, lemma_scopes_settle, may_have_waves, members_declared,
    meta_declared, scopes_settle, settles, waves_follow, with_dependency, DagErrorView,
    DeclarationView,
};
use crate::graph::{before_wave, depends, in_wave, is_waves, needs_wave};
use crate::jq::{may_answer, JqFailureView};
use crate::jq_expr::{
    expression_text, jq_expr_from, JqExprErrorView, JqExprStructuredView, JqExprView,
};
use crate::json::{json_text, member, member_text, members, same_json, JsonView};
use crate::meta::{exprs_from, meta_from, NixHapiMetaView};
use crate::sources::SourcesView;
use crate::strmap::{
    ascending, has_key, keys_of, lemma_lookup, lemma_lookup_at, lemma_lookup_put,
    lemma_put_ascending, lookup, put,
};
use crate::text::{text_lt, trimmed};
use crate::text_laws::law_first_place_is_found;
use vstd::prelude::*;

verus! {

/// The `i`-th part of a node: a member's value, or an item.
pub open spec fn part(node: JsonView, i: int) -> Option<JsonView> {
    match node {
        JsonView::Object(entries) => if 0 <= i < entries.len() {
            Some(entries[i].1)
        } else {
            None
        },
        JsonView::Array(items) => if 0 <= i < items.len() {
            Some(items[i])
        } else {
            None
        },
        _ => None,
    }
}

/// That the walk through a scope goes from `node` on into its `i`-th part: `node` is no field
/// value, and the part is no directives.
pub open spec fn passable(node: JsonView, i: int) -> bool {
    match node {
        JsonView::Object(entries) => member_text(node, "__nixhapi"@) is None && !(entries[i].0
            == "__nixhapi"@ && entries[i].1 is Object),
        _ => true,
    }
}

/// That the walk through `scope` comes to `node` along `path`.
pub open spec fn reaches(scope: JsonView, path: Seq<int>, node: JsonView) -> bool
    decreases path.len(),
{
    if path.len() == 0 {
        scope == node
    } else {
        part(scope, path[0]) is Some && passable(scope, path[0]) && reaches(
            part(scope, path[0])->0,
            path.drop_first(),
            node,
        )
    }
}

/// The items of the `dependsOn` list in the directives of a node; none where there is no such
/// list.
pub open spec fn depends_on_items(node: JsonView) -> Seq<JsonView> {
    match member(node, "__nixhapi"@) {
        Some(JsonView::Object(block)) => match lookup(block, "dependsOn"@) {
            Some(JsonView::Array(items)) => items,
            _ => Seq::empty(),
        },
        _ => Seq::empty(),
    }
}

/// The members of `inputs` of a `derived-from` node; none of any other node.
pub open spec fn input_members(node: JsonView) -> Seq<(Seq<char>, JsonView)> {
    if member_text(node, "__nixhapi"@) == Some("derived-from"@) {
        match member(node, "inputs"@) {
            Some(JsonView::Object(inputs)) => inputs,
            _ => Seq::empty(),
        }
    } else {
        Seq::empty()
    }
}

/// That `item` writes down the expression `text`: as a string, as an object tagged `jq-expr`, or
/// as an object tagged `jq-file` that names a file whose text it is, without the white space
/// around it.
pub open spec fn says(item: JsonView, sources: SourcesView, text: Seq<char>) -> bool {
    ||| item == JsonView::String(text)
    ||| {
        &&& member_text(item, "__nixhapi"@) == Some("jq-expr"@)
        &&& member_text(item, "value"@) == Some(text)
    }
    ||| {
        &&& member_text(item, "__nixhapi"@) == Some("jq-file"@)
        &&& member_text(item, "path"@) is Some
        &&& lookup(sources.files, member_text(item, "path"@)->0) is Some
        &&& lookup(sources.files, member_text(item, "path"@)->0)->0 is Text
        &&& text == trimmed(lookup(sources.files, member_text(item, "path"@)->0)->0->Text_0)
    }
}

/// That the `j`-th is the first of the top-level values that equals `value`.
pub open spec fn first_equal(top: Seq<(Seq<char>, JsonView)>, value: JsonView, j: int) -> bool {
    &&& 0 <= j < top.len()
    &&& same_json(top[j].1, value)
    &&& forall|l: int| 0 <= l < j ==> !same_json((#[trigger] top[l]).1, value)
}

/// That the expression `text` may evaluate to the scope of the `j`-th instance.
pub open spec fn stands_for(root: JsonView, text: Seq<char>, j: int) -> bool {
    exists|value: JsonView| #[trigger]
        may_answer(text, text, root, Ok::<JsonView, JqFailureView>(value)) && first_equal(
            members(root),
            value,
            j,
        )
}

pub(crate) proof fn lemma_contains_concat<A>(a: Seq<A>, b: Seq<A>, x: A)
    ensures
        (a + b).contains(x) <==> a.contains(x) || b.contains(x),
{
    if a.contains(x) {
        let i = choose|i: int| 0 <= i < a.len() && a[i] == x;
        assert((a + b)[i] == x);
    }
    if b.contains(x) {
        let i = choose|i: int| 0 <= i < b.len() && b[i] == x;
        assert((a + b)[a.len() + i] == x);
    }
    if (a + b).contains(x) {
        let i = choose|i: int| 0 <= i < (a + b).len() && (a + b)[i] == x;
        if i < a.len() {
            assert(a[i] == x);
        } else {
            assert(b[i - a.len()] == x);
        }
    }
}

/// What a member declares, the members up to it declare.
proof fn lemma_member_declared(
    instance: Seq<char>,
    entries: Seq<(Seq<char>, JsonView)>,
    n: nat,
    top: Seq<(Seq<char>, JsonView)>,
    i: int,
    what: DeclarationView,
)
    requires
        0 <= i < n <= entries.len(),
        !(entries[i].0 == "__nixhapi"@ && entries[i].1 is Object),
        declared(instance, entries[i].1, top).contains(what),
    ensures
        members_declared(instance, entries, n, top).contains(what),
    decreases n,
{
    let before = members_declared(instance, entries, (n - 1) as nat, top);
    let (key, child) = entries[n - 1];
    let last = if key == "__nixhapi"@ && child is Object {
        Seq::empty()
    } else {
        declared(instance, child, top)
    };
    lemma_contains_concat(before, last, what);
    if i < n - 1 {
        lemma_member_declared(instance, entries, (n - 1) as nat, top, i, what);
    }
}

/// What an item declares, the items up to it declare.
proof fn lemma_item_declared(
    instance: Seq<char>,
    items: Seq<JsonView>,
    n: nat,
    top: Seq<(Seq<char>, JsonView)>,
    i: int,
    what: DeclarationView,
)
    requires
        0 <= i < n <= items.len(),
        declared(instance, items[i], top).contains(what),
    ensures
        items_declared(instance, items, n, top).contains(what),
    decreases n,
{
    lemma_contains_concat(
        items_declared(instance, items, (n - 1) as nat, top),
        declared(instance, items[n - 1], top),
        what,
    );
    if i < n - 1 {
        lemma_item_declared(instance, items, (n - 1) as nat, top, i, what);
    }
}

/// What a node declares that the walk comes to, the scope declares.
proof fn lemma_reached_declared(
    instance: Seq<char>,
    scope: JsonView,
    path: Seq<int>,
    node: JsonView,
    top: Seq<(Seq<char>, JsonView)>,
    what: DeclarationView,
)
    requires
        reaches(scope, path, node),
        declared(instance, node, top).contains(what),
    ensures
        declared(instance, scope, top).contains(what),
    decreases path.len(),
{
    if path.len() > 0 {
        let i = path[0];
        let inner = part(scope, i)->0;
        lemma_reached_declared(instance, inner, path.drop_first(), node, top, what);
        match scope {
            JsonView::Object(entries) => {
                lemma_member_declared(instance, entries, entries.len(), top, i, what);
                if let Some(JsonView::Object(block)) = lookup(entries, "__nixhapi"@) {
                    lemma_contains_concat(
                        meta_declared(instance, JsonView::Object(block)),
                        members_declared(instance, entries, entries.len(), top),
                        what,
                    );
                }
            },
            JsonView::Array(items) => {
                lemma_item_declared(instance, items, items.len(), top, i, what);
            },
            _ => {},
        }
    }
}

/// The expression that stands at a place of the list is the one that is read there.
proof fn lemma_expression_read(items: Seq<JsonView>, n: int, k: int)
    requires
        0 <= k < n <= items.len(),
        exprs_from(items, n) is Ok,
    ensures
        exprs_from(items, n)->Ok_0.len() == n,
        jq_expr_from(items[k]) == Ok::<JqExprView, Seq<char>>(exprs_from(items, n)->Ok_0[k]),
    decreases n,
{
    lemma_expressions_counted(items, n - 1);
    if k < n - 1 {
        lemma_expression_read(items, n - 1, k);
    }
}

proof fn lemma_expressions_counted(items: Seq<JsonView>, n: int)
    requires
        0 <= n <= items.len(),
    ensures
        exprs_from(items, n) is Ok ==> exprs_from(items, n)->Ok_0.len() == n,
    decreases n,
{
    if n > 0 {
        lemma_expressions_counted(items, n - 1);
    }
}

/// An item that writes down an expression is read as one, and its text is what it writes down.
pub proof fn law_expressions_are_what_they_say(item: JsonView, sources: SourcesView, text: Seq<char>)
    requires
        says(item, sources, text),
    ensures
        jq_expr_from(item) matches Ok(expr) && expression_text(expr, sources) == Ok::<
            Seq<char>,
            JqExprErrorView,
        >(text),
{
    reveal_strlit("jq-expr");
    reveal_strlit("jq-file");
    assert("jq-expr"@[3] != "jq-file"@[3]);
}

/// The search for a value finds the first instance that equals it.
proof fn lemma_first_found(top: Seq<(Seq<char>, JsonView)>, value: JsonView, i: int) -> (j: int)
    requires
        0 <= i,
        instance_with(top, value, i) is Some,
    ensures
        i <= j < top.len(),
        instance_with(top, value, i) == Some(top[j].0),
        same_json(top[j].1, value),
        forall|l: int| i <= l < j ==> !same_json((#[trigger] top[l]).1, value),
    decreases top.len() - i,
{
    if same_json(top[i].1, value) {
        i
    } else {
        lemma_first_found(top, value, i + 1)
    }
}

/// A value that an instance equals is found.
proof fn lemma_equal_found(top: Seq<(Seq<char>, JsonView)>, value: JsonView, i: int, j: int)
    requires
        0 <= i <= j,
        first_equal(top, value, j),
    ensures
        instance_with(top, value, i) == Some(top[j].0),
    decreases j - i,
{
    if i < j {
        lemma_equal_found(top, value, i + 1, j);
    }
}

/// That what is declared makes `name` a dependency.
spec fn declares(
    what: DeclarationView,
    root: JsonView,
    sources: SourcesView,
    name: Seq<char>,
) -> bool {
    match what {
        DeclarationView::Reference(referenced) => referenced == name,
        DeclarationView::DependsOn(expr) => expression_text(expr, sources) is Ok && exists|j: int|
            #[trigger] stands_for(root, expression_text(expr, sources)->Ok_0, j)
                && members(root)[j].0 == name,
        DeclarationView::Invalid(_) => false,
    }
}

/// What a walk without a fault finds: every declaration gives a dependency, and every dependency
/// comes from a declaration.
proof fn lemma_settled(
    instance: Seq<char>,
    declarations: Seq<DeclarationView>,
    root: JsonView,
    sources: SourcesView,
    deps: Seq<(Seq<char>, ())>,
    out: Seq<(Seq<char>, ())>,
)
    requires
        settles(
            instance,
            declarations,
            root,
            sources,
            deps,
            Ok::<Seq<(Seq<char>, ())>, DagErrorView>(out),
        ),
        ascending(deps),
    ensures
        ascending(out),
        forall|name: Seq<char>|
            lookup(deps, name) is Some ==> (#[trigger] lookup(out, name)) is Some,
        forall|k: int|
            0 <= k < declarations.len() ==> exists|name: Seq<char>|
                declares(#[trigger] declarations[k], root, sources, name) && (name == instance
                    || #[trigger] lookup(out, name) is Some),
        forall|name: Seq<char>| #[trigger]
            lookup(out, name) is Some ==> lookup(deps, name) is Some || (name != instance
                && exists|k: int|
                0 <= k < declarations.len() && declares(
                    #[trigger] declarations[k],
                    root,
                    sources,
                    name,
                )),
    decreases declarations.len(),
{
    let top = members(root);
    if declarations.len() > 0 {
        let rest = declarations.drop_first();
        let first = declarations[0];
        let name = match first {
            DeclarationView::Reference(name) => name,
            DeclarationView::DependsOn(expr) => {
                let text = expression_text(expr, sources)->Ok_0;
                let answer = choose|answer: Result<JsonView, JqFailureView>| #[trigger]
                    may_answer(text, text, root, answer) && match dependency_of(
                        instance,
                        text,
                        members(root),
                        answer,
                    ) {
                        Err(error) => false,
                        Ok(name) => settles(
                            instance,
                            rest,
                            root,
                            sources,
                            with_dependency(deps, instance, name),
                            Ok::<Seq<(Seq<char>, ())>, DagErrorView>(out),
                        ),
                    };
                let value = answer->Ok_0;
                let j = lemma_first_found(top, value, 0);
                assert(may_answer(text, text, root, Ok::<JsonView, JqFailureView>(value)));
                assert(first_equal(top, value, j));
                assert(stands_for(root, text, j));
                top[j].0
            },
            DeclarationView::Invalid(_) => Seq::empty(),
        };
        assert(declares(first, root, sources, name));
        let more = with_dependency(deps, instance, name);
        lemma_put_ascending(deps, name, ());
        assert forall|other: Seq<char>| true implies #[trigger] lookup(put(deps, name, ()), other)
            == if other == name {
            Some(())
        } else {
            lookup(deps, other)
        } by {
            lemma_lookup_put(deps, name, (), other);
        }
        lemma_settled(instance, rest, root, sources, more, out);
        assert forall|other: Seq<char>| lookup(deps, other) is Some implies (#[trigger] lookup(
            out,
            other,
        )) is Some by {
            assert(lookup(more, other) is Some);
        }
        if name != instance {
            assert(lookup(more, name) is Some);
        }
        assert forall|k: int| 0 <= k < declarations.len() implies exists|name: Seq<char>|
            declares(#[trigger] declarations[k], root, sources, name) && (name == instance
                || #[trigger] lookup(out, name) is Some) by {
            if k > 0 {
                assert(rest[k - 1] == declarations[k]);
            } else {
                assert(declares(declarations[k], root, sources, name));
                assert(name == instance || lookup(out, name) is Some);
            }
        }
        assert forall|other: Seq<char>| #[trigger] lookup(out, other) is Some implies lookup(
            deps,
            other,
        ) is Some || (other != instance && exists|k: int|
            0 <= k < declarations.len() && declares(
                #[trigger] declarations[k],
                root,
                sources,
                other,
            )) by {
            if lookup(deps, other) is None {
                if lookup(more, other) is Some {
                    assert(other == name && name != instance);
                    assert(declares(declarations[0], root, sources, other));
                } else {
                    let k = choose|k: int|
                        0 <= k < rest.len() && declares(#[trigger] rest[k], root, sources, other);
                    assert(declarations[k + 1] == rest[k]);
                }
            }
        }
    }
}

/// The dependencies of the `i`-th instance are what its scope declares.
proof fn lemma_scope_settled(
    root: JsonView,
    sources: SourcesView,
    edges: Seq<(Seq<char>, Seq<Seq<char>>)>,
    i: int,
) -> (deps: Seq<(Seq<char>, ())>)
    requires
        collected(root, sources, Ok::<Seq<(Seq<char>, Seq<Seq<char>>)>, DagErrorView>(edges)),
        0 <= i < members(root).len(),
    ensures
        edges.len() == members(root).len(),
        edges[i] == (members(root)[i].0, keys_of(deps)),
        settles(
            members(root)[i].0,
            declared(members(root)[i].0, members(root)[i].1, members(root)),
            root,
            sources,
            Seq::empty(),
            Ok::<Seq<(Seq<char>, ())>, DagErrorView>(deps),
        ),
{
    let top = members(root);
    lemma_scopes_settle(root, sources, 0, Seq::empty(), edges);
    assert(edges[i].0 == top[i].0);
    choose|deps: Seq<(Seq<char>, ())>| #[trigger]
        keys_of(deps) == edges[i].1 && settles(
            edges[i].0,
            declared(edges[i].0, top[i].1, top),
            root,
            sources,
            Seq::empty(),
            Ok::<Seq<(Seq<char>, ())>, DagErrorView>(deps),
        )
}

/// What the scope of an instance declares makes it depend on the instance that is declared.
proof fn lemma_declaration_holds(
    root: JsonView,
    sources: SourcesView,
    edges: Seq<(Seq<char>, Seq<Seq<char>>)>,
    i: int,
    what: DeclarationView,
) -> (name: Seq<char>)
    requires
        collected(root, sources, Ok::<Seq<(Seq<char>, Seq<Seq<char>>)>, DagErrorView>(edges)),
        0 <= i < members(root).len(),
        declared(members(root)[i].0, members(root)[i].1, members(root)).contains(what),
    ensures
        declares(what, root, sources, name),
        name == members(root)[i].0 || depends(edges, members(root)[i].0, name),
{
    let top = members(root);
    let (instance, scope) = top[i];
    let deps = lemma_scope_settled(root, sources, edges, i);
    let found = declared(instance, scope, top);
    lemma_settled(instance, found, root, sources, Seq::empty(), deps);
    let k = choose|k: int| 0 <= k < found.len() && found[k] == what;
    let name = choose|name: Seq<char>|
        declares(found[k], root, sources, name) && (name == instance
            || #[trigger] lookup(deps, name) is Some);
    if name != instance {
        lemma_lookup(deps, name);
        let j = choose|j: int| 0 <= j < deps.len() && (#[trigger] deps[j]).0 == name;
        assert(edges[i].1[j] == name);
        assert(edges[i].1.contains(name));
    }
    name
}

/// Every expression of a `dependsOn` list in the scope of an instance counts, at whatever place of
/// the list: it evaluates to the scope of some instance, and the instance depends on the first
/// such one, unless it is that one itself.
pub proof fn law_every_depends_on_counts(
    root: JsonView,
    sources: SourcesView,
    edges: Seq<(Seq<char>, Seq<Seq<char>>)>,
    i: int,
    path: Seq<int>,
    node: JsonView,
    k: int,
    text: Seq<char>,
)
    requires
        collected(root, sources, Ok::<Seq<(Seq<char>, Seq<Seq<char>>)>, DagErrorView>(edges)),
        0 <= i < members(root).len(),
        reaches(members(root)[i].1, path, node),
        0 <= k < depends_on_items(node).len(),
        says(depends_on_items(node)[k], sources, text),
    ensures
        exists|j: int| #[trigger]
            stands_for(root, text, j) && (members(root)[j].0 == members(root)[i].0 || depends(
                edges,
                members(root)[i].0,
                members(root)[j].0,
            )),
{
    let top = members(root);
    let (instance, scope) = top[i];
    let block = member(node, "__nixhapi"@)->0;
    let items = depends_on_items(node);
    let entries = node->Object_0;
    law_expressions_are_what_they_say(items[k], sources, text);
    let directives = meta_declared(instance, block);
    lemma_faultless_directives(root, sources, edges, i, path, node);
    lemma_expression_read(items, items.len() as int, k);
    let what = DeclarationView::DependsOn(jq_expr_from(items[k])->Ok_0);
    assert(directives[k] == what);
    lemma_contains_concat(
        directives,
        members_declared(instance, entries, entries.len(), top),
        what,
    );
    lemma_reached_declared(instance, scope, path, node, top, what);
    let name = lemma_declaration_holds(root, sources, edges, i, what);
    let j = choose|j: int| #[trigger] stands_for(root, text, j) && top[j].0 == name;
    assert(stands_for(root, text, j));
}

/// Where the graph could be had, the directives in the scopes could be read.
proof fn lemma_faultless_directives(
    root: JsonView,
    sources: SourcesView,
    edges: Seq<(Seq<char>, Seq<Seq<char>>)>,
    i: int,
    path: Seq<int>,
    node: JsonView,
)
    requires
        collected(root, sources, Ok::<Seq<(Seq<char>, Seq<Seq<char>>)>, DagErrorView>(edges)),
        0 <= i < members(root).len(),
        reaches(members(root)[i].1, path, node),
        member(node, "__nixhapi"@) is Some,
        member(node, "__nixhapi"@)->0 is Object,
    ensures
        meta_from(member(node, "__nixhapi"@)->0) is Ok,
{
    let top = members(root);
    let (instance, scope) = top[i];
    let block = member(node, "__nixhapi"@)->0;
    let entries = node->Object_0;
    if meta_from(block) is Err {
        let what = DeclarationView::Invalid(
            DagErrorView::MetadataParse { instance, message: meta_from(block)->Err_0 },
        );
        assert(meta_declared(instance, block)[0] == what);
        lemma_contains_concat(
            meta_declared(instance, block),
            members_declared(instance, entries, entries.len(), top),
            what,
        );
        lemma_reached_declared(instance, scope, path, node, top, what);
        let name = lemma_declaration_holds(root, sources, edges, i, what);
    }
}

/// An expression of a `dependsOn` list, at whatever place of the list, that evaluates to the scope
/// of another instance makes the instance depend on that other one.
pub proof fn law_depends_on_is_a_dependency(
    root: JsonView,
    sources: SourcesView,
    edges: Seq<(Seq<char>, Seq<Seq<char>>)>,
    i: int,
    path: Seq<int>,
    node: JsonView,
    k: int,
    text: Seq<char>,
    value: JsonView,
    j: int,
)
    requires
        collected(root, sources, Ok::<Seq<(Seq<char>, Seq<Seq<char>>)>, DagErrorView>(edges)),
        0 <= i < members(root).len(),
        reaches(members(root)[i].1, path, node),
        0 <= k < depends_on_items(node).len(),
        says(depends_on_items(node)[k], sources, text),
        forall|answer: Result<JsonView, JqFailureView>| #[trigger]
            may_answer(text, text, root, answer) ==> answer == Ok::<JsonView, JqFailureView>(value),
        first_equal(members(root), value, j),
        members(root)[j].0 != members(root)[i].0,
    ensures
        depends(edges, members(root)[i].0, members(root)[j].0),
{
    let top = members(root);
    law_every_depends_on_counts(root, sources, edges, i, path, node, k, text);
    let m = choose|m: int| #[trigger]
        stands_for(root, text, m) && (top[m].0 == top[i].0 || depends(
            edges,
            top[i].0,
            top[m].0,
        ));
    let given = choose|given: JsonView| #[trigger]
        may_answer(text, text, root, Ok::<JsonView, JqFailureView>(given)) && first_equal(
            top,
            given,
            m,
        );
    assert(given == value);
    if m < j {
        assert(!same_json(top[m].1, value));
    } else if j < m {
        assert(!same_json(top[j].1, value));
    }
}

/// Where the waves could be had, an instance stands in a later wave than every other instance to
/// whose scope an expression of its `dependsOn` lists evaluates.
pub proof fn law_depends_on_comes_earlier(
    root: JsonView,
    sources: SourcesView,
    waves: Seq<Seq<Seq<char>>>,
    i: int,
    path: Seq<int>,
    node: JsonView,
    k: int,
    text: Seq<char>,
    value: JsonView,
    j: int,
    w: int,
)
    requires
        may_have_waves(root, sources, Ok::<Seq<Seq<Seq<char>>>, DagErrorView>(waves)),
        0 <= i < members(root).len(),
        reaches(members(root)[i].1, path, node),
        0 <= k < depends_on_items(node).len(),
        says(depends_on_items(node)[k], sources, text),
        forall|answer: Result<JsonView, JqFailureView>| #[trigger]
            may_answer(text, text, root, answer) ==> answer == Ok::<JsonView, JqFailureView>(value),
        first_equal(members(root), value, j),
        members(root)[j].0 != members(root)[i].0,
        0 <= w < waves.len(),
        waves[w].contains(members(root)[i].0),
    ensures
        exists|v: int| 0 <= v < w && (#[trigger] waves[v]).contains(members(root)[j].0),
{
    let top = members(root);
    let outcome = Ok::<Seq<Seq<Seq<char>>>, DagErrorView>(waves);
    let found = choose|found: Result<Seq<(Seq<char>, Seq<Seq<char>>)>, DagErrorView>| #[trigger]
        collected(root, sources, found) && waves_follow(found, outcome);
    let edges = found->Ok_0;
    law_depends_on_is_a_dependency(root, sources, edges, i, path, node, k, text, value, j);
    lemma_dependency_earlier(edges, waves, top[i].0, top[j].0, w);
}

/// A dependency stands in an earlier wave.
proof fn lemma_dependency_earlier(
    edges: Seq<(Seq<char>, Seq<Seq<char>>)>,
    waves: Seq<Seq<Seq<char>>>,
    name: Seq<char>,
    dependency: Seq<char>,
    w: int,
)
    requires
        is_waves(edges, waves),
        depends(edges, name, dependency),
        0 <= w < waves.len(),
        waves[w].contains(name),
    ensures
        exists|v: int| 0 <= v < w && (#[trigger] waves[v]).contains(dependency),
{
    assert(in_wave(waves, name, w));
    assert(before_wave(waves, dependency, w));
    let v = choose|v: int| v < w && #[trigger] in_wave(waves, dependency, v);
    assert(waves[v].contains(dependency));
}

/// Every input of every `derived-from` node in the scope of an instance counts: where the graph
/// could be had it is a path that begins with the name of an instance, and the instance depends
/// on that one, unless it is that one itself.
pub proof fn law_every_input_counts(
    root: JsonView,
    sources: SourcesView,
    edges: Seq<(Seq<char>, Seq<Seq<char>>)>,
    i: int,
    path: Seq<int>,
    node: JsonView,
    k: int,
)
    requires
        collected(root, sources, Ok::<Seq<(Seq<char>, Seq<Seq<char>>)>, DagErrorView>(edges)),
        0 <= i < members(root).len(),
        reaches(members(root)[i].1, path, node),
        0 <= k < input_members(node).len(),
    ensures
        input_members(node)[k].1 is String,
        instance_named(input_members(node)[k].1->String_0) is Some,
        ({
            let name = instance_named(input_members(node)[k].1->String_0)->0;
            has_key(members(root), name) && (name == members(root)[i].0 || depends(
                edges,
                members(root)[i].0,
                name,
            ))
        }),
{
    let top = members(root);
    let (instance, scope) = top[i];
    let entries = node->Object_0;
    let inputs = input_members(node);
    assert(lookup(entries, "__nixhapi"@) == Some(JsonView::String("derived-from"@)));
    assert(inputs_of(entries) == inputs);
    let what = input_declared(instance, inputs[k].0, inputs[k].1, top);
    assert(inputs_declared(instance, inputs, top)[k] == what);
    assert(declared(instance, node, top) == inputs_declared(instance, inputs, top));
    assert(declared(instance, node, top).contains(what));
    lemma_reached_declared(instance, scope, path, node, top, what);
    let name = lemma_declaration_holds(root, sources, edges, i, what);
}

/// An absolute input path names the instance between `.["` at its start and the first `"]` after
/// that.
pub proof fn law_input_path_names_instance(name: Seq<char>, rest: Seq<char>)
    requires
        !name.contains('"'),
    ensures
        instance_named(".[\""@ + name + "\"]"@ + rest) == Some(name),
{
    reveal_strlit(".[\"");
    reveal_strlit("\"]");
    let path = ".[\""@ + name + "\"]"@ + rest;
    let end = (3 + name.len()) as int;
    assert(path.subrange(0, 3) =~= ".[\""@);
    let close = "\"]"@;
    assert(path.subrange(end, end + close.len()) =~= close);
    assert forall|j: int| 3 <= j < end implies #[trigger] path.subrange(
        j,
        j + close.len() as int,
    ) != close by {
        assert(path.subrange(j, j + close.len() as int)[0] == name[j - 3]);
        assert(name.contains(name[j - 3]));
    }
    law_first_place_is_found(path, close, 3, end);
    assert(path.subrange(3, end) =~= name);
}

/// A path that names an instance begins with `.["`, the name and `"]`, and no `"]` stands within
/// the name; every path of that form names an instance.
pub proof fn law_named_instance_stands_in_path(path: Seq<char>, end: int)
    requires
        3 <= end,
        end + 2 <= path.len(),
    ensures
        (path.take(3) == ".[\""@ && path.subrange(end, end + 2) == "\"]"@ && forall|j: int|
            3 <= j < end ==> #[trigger] path.subrange(j, j + 2) != "\"]"@) ==> instance_named(path)
            == Some(path.subrange(3, end)),
{
    reveal_strlit(".[\"");
    reveal_strlit("\"]");
    if path.take(3) == ".[\""@ && path.subrange(end, end + 2) == "\"]"@ && (forall|j: int|
        3 <= j < end ==> #[trigger] path.subrange(j, j + 2) != "\"]"@) {
        assert(path.take(3) == path.subrange(0, 3));
        let close = "\"]"@;
        assert forall|j: int| 3 <= j < end implies #[trigger] path.subrange(
            j,
            j + close.len() as int,
        ) != close by {
            assert(path.subrange(j, j + 2) != close);
        }
        law_first_place_is_found(path, close, 3, end);
    }
}

/// That a node asks for the instance `name`: by an expression of its `dependsOn` list, or by an
/// input.
pub open spec fn asks_for(
    root: JsonView,
    sources: SourcesView,
    node: JsonView,
    name: Seq<char>,
) -> bool {
    ||| exists|k: int, j: int|
        0 <= k < depends_on_items(node).len() && jq_expr_from(#[trigger] depends_on_items(node)[k])
            is Ok && expression_text(jq_expr_from(depends_on_items(node)[k])->Ok_0, sources) is Ok
            && #[trigger] stands_for(
            root,
            expression_text(jq_expr_from(depends_on_items(node)[k])->Ok_0, sources)->Ok_0,
            j,
        ) && members(root)[j].0 == name
    ||| exists|k: int|
        0 <= k < input_members(node).len() && (#[trigger] input_members(node)[k]).1 is String
            && instance_named(input_members(node)[k].1->String_0) == Some(name)
}

/// What a node declares itself, without what is under it.
spec fn own_declared(
    instance: Seq<char>,
    node: JsonView,
    top: Seq<(Seq<char>, JsonView)>,
) -> Seq<DeclarationView> {
    match member(node, "__nixhapi"@) {
        Some(JsonView::String(tag)) => if tag == "derived-from"@ {
            inputs_declared(instance, inputs_of(node->Object_0), top)
        } else {
            Seq::empty()
        },
        Some(JsonView::Object(block)) => meta_declared(instance, JsonView::Object(block)),
        _ => Seq::empty(),
    }
}

/// What a scope declares comes from a node that the walk comes to.
proof fn lemma_declared_reached(
    instance: Seq<char>,
    scope: JsonView,
    top: Seq<(Seq<char>, JsonView)>,
    what: DeclarationView,
) -> (found: (Seq<int>, JsonView))
    requires
        declared(instance, scope, top).contains(what),
    ensures
        reaches(scope, found.0, found.1),
        own_declared(instance, found.1, top).contains(what),
    decreases scope, 0nat,
{
    if own_declared(instance, scope, top).contains(what) {
        (Seq::empty(), scope)
    } else {
        let (i, inner) = match scope {
            JsonView::Object(entries) => {
                if let Some(JsonView::Object(block)) = lookup(entries, "__nixhapi"@) {
                    lemma_contains_concat(
                        meta_declared(instance, JsonView::Object(block)),
                        members_declared(instance, entries, entries.len(), top),
                        what,
                    );
                }
                lemma_members_reached(instance, entries, entries.len(), top, what)
            },
            JsonView::Array(items) => lemma_items_reached(
                instance,
                items,
                items.len(),
                top,
                what,
            ),
            _ => (0int, (Seq::empty(), scope)),
        };
        let path = seq![i] + inner.0;
        assert(path.drop_first() =~= inner.0);
        (path, inner.1)
    }
}

proof fn lemma_members_reached(
    instance: Seq<char>,
    entries: Seq<(Seq<char>, JsonView)>,
    n: nat,
    top: Seq<(Seq<char>, JsonView)>,
    what: DeclarationView,
) -> (found: (int, (Seq<int>, JsonView)))
    requires
        members_declared(instance, entries, n, top).contains(what),
    ensures
        0 <= found.0 < entries.len(),
        !(entries[found.0].0 == "__nixhapi"@ && entries[found.0].1 is Object),
        reaches(entries[found.0].1, found.1.0, found.1.1),
        own_declared(instance, found.1.1, top).contains(what),
    decreases entries, n,
{
    let before = members_declared(instance, entries, (n - 1) as nat, top);
    let (key, child) = entries[n - 1];
    let last = if key == "__nixhapi"@ && child is Object {
        Seq::empty()
    } else {
        declared(instance, child, top)
    };
    lemma_contains_concat(before, last, what);
    if before.contains(what) {
        lemma_members_reached(instance, entries, (n - 1) as nat, top, what)
    } else {
        (n - 1, lemma_declared_reached(instance, child, top, what))
    }
}

proof fn lemma_items_reached(
    instance: Seq<char>,
    items: Seq<JsonView>,
    n: nat,
    top: Seq<(Seq<char>, JsonView)>,
    what: DeclarationView,
) -> (found: (int, (Seq<int>, JsonView)))
    requires
        items_declared(instance, items, n, top).contains(what),
    ensures
        0 <= found.0 < items.len(),
        reaches(items[found.0], found.1.0, found.1.1),
        own_declared(instance, found.1.1, top).contains(what),
    decreases items, n,
{
    let before = items_declared(instance, items, (n - 1) as nat, top);
    lemma_contains_concat(before, declared(instance, items[n - 1], top), what);
    if before.contains(what) {
        lemma_items_reached(instance, items, (n - 1) as nat, top, what)
    } else {
        (n - 1, lemma_declared_reached(instance, items[n - 1], top, what))
    }
}

/// An expression that a node declares stands in its `dependsOn` list.
proof fn lemma_expression_listed(
    instance: Seq<char>,
    node: JsonView,
    top: Seq<(Seq<char>, JsonView)>,
    expr: JqExprView,
) -> (k: int)
    requires
        own_declared(instance, node, top).contains(DeclarationView::DependsOn(expr)),
    ensures
        0 <= k < depends_on_items(node).len(),
        jq_expr_from(depends_on_items(node)[k]) == Ok::<JqExprView, Seq<char>>(expr),
{
    let what = DeclarationView::DependsOn(expr);
    let own = own_declared(instance, node, top);
    let k = choose|k: int| 0 <= k < own.len() && own[k] == what;
    let items = depends_on_items(node);
    if member(node, "__nixhapi"@)->0 is String {
        let inputs = inputs_of(node->Object_0);
        assert(own[k] == input_declared(instance, inputs[k].0, inputs[k].1, top));
    }
    lemma_expressions_counted(items, items.len() as int);
    lemma_expression_read(items, items.len() as int, k);
    k
}

/// Every dependency in the graph was asked for: by an expression of a `dependsOn` list, or by an
/// input of a `derived-from` node, in the scope of the instance that has it.
pub proof fn law_dependencies_were_asked_for(
    root: JsonView,
    sources: SourcesView,
    edges: Seq<(Seq<char>, Seq<Seq<char>>)>,
    i: int,
    name: Seq<char>,
)
    requires
        collected(root, sources, Ok::<Seq<(Seq<char>, Seq<Seq<char>>)>, DagErrorView>(edges)),
        0 <= i < members(root).len(),
        edges[i].1.contains(name),
    ensures
        edges[i].0 == members(root)[i].0,
        name != members(root)[i].0,
        exists|path: Seq<int>, node: JsonView| #[trigger]
            reaches(members(root)[i].1, path, node) && asks_for(root, sources, node, name),
{
    let top = members(root);
    let (instance, scope) = top[i];
    let deps = lemma_scope_settled(root, sources, edges, i);
    let found = declared(instance, scope, top);
    lemma_settled(instance, found, root, sources, Seq::empty(), deps);
    let at = choose|at: int| 0 <= at < edges[i].1.len() && edges[i].1[at] == name;
    assert(deps[at].0 == name);
    lemma_lookup_at(deps, at);
    assert(lookup(deps, name) is Some);
    let k = choose|k: int|
        0 <= k < found.len() && declares(#[trigger] found[k], root, sources, name);
    let what = found[k];
    let (path, node) = lemma_declared_reached(instance, scope, top, what);
    match what {
        DeclarationView::DependsOn(expr) => {
            let m = lemma_expression_listed(instance, node, top, expr);
            let text = expression_text(expr, sources)->Ok_0;
            let j = choose|j: int| #[trigger] stands_for(root, text, j) && top[j].0 == name;
            assert(jq_expr_from(depends_on_items(node)[m]) is Ok);
            assert(stands_for(
                root,
                expression_text(jq_expr_from(depends_on_items(node)[m])->Ok_0, sources)->Ok_0,
                j,
            ));
        },
        DeclarationView::Reference(_) => {
            let own = own_declared(instance, node, top);
            let m = choose|m: int| 0 <= m < own.len() && own[m] == what;
            let inputs = inputs_of(node->Object_0);
            assert(input_members(node) =~= inputs);
            assert(own[m] == input_declared(instance, inputs[m].0, inputs[m].1, top));
            assert(input_members(node)[m].1 is String);
        },
        DeclarationView::Invalid(_) => {},
    }
    assert(asks_for(root, sources, node, name));
}

/// That nothing is wrong with what a node declares: its directives can be read, each expression
/// of its `dependsOn` list evaluates to the scope of an instance, and each input names one.
pub open spec fn in_order_itself(root: JsonView, sources: SourcesView, node: JsonView) -> bool {
    &&& (member(node, "__nixhapi"@) is Some && member(node, "__nixhapi"@)->0 is Object)
        ==> meta_from(member(node, "__nixhapi"@)->0) is Ok
    &&& forall|k: int|
        0 <= k < depends_on_items(node).len() ==> exists|text: Seq<char>|
            says(#[trigger] depends_on_items(node)[k], sources, text) && #[trigger] resolves(
                root,
                text,
            )
    &&& forall|k: int|
        0 <= k < input_members(node).len() ==> (#[trigger] input_members(node)[k]).1 is String
            && instance_named(input_members(node)[k].1->String_0) is Some && has_key(
            members(root),
            instance_named(input_members(node)[k].1->String_0)->0,
        )
}

/// That the expression `text` evaluates to the scope of an instance, whatever the evaluation
/// answers.
pub open spec fn resolves(root: JsonView, text: Seq<char>) -> bool {
    forall|answer: Result<JsonView, JqFailureView>| #[trigger]
        may_answer(text, text, root, answer) ==> answer is Ok && exists|j: int| #[trigger]
            first_equal(members(root), answer->Ok_0, j)
}

/// Where nothing is wrong with any node of any scope, the graph is had.
pub proof fn law_sound_declarations_give_a_graph(
    root: JsonView,
    sources: SourcesView,
    outcome: Result<Seq<(Seq<char>, Seq<Seq<char>>)>, DagErrorView>,
)
    requires
        collected(root, sources, outcome),
        forall|i: int, path: Seq<int>, node: JsonView|
            0 <= i < members(root).len() && #[trigger] reaches(members(root)[i].1, path, node)
                ==> in_order_itself(root, sources, node),
    ensures
        outcome is Ok,
{
    lemma_scopes_sound(root, sources, 0, Seq::empty(), outcome);
}

proof fn lemma_scopes_sound(
    root: JsonView,
    sources: SourcesView,
    i: int,
    edges: Seq<(Seq<char>, Seq<Seq<char>>)>,
    outcome: Result<Seq<(Seq<char>, Seq<Seq<char>>)>, DagErrorView>,
)
    requires
        0 <= i,
        scopes_settle(root, sources, i, edges, outcome),
        forall|i: int, path: Seq<int>, node: JsonView|
            0 <= i < members(root).len() && #[trigger] reaches(members(root)[i].1, path, node)
                ==> in_order_itself(root, sources, node),
    ensures
        outcome is Ok,
    decreases members(root).len() - i,
{
    let top = members(root);
    if i < top.len() {
        let (name, scope) = top[i];
        let found = choose|found: Result<Seq<(Seq<char>, ())>, DagErrorView>| #[trigger]
            settles(name, declared(name, scope, top), root, sources, Seq::empty(), found)
                && match found {
                Err(error) => outcome == Err::<Seq<(Seq<char>, Seq<Seq<char>>)>, DagErrorView>(
                    error,
                ),
                Ok(deps) => scopes_settle(
                    root,
                    sources,
                    i + 1,
                    edges.push((name, keys_of(deps))),
                    outcome,
                ),
            };
        let declarations = declared(name, scope, top);
        assert forall|k: int| 0 <= k < declarations.len() implies sound(
            #[trigger] declarations[k],
            root,
            sources,
        ) by {
            let what = declarations[k];
            let (path, node) = lemma_declared_reached(name, scope, top, what);
            assert(reaches(top[i].1, path, node));
            let own = own_declared(name, node, top);
            let m = choose|m: int| 0 <= m < own.len() && own[m] == what;
            match what {
                DeclarationView::DependsOn(expr) => {
                    let at = lemma_expression_listed(name, node, top, expr);
                    let text = choose|text: Seq<char>|
                        says(depends_on_items(node)[at], sources, text) && #[trigger] resolves(
                            root,
                            text,
                        );
                    law_expressions_are_what_they_say(depends_on_items(node)[at], sources, text);
                },
                DeclarationView::Reference(_) => {},
                DeclarationView::Invalid(_) => {
                    let inputs = inputs_of(node->Object_0);
                    if member(node, "__nixhapi"@)->0 is String {
                        assert(input_members(node) =~= inputs);
                        assert(own[m] == input_declared(name, inputs[m].0, inputs[m].1, top));
                        assert(input_members(node)[m].1 is String);
                    }
                },
            }
        }
        lemma_settles_sound(name, declarations, root, sources, Seq::empty(), found);
        lemma_scopes_sound(
            root,
            sources,
            i + 1,
            edges.push((name, keys_of(found->Ok_0))),
            outcome,
        );
    }
}

/// That a declaration gives a dependency.
spec fn sound(what: DeclarationView, root: JsonView, sources: SourcesView) -> bool {
    match what {
        DeclarationView::DependsOn(expr) => expression_text(expr, sources) is Ok && resolves(
            root,
            expression_text(expr, sources)->Ok_0,
        ),
        DeclarationView::Reference(_) => true,
        DeclarationView::Invalid(_) => false,
    }
}

proof fn lemma_settles_sound(
    instance: Seq<char>,
    declarations: Seq<DeclarationView>,
    root: JsonView,
    sources: SourcesView,
    deps: Seq<(Seq<char>, ())>,
    outcome: Result<Seq<(Seq<char>, ())>, DagErrorView>,
)
    requires
        settles(instance, declarations, root, sources, deps, outcome),
        forall|k: int|
            0 <= k < declarations.len() ==> sound(#[trigger] declarations[k], root, sources),
    ensures
        outcome is Ok,
    decreases declarations.len(),
{
    let top = members(root);
    if declarations.len() > 0 {
        let rest = declarations.drop_first();
        assert forall|k: int| 0 <= k < rest.len() implies sound(
            #[trigger] rest[k],
            root,
            sources,
        ) by {
            assert(rest[k] == declarations[k + 1]);
        }
        assert(sound(declarations[0], root, sources));
        let name = match declarations[0] {
            DeclarationView::Reference(name) => name,
            DeclarationView::DependsOn(expr) => {
                let text = expression_text(expr, sources)->Ok_0;
                let answer = choose|answer: Result<JsonView, JqFailureView>| #[trigger]
                    may_answer(text, text, root, answer) && match dependency_of(
                        instance,
                        text,
                        members(root),
                        answer,
                    ) {
                        Err(error) => outcome == Err::<Seq<(Seq<char>, ())>, DagErrorView>(error),
                        Ok(name) => settles(
                            instance,
                            rest,
                            root,
                            sources,
                            with_dependency(deps, instance, name),
                            outcome,
                        ),
                    };
                let j = choose|j: int| #[trigger] first_equal(top, answer->Ok_0, j);
                lemma_equal_found(top, answer->Ok_0, 0, j);
                top[j].0
            },
            DeclarationView::Invalid(_) => Seq::empty(),
        };
        lemma_settles_sound(
            instance,
            rest,
            root,
            sources,
            with_dependency(deps, instance, name),
            outcome,
        );
    }
}

/// That the evaluation of `text` may fail with `failure`.
pub open spec fn may_fail(root: JsonView, text: Seq<char>, failure: JqFailureView) -> bool {
    may_answer(text, text, root, Err::<JsonView, JqFailureView>(failure))
}

/// That `text` is an expression of the `dependsOn` list of `node`.
pub open spec fn lists_expression(node: JsonView, sources: SourcesView, text: Seq<char>) -> bool {
    exists|k: int|
        0 <= k < depends_on_items(node).len() && jq_expr_from(#[trigger] depends_on_items(node)[k])
            is Ok && expression_text(jq_expr_from(depends_on_items(node)[k])->Ok_0, sources) == Ok::<
            Seq<char>,
            JqExprErrorView,
        >(text)
}

/// That what `error` says of the scope of `instance` is so of `node`.
pub open spec fn is_fault_of(
    root: JsonView,
    sources: SourcesView,
    instance: Seq<char>,
    node: JsonView,
    error: DagErrorView,
) -> bool {
    match error {
        DagErrorView::UnresolvedInputDependency { instance: blamed, alias, referenced } => blamed
            == instance && !has_key(members(root), referenced) && exists|k: int|
            0 <= k < input_members(node).len() && (#[trigger] input_members(node)[k]).0 == alias
                && input_members(node)[k].1 is String && instance_named(
                input_members(node)[k].1->String_0,
            ) == Some(referenced),
        DagErrorView::InvalidInputPath { instance: blamed, alias, path } => blamed == instance
            && exists|k: int|
            0 <= k < input_members(node).len() && (#[trigger] input_members(node)[k]).0 == alias
                && if input_members(node)[k].1 is String {
                path == input_members(node)[k].1->String_0 && instance_named(path) is None
            } else {
                path == json_text(input_members(node)[k].1)
            },
        DagErrorView::MetadataParse { instance: blamed, message } => blamed == instance && member(
            node,
            "__nixhapi"@,
        ) is Some && meta_from(member(node, "__nixhapi"@)->0) == Err::<NixHapiMetaView, Seq<char>>(
            message,
        ),
        DagErrorView::UnresolvedDependency { instance: blamed, expression } => blamed == instance
            && lists_expression(node, sources, expression) && exists|value: JsonView| #[trigger]
            may_answer(expression, expression, root, Ok::<JsonView, JqFailureView>(value)) && forall|
                l: int,
            |
                0 <= l < members(root).len() ==> !same_json((#[trigger] members(root)[l]).1, value),
        DagErrorView::ExpressionFile { instance: blamed, source } => blamed == instance && exists|
            k: int,
        |
            0 <= k < depends_on_items(node).len() && jq_expr_from(
                #[trigger] depends_on_items(node)[k],
            ) is Ok && expression_text(jq_expr_from(depends_on_items(node)[k])->Ok_0, sources)
                == Err::<Seq<char>, JqExprErrorView>(source),
        DagErrorView::ExpressionParse { instance: blamed, expression, message } => blamed
            == instance && lists_expression(node, sources, expression) && may_fail(
            root,
            expression,
            JqFailureView::Parse(message),
        ),
        DagErrorView::ExpressionCompile { instance: blamed, expression, message } => blamed
            == instance && lists_expression(node, sources, expression) && may_fail(
            root,
            expression,
            JqFailureView::Compile(message),
        ),
        DagErrorView::ExpressionRuntime { instance: blamed, expression, message } => blamed
            == instance && lists_expression(node, sources, expression) && may_fail(
            root,
            expression,
            JqFailureView::Runtime(message),
        ),
        DagErrorView::ExpressionNoOutput { instance: blamed, expression } => blamed == instance
            && lists_expression(node, sources, expression) && may_fail(
            root,
            expression,
            JqFailureView::NoOutput,
        ),
        DagErrorView::ExpressionRefused { instance: blamed, expression } => blamed == instance
            && lists_expression(node, sources, expression) && may_fail(
            root,
            expression,
            JqFailureView::Refused,
        ),
        DagErrorView::Cycle => false,
    }
}

/// An error that comes in place of the graph tells what is wrong with a node in the scope of the
/// instance that it names.
pub proof fn law_error_tells_what_is_wrong(
    root: JsonView,
    sources: SourcesView,
    error: DagErrorView,
)
    requires
        collected(root, sources, Err::<Seq<(Seq<char>, Seq<Seq<char>>)>, DagErrorView>(error)),
    ensures
        exists|i: int, path: Seq<int>, node: JsonView|
            0 <= i < members(root).len() && #[trigger] reaches(members(root)[i].1, path, node)
                && is_fault_of(root, sources, members(root)[i].0, node, error),
{
    lemma_scopes_fault(root, sources, 0, Seq::empty(), error);
}

proof fn lemma_scopes_fault(
    root: JsonView,
    sources: SourcesView,
    i: int,
    edges: Seq<(Seq<char>, Seq<Seq<char>>)>,
    error: DagErrorView,
)
    requires
        0 <= i,
        scopes_settle(
            root,
            sources,
            i,
            edges,
            Err::<Seq<(Seq<char>, Seq<Seq<char>>)>, DagErrorView>(error),
        ),
    ensures
        exists|i: int, path: Seq<int>, node: JsonView|
            0 <= i < members(root).len() && #[trigger] reaches(members(root)[i].1, path, node)
                && is_fault_of(root, sources, members(root)[i].0, node, error),
    decreases members(root).len() - i,
{
    let top = members(root);
    let outcome = Err::<Seq<(Seq<char>, Seq<Seq<char>>)>, DagErrorView>(error);
    let (name, scope) = top[i];
    let found = choose|found: Result<Seq<(Seq<char>, ())>, DagErrorView>| #[trigger]
        settles(name, declared(name, scope, top), root, sources, Seq::empty(), found) && match found {
            Err(error) => outcome == Err::<Seq<(Seq<char>, Seq<Seq<char>>)>, DagErrorView>(error),
            Ok(deps) => scopes_settle(
                root,
                sources,
                i + 1,
                edges.push((name, keys_of(deps))),
                outcome,
            ),
        };
    match found {
        Ok(deps) => lemma_scopes_fault(
            root,
            sources,
            i + 1,
            edges.push((name, keys_of(deps))),
            error,
        ),
        Err(_) => {
            let declarations = declared(name, scope, top);
            let k = lemma_settles_fault(name, declarations, root, sources, Seq::empty(), error);
            let what = declarations[k];
            let (path, node) = lemma_declared_reached(name, scope, top, what);
            let own = own_declared(name, node, top);
            let m = choose|m: int| 0 <= m < own.len() && own[m] == what;
            assert(reaches(top[i].1, path, node));
            match what {
                DeclarationView::DependsOn(expr) => {
                    let at = lemma_expression_listed(name, node, top, expr);
                    assert(jq_expr_from(depends_on_items(node)[at]) is Ok);
                    if expression_text(expr, sources) is Ok {
                        let text = expression_text(expr, sources)->Ok_0;
                        assert(lists_expression(node, sources, text));
                        let answer = choose|answer: Result<JsonView, JqFailureView>| #[trigger]
                            may_answer(text, text, root, answer) && dependency_of(
                                name,
                                text,
                                top,
                                answer,
                            ) == Err::<Seq<char>, DagErrorView>(error);
                        if answer is Ok {
                            let value = answer->Ok_0;
                            assert(may_answer(
                                text,
                                text,
                                root,
                                Ok::<JsonView, JqFailureView>(value),
                            ));
                            lemma_none_equal(top, value, 0);
                        }
                    }
                },
                DeclarationView::Reference(_) => {},
                DeclarationView::Invalid(_) => {
                    if member(node, "__nixhapi"@)->0 is String {
                        let inputs = inputs_of(node->Object_0);
                        assert(input_members(node) =~= inputs);
                        assert(own[m] == input_declared(name, inputs[m].0, inputs[m].1, top));
                        assert(input_members(node)[m].0 == inputs[m].0);
                    }
                },
            }
            assert(is_fault_of(root, sources, top[i].0, node, error));
        },
    }
}

/// Where no instance is found, none equals the value.
proof fn lemma_none_equal(top: Seq<(Seq<char>, JsonView)>, value: JsonView, i: int)
    requires
        0 <= i,
        instance_with(top, value, i) is None,
    ensures
        forall|l: int| i <= l < top.len() ==> !same_json((#[trigger] top[l]).1, value),
    decreases top.len() - i,
{
    if i < top.len() {
        lemma_none_equal(top, value, i + 1);
    }
}

/// A walk that ends in an error ends at a declaration that has it.
proof fn lemma_settles_fault(
    instance: Seq<char>,
    declarations: Seq<DeclarationView>,
    root: JsonView,
    sources: SourcesView,
    deps: Seq<(Seq<char>, ())>,
    error: DagErrorView,
) -> (k: int)
    requires
        settles(
            instance,
            declarations,
            root,
            sources,
            deps,
            Err::<Seq<(Seq<char>, ())>, DagErrorView>(error),
        ),
    ensures
        0 <= k < declarations.len(),
        match declarations[k] {
            DeclarationView::Invalid(fault) => fault == error,
            DeclarationView::Reference(_) => false,
            DeclarationView::DependsOn(expr) => match expression_text(expr, sources) {
                Err(source) => error == (DagErrorView::ExpressionFile { instance, source }),
                Ok(text) => exists|answer: Result<JsonView, JqFailureView>| #[trigger]
                    may_answer(text, text, root, answer) && dependency_of(
                        instance,
                        text,
                        members(root),
                        answer,
                    ) == Err::<Seq<char>, DagErrorView>(error),
            },
        },
    decreases declarations.len(),
{
    let outcome = Err::<Seq<(Seq<char>, ())>, DagErrorView>(error);
    let rest = declarations.drop_first();
    match declarations[0] {
        DeclarationView::Invalid(_) => 0,
        DeclarationView::Reference(name) => {
            let more = with_dependency(deps, instance, name);
            1 + lemma_settles_fault(instance, rest, root, sources, more, error)
        },
        DeclarationView::DependsOn(expr) => {
            if expression_text(expr, sources) is Err {
                0
            } else {
                let text = expression_text(expr, sources)->Ok_0;
                let answer = choose|answer: Result<JsonView, JqFailureView>| #[trigger]
                    may_answer(text, text, root, answer) && match dependency_of(
                        instance,
                        text,
                        members(root),
                        answer,
                    ) {
                        Err(error) => outcome == Err::<Seq<(Seq<char>, ())>, DagErrorView>(error),
                        Ok(name) => settles(
                            instance,
                            rest,
                            root,
                            sources,
                            with_dependency(deps, instance, name),
                            outcome,
                        ),
                    };
                match dependency_of(instance, text, members(root), answer) {
                    Err(_) => 0,
                    Ok(name) => {
                        let more = with_dependency(deps, instance, name);
                        1 + lemma_settles_fault(instance, rest, root, sources, more, error)
                    },
                }
            }
        },
    }
}

/// That a `dependsOn` list in the directives of `node` names the file `path`.
pub open spec fn names_file(node: JsonView, path: Seq<char>) -> bool {
    meta_from(member(node, "__nixhapi"@)->0) is Ok && exists|k: int|
        0 <= k < depends_on_items(node).len() && jq_expr_from(#[trigger] depends_on_items(node)[k])
            == Ok::<JqExprView, Seq<char>>(
            JqExprView::Structured(JqExprStructuredView::File { path }),
        )
}

/// The files that are to be read are those that the `dependsOn` lists in the scopes name, all of
/// them and no others.
pub proof fn law_expression_files_are_those_named(root: JsonView, path: Seq<char>)
    ensures
        files_of(root, members(root).len() as int).contains(path) <==> exists|
            i: int,
            way: Seq<int>,
            node: JsonView,
        |
            0 <= i < members(root).len() && #[trigger] reaches(members(root)[i].1, way, node)
                && names_file(node, path),
{
    let top = members(root);
    let all = files_of(root, top.len() as int);
    if all.contains(path) {
        let (i, k) = lemma_file_origin(root, top.len() as int, path);
        let (name, scope) = top[i];
        let found = declared(name, scope, top);
        let expr = JqExprView::Structured(JqExprStructuredView::File { path });
        assert(found.contains(DeclarationView::DependsOn(expr)));
        let (way, node) = lemma_declared_reached(
            name,
            scope,
            top,
            DeclarationView::DependsOn(expr),
        );
        let m = lemma_expression_listed(name, node, top, expr);
        assert(jq_expr_from(depends_on_items(node)[m]) == Ok::<JqExprView, Seq<char>>(expr));
        let own = own_declared(name, node, top);
        let o = choose|o: int| 0 <= o < own.len() && own[o] == DeclarationView::DependsOn(expr);
        assert(names_file(node, path));
        assert(reaches(top[i].1, way, node));
    }
    if exists|i: int, way: Seq<int>, node: JsonView|
        0 <= i < top.len() && #[trigger] reaches(top[i].1, way, node) && names_file(node, path) {
        let (i, way, node) = choose|i: int, way: Seq<int>, node: JsonView|
            0 <= i < top.len() && #[trigger] reaches(top[i].1, way, node) && names_file(node, path);
        let (name, scope) = top[i];
        let found = declared(name, scope, top);
        let items = depends_on_items(node);
        let expr = JqExprView::Structured(JqExprStructuredView::File { path });
        let what = DeclarationView::DependsOn(expr);
        let k = choose|k: int|
            0 <= k < items.len() && jq_expr_from(#[trigger] items[k]) == Ok::<
                JqExprView,
                Seq<char>,
            >(expr);
        let block = member(node, "__nixhapi"@)->0;
        let entries = node->Object_0;
        lemma_expression_read(items, items.len() as int, k);
        assert(meta_declared(name, block)[k] == what);
        lemma_contains_concat(
            meta_declared(name, block),
            members_declared(name, entries, entries.len(), top),
            what,
        );
        lemma_reached_declared(name, scope, way, node, top, what);
        let m = choose|m: int| 0 <= m < found.len() && found[m] == what;
        lemma_file_declared(found, found.len() as int, m);
        lemma_files_of(root, top.len() as int, i);
        let files = files_declared(found, found.len() as int);
        let f = choose|f: int| 0 <= f < files.len() && files[f] == path;
        assert(all.contains(files[f]));
    }
}

/// A file that is to be read comes from a declaration.
proof fn lemma_file_origin(root: JsonView, n: int, path: Seq<char>) -> (origin: (int, int))
    requires
        n <= members(root).len(),
        files_of(root, n).contains(path),
    ensures
        0 <= origin.0 < n,
        ({
            let (name, scope) = members(root)[origin.0];
            let found = declared(name, scope, members(root));
            0 <= origin.1 < found.len() && found[origin.1] == DeclarationView::DependsOn(
                JqExprView::Structured(JqExprStructuredView::File { path }),
            )
        }),
    decreases n,
{
    let (name, scope) = members(root)[n - 1];
    let found = declared(name, scope, members(root));
    let before = files_of(root, n - 1);
    let last = files_declared(found, found.len() as int);
    lemma_contains_concat(before, last, path);
    if before.contains(path) {
        lemma_file_origin(root, n - 1, path)
    } else {
        (n - 1, lemma_file_declaration(found, found.len() as int, path))
    }
}

proof fn lemma_file_declaration(
    declarations: Seq<DeclarationView>,
    n: int,
    path: Seq<char>,
) -> (k: int)
    requires
        n <= declarations.len(),
        files_declared(declarations, n).contains(path),
    ensures
        0 <= k < n,
        declarations[k] == DeclarationView::DependsOn(
            JqExprView::Structured(JqExprStructuredView::File { path }),
        ),
    decreases n,
{
    let before = files_declared(declarations, n - 1);
    let all = files_declared(declarations, n);
    if before.contains(path) {
        lemma_file_declaration(declarations, n - 1, path)
    } else {
        let i = choose|i: int| 0 <= i < all.len() && all[i] == path;
        if i < before.len() {
            assert(before[i] == path);
        }
        n - 1
    }
}

/// The waves hold the instances, each in exactly one wave, and nothing else; the names of a wave
/// are in ascending order.
pub proof fn law_waves_hold_the_instances(
    root: JsonView,
    sources: SourcesView,
    waves: Seq<Seq<Seq<char>>>,
    name: Seq<char>,
    v: int,
    w: int,
)
    requires
        may_have_waves(root, sources, Ok::<Seq<Seq<Seq<char>>>, DagErrorView>(waves)),
    ensures
        has_key(members(root), name) <==> exists|u: int|
            0 <= u < waves.len() && (#[trigger] waves[u]).contains(name),
        0 <= v < waves.len() && 0 <= w < waves.len() && waves[v].contains(name)
            && waves[w].contains(name) ==> v == w,
        0 <= w < waves.len() ==> waves[w].len() > 0,
        0 <= w < waves.len() ==> forall|a: int, b: int|
            0 <= a < b < waves[w].len() ==> text_lt(
                #[trigger] waves[w][a],
                #[trigger] waves[w][b],
            ),
{
    let outcome = Ok::<Seq<Seq<Seq<char>>>, DagErrorView>(waves);
    let found = choose|found: Result<Seq<(Seq<char>, Seq<Seq<char>>)>, DagErrorView>| #[trigger]
        collected(root, sources, found) && waves_follow(found, outcome);
    let edges = found->Ok_0;
    law_graph_of_instances(root, sources, edges);
    let top = members(root);
    assert(has_key(edges, name) <==> has_key(top, name)) by {
        assert(keys_of(edges) == keys_of(top));
        assert(keys_of(edges).len() == edges.len() && keys_of(top).len() == top.len());
        if has_key(edges, name) {
            let i = choose|i: int| 0 <= i < edges.len() && (#[trigger] edges[i]).0 == name;
            assert(keys_of(edges)[i] == edges[i].0 && keys_of(top)[i] == top[i].0);
            assert(top[i].0 == name);
        }
        if has_key(top, name) {
            let i = choose|i: int| 0 <= i < top.len() && (#[trigger] top[i]).0 == name;
            assert(keys_of(edges)[i] == edges[i].0 && keys_of(top)[i] == top[i].0);
            assert(edges[i].0 == name);
        }
    }
    if has_key(top, name) {
        assert(before_wave(waves, name, waves.len() as int));
        let u = choose|u: int| u < waves.len() && #[trigger] in_wave(waves, name, u);
        assert(waves[u].contains(name));
    }
    if exists|u: int| 0 <= u < waves.len() && (#[trigger] waves[u]).contains(name) {
        let u = choose|u: int| 0 <= u < waves.len() && (#[trigger] waves[u]).contains(name);
        assert(in_wave(waves, name, u));
    }
    if 0 <= v < waves.len() && 0 <= w < waves.len() && waves[v].contains(name)
        && waves[w].contains(name) {
        assert(in_wave(waves, name, v));
        assert(in_wave(waves, name, w));
    }
}

/// An instance waits no longer than it must: in every wave but the first it stands right after a
/// wave that holds one of its dependencies.
pub proof fn law_instances_wait_for_a_dependency(
    root: JsonView,
    sources: SourcesView,
    waves: Seq<Seq<Seq<char>>>,
    name: Seq<char>,
    w: int,
)
    requires
        may_have_waves(root, sources, Ok::<Seq<Seq<Seq<char>>>, DagErrorView>(waves)),
        0 < w < waves.len(),
        waves[w].contains(name),
    ensures
        exists|edges: Seq<(Seq<char>, Seq<Seq<char>>)>, dependency: Seq<char>|
            collected(
                root,
                sources,
                Ok::<Seq<(Seq<char>, Seq<Seq<char>>)>, DagErrorView>(edges),
            ) && #[trigger] depends(edges, name, dependency) && waves[w - 1].contains(dependency),
{
    let outcome = Ok::<Seq<Seq<Seq<char>>>, DagErrorView>(waves);
    let found = choose|found: Result<Seq<(Seq<char>, Seq<Seq<char>>)>, DagErrorView>| #[trigger]
        collected(root, sources, found) && waves_follow(found, outcome);
    let edges = found->Ok_0;
    assert(in_wave(waves, name, w));
    assert(needs_wave(edges, waves, name, w - 1));
    let dependency = choose|dependency: Seq<char>| #[trigger]
        depends(edges, name, dependency) && in_wave(waves, dependency, w - 1);
    assert(depends(edges, name, dependency));
}

/// That `error` tells of `failure` in the evaluation of `expression` on behalf of `instance`.
pub open spec fn is_failure_of(
    error: DagErrorView,
    instance: Seq<char>,
    expression: Seq<char>,
    failure: JqFailureView,
) -> bool {
    match failure {
        JqFailureView::Parse(message) => error == (DagErrorView::ExpressionParse {
            instance,
            expression,
            message,
        }),
        JqFailureView::Compile(message) => error == (DagErrorView::ExpressionCompile {
            instance,
            expression,
            message,
        }),
        JqFailureView::Runtime(message) => error == (DagErrorView::ExpressionRuntime {
            instance,
            expression,
            message,
        }),
        JqFailureView::NoOutput => error == (DagErrorView::ExpressionNoOutput {
            instance,
            expression,
        }),
        JqFailureView::Refused => error == (DagErrorView::ExpressionRefused {
            instance,
            expression,
        }),
    }
}

} // verus!
