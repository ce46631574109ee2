//! What the check of `derived-from` inputs is for, over the JSON that holds them.

use crate::dag::instance_named;
use crate::dag_laws::{input_members, lemma_contains_concat, part, reaches};
use crate::derived::derived_inputs;
use crate::json::{member, member_text, members, JsonView};
use crate::saturation::{
    child_path, derived_nodes, input_fault, instance_nodes, lemma_input_without_fault,
    lemma_no_node_fault, lemma_node_without_fault, node_fault, nodes_fault, nodes_in, nodes_under,
    saturation_fault, wave_index, DerivedFromNodeView, SaturationErrorView,
};
use crate::text::decimal;
use vstd::prelude::*;

verus! {

/// The wave of an instance is the last in which it stands.
pub proof fn law_wave_of_an_instance(waves: Seq<Seq<Seq<char>>>, name: Seq<char>, w: int)
    ensures
        wave_index(waves, name) == Some(w) <==> 0 <= w < waves.len() && waves[w].contains(name)
            && forall|u: int| w < u < waves.len() ==> !(#[trigger] waves[u]).contains(name),
        wave_index(waves, name) is None <==> forall|u: int|
            0 <= u < waves.len() ==> !(#[trigger] waves[u]).contains(name),
    decreases waves.len(),
{
    if waves.len() > 0 {
        let before = waves.drop_last();
        law_wave_of_an_instance(before, name, w);
        assert(waves.last() == waves[waves.len() - 1]);
        assert forall|u: int| 0 <= u < before.len() implies #[trigger] before[u] == waves[u] by {}
        if !waves.last().contains(name) {
            if wave_index(before, name) == Some(w) {
                assert forall|u: int| w < u < waves.len() implies !(#[trigger] waves[u]).contains(
                    name,
                ) by {
                    if u < before.len() {
                        assert(!before[u].contains(name));
                    }
                }
                assert(before[w] == waves[w]);
            }
            if 0 <= w < waves.len() && waves[w].contains(name) && (forall|u: int|
                w < u < waves.len() ==> !(#[trigger] waves[u]).contains(name)) {
                assert(before[w] == waves[w]);
                assert forall|u: int| w < u < before.len() implies !(#[trigger] before[u]).contains(
                    name,
                ) by {
                    assert(!waves[u].contains(name));
                }
            }
            if wave_index(before, name) is None {
                assert forall|u: int| 0 <= u < waves.len() implies !(#[trigger] waves[u]).contains(
                    name,
                ) by {
                    if u < before.len() {
                        assert(!before[u].contains(name));
                    }
                }
            } else {
                let v = wave_index(before, name)->0;
                law_wave_of_an_instance(before, name, v);
                assert(waves[v].contains(name));
            }
        } else {
            assert(waves[waves.len() - 1].contains(name));
        }
    }
}

/// The dotted path to the end of `path` under `prefix`: the names of the members and the numbers
/// of the items on the way.
pub open spec fn dotted(prefix: Seq<char>, node: JsonView, path: Seq<int>) -> Seq<char>
    decreases path.len(),
{
    if path.len() == 0 {
        prefix
    } else {
        let key = match node {
            JsonView::Object(entries) => entries[path[0]].0,
            _ => decimal(path[0] as nat),
        };
        let here = if prefix.len() == 0 {
            key
        } else {
            prefix + "."@ + key
        };
        dotted(here, part(node, path[0])->0, path.drop_first())
    }
}

/// What is told of a `derived-from` node.
spec fn told(
    instance: Seq<char>,
    prefix: Seq<char>,
    scope: JsonView,
    path: Seq<int>,
    node: JsonView,
) -> DerivedFromNodeView {
    DerivedFromNodeView {
        field_path: dotted(prefix, scope, path),
        owning_instance: instance,
        inputs: derived_inputs(node),
    }
}

/// A `derived-from` node that the walk comes to is found.
proof fn lemma_node_found(
    instance: Seq<char>,
    prefix: Seq<char>,
    scope: JsonView,
    path: Seq<int>,
    node: JsonView,
)
    requires
        reaches(scope, path, node),
        member_text(node, "__nixhapi"@) == Some("derived-from"@),
    ensures
        derived_nodes(scope, instance, prefix).contains(told(instance, prefix, scope, path, node)),
    decreases path.len(),
{
    let what = told(instance, prefix, scope, path, node);
    if path.len() == 0 {
        assert(derived_nodes(scope, instance, prefix)[0] == what);
    } else {
        let i = path[0];
        let inner = part(scope, i)->0;
        match scope {
            JsonView::Object(entries) => {
                let here = child_path(prefix, entries[i].0);
                lemma_node_found(instance, here, inner, path.drop_first(), node);
                lemma_node_under(entries, entries.len(), instance, prefix, i, what);
            },
            JsonView::Array(items) => {
                let here = child_path(prefix, decimal(i as nat));
                lemma_node_found(instance, here, inner, path.drop_first(), node);
                lemma_node_in(items, items.len(), instance, prefix, i, what);
            },
            _ => {},
        }
    }
}

proof fn lemma_node_under(
    entries: Seq<(Seq<char>, JsonView)>,
    n: nat,
    instance: Seq<char>,
    prefix: Seq<char>,
    i: int,
    what: DerivedFromNodeView,
)
    requires
        0 <= i < n <= entries.len(),
        !(entries[i].0 == "__nixhapi"@ && entries[i].1 is Object),
        derived_nodes(entries[i].1, instance, child_path(prefix, entries[i].0)).contains(what),
    ensures
        nodes_under(entries, n, instance, prefix).contains(what),
    decreases n,
{
    let before = nodes_under(entries, (n - 1) as nat, instance, prefix);
    let (key, child) = entries[n - 1];
    let last = if key == "__nixhapi"@ && child is Object {
        Seq::empty()
    } else {
        derived_nodes(child, instance, child_path(prefix, key))
    };
    lemma_contains_concat(before, last, what);
    if i < n - 1 {
        lemma_node_under(entries, (n - 1) as nat, instance, prefix, i, what);
    }
}

proof fn lemma_node_in(
    items: Seq<JsonView>,
    n: nat,
    instance: Seq<char>,
    prefix: Seq<char>,
    i: int,
    what: DerivedFromNodeView,
)
    requires
        0 <= i < n <= items.len(),
        derived_nodes(items[i], instance, child_path(prefix, decimal(i as nat))).contains(what),
    ensures
        nodes_in(items, n, instance, prefix).contains(what),
    decreases n,
{
    lemma_contains_concat(
        nodes_in(items, (n - 1) as nat, instance, prefix),
        derived_nodes(items[n - 1], instance, child_path(prefix, decimal((n - 1) as nat))),
        what,
    );
    if i < n - 1 {
        lemma_node_in(items, (n - 1) as nat, instance, prefix, i, what);
    }
}

/// A node that is found is a `derived-from` node that the walk comes to.
proof fn lemma_found_node(
    instance: Seq<char>,
    prefix: Seq<char>,
    scope: JsonView,
    what: DerivedFromNodeView,
) -> (found: (Seq<int>, JsonView))
    requires
        derived_nodes(scope, instance, prefix).contains(what),
    ensures
        reaches(scope, found.0, found.1),
        member_text(found.1, "__nixhapi"@) == Some("derived-from"@),
        what == told(instance, prefix, scope, found.0, found.1),
    decreases scope, 0nat,
{
    if member_text(scope, "__nixhapi"@) == Some("derived-from"@) {
        let nodes = derived_nodes(scope, instance, prefix);
        let k = choose|k: int| 0 <= k < nodes.len() && nodes[k] == what;
        (Seq::empty(), scope)
    } else {
        let (i, inner) = match scope {
            JsonView::Object(entries) => lemma_found_under(
                entries,
                entries.len(),
                instance,
                prefix,
                what,
            ),
            JsonView::Array(items) => lemma_found_in(items, items.len(), instance, prefix, what),
            _ => (0int, (Seq::empty(), scope)),
        };
        let path = seq![i] + inner.0;
        assert(path.drop_first() =~= inner.0);
        (path, inner.1)
    }
}

proof fn lemma_found_under(
    entries: Seq<(Seq<char>, JsonView)>,
    n: nat,
    instance: Seq<char>,
    prefix: Seq<char>,
    what: DerivedFromNodeView,
) -> (found: (int, (Seq<int>, JsonView)))
    requires
        nodes_under(entries, n, instance, prefix).contains(what),
    ensures
        0 <= found.0 < entries.len(),
        !(entries[found.0].0 == "__nixhapi"@ && entries[found.0].1 is Object),
        reaches(entries[found.0].1, found.1.0, found.1.1),
        member_text(found.1.1, "__nixhapi"@) == Some("derived-from"@),
        what == told(
            instance,
            child_path(prefix, entries[found.0].0),
            entries[found.0].1,
            found.1.0,
            found.1.1,
        ),
    decreases entries, n,
{
    let before = nodes_under(entries, (n - 1) as nat, instance, prefix);
    let (key, child) = entries[n - 1];
    let last = if key == "__nixhapi"@ && child is Object {
        Seq::empty()
    } else {
        derived_nodes(child, instance, child_path(prefix, key))
    };
    lemma_contains_concat(before, last, what);
    if before.contains(what) {
        lemma_found_under(entries, (n - 1) as nat, instance, prefix, what)
    } else {
        (n - 1, lemma_found_node(instance, child_path(prefix, key), child, what))
    }
}

proof fn lemma_found_in(
    items: Seq<JsonView>,
    n: nat,
    instance: Seq<char>,
    prefix: Seq<char>,
    what: DerivedFromNodeView,
) -> (found: (int, (Seq<int>, JsonView)))
    requires
        nodes_in(items, n, instance, prefix).contains(what),
    ensures
        0 <= found.0 < items.len(),
        reaches(items[found.0], found.1.0, found.1.1),
        member_text(found.1.1, "__nixhapi"@) == Some("derived-from"@),
        what == told(
            instance,
            child_path(prefix, decimal(found.0 as nat)),
            items[found.0],
            found.1.0,
            found.1.1,
        ),
    decreases items, n,
{
    let before = nodes_in(items, (n - 1) as nat, instance, prefix);
    let here = child_path(prefix, decimal((n - 1) as nat));
    lemma_contains_concat(before, derived_nodes(items[n - 1], instance, here), what);
    if before.contains(what) {
        lemma_found_in(items, (n - 1) as nat, instance, prefix, what)
    } else {
        (n - 1, lemma_found_node(instance, here, items[n - 1], what))
    }
}

proof fn lemma_instance_node(
    top: Seq<(Seq<char>, JsonView)>,
    n: int,
    i: int,
    what: DerivedFromNodeView,
)
    requires
        0 <= i < n <= top.len(),
        derived_nodes(top[i].1, top[i].0, top[i].0).contains(what),
    ensures
        instance_nodes(top, n).contains(what),
    decreases n,
{
    let (name, scope) = top[n - 1];
    lemma_contains_concat(instance_nodes(top, n - 1), derived_nodes(scope, name, name), what);
    if i < n - 1 {
        lemma_instance_node(top, n - 1, i, what);
    }
}

proof fn lemma_node_instance(
    top: Seq<(Seq<char>, JsonView)>,
    n: int,
    what: DerivedFromNodeView,
) -> (i: int)
    requires
        n <= top.len(),
        instance_nodes(top, n).contains(what),
    ensures
        0 <= i < n,
        derived_nodes(top[i].1, top[i].0, top[i].0).contains(what),
    decreases n,
{
    let (name, scope) = top[n - 1];
    let before = instance_nodes(top, n - 1);
    lemma_contains_concat(before, derived_nodes(scope, name, name), what);
    if before.contains(what) {
        lemma_node_instance(top, n - 1, what)
    } else {
        n - 1
    }
}

/// That all inputs of a node are paths.
pub open spec fn inputs_are_paths(node: JsonView) -> bool {
    forall|k: int|
        0 <= k < input_members(node).len() ==> (#[trigger] input_members(node)[k]).1 is String
}

/// The inputs that are read are those that stand in the node.
proof fn lemma_inputs(node: JsonView)
    requires
        member_text(node, "__nixhapi"@) == Some("derived-from"@),
        inputs_are_paths(node),
    ensures
        derived_inputs(node).len() == input_members(node).len(),
        forall|k: int|
            0 <= k < input_members(node).len() ==> #[trigger] derived_inputs(node)[k] == (
                input_members(node)[k].0,
                input_members(node)[k].1->String_0,
            ),
{
    if let Some(value) = member(node, "inputs"@) {
        assert(members(value) =~= input_members(node));
        assert forall|i: int| 0 <= i < members(value).len() implies (#[trigger] members(value)[i]).1
            is String by {
            assert(input_members(node)[i].1 is String);
        }
    }
}

/// That an input of a node of `owner` is available by the time of `owner`: it names `owner`
/// itself, or an instance whose wave is earlier.
pub open spec fn is_in_time(waves: Seq<Seq<Seq<char>>>, owner: Seq<char>, path: Seq<char>) -> bool {
    &&& instance_named(path) is Some
    &&& instance_named(path)->0 == owner || exists|v: int, w: int|
        #![trigger waves[v], waves[w]]
        0 <= v < w < waves.len() && waves[v].contains(instance_named(path)->0)
            && waves[w].contains(owner)
}

/// That every instance stands in at most one wave.
pub open spec fn one_wave_each(waves: Seq<Seq<Seq<char>>>) -> bool {
    forall|name: Seq<char>, v: int, w: int|
        #![trigger waves[v].contains(name), waves[w].contains(name)]
        0 <= v < waves.len() && 0 <= w < waves.len() && waves[v].contains(name)
            && waves[w].contains(name) ==> v == w
}

/// Where the check passes, every input of every `derived-from` node in the scope of an instance
/// that stands in a wave is available by the time of that wave.
pub proof fn law_checked_inputs_are_in_time(
    root: JsonView,
    waves: Seq<Seq<Seq<char>>>,
    i: int,
    path: Seq<int>,
    node: JsonView,
    k: int,
    w: int,
)
    requires
        saturation_fault(root, waves) is None,
        0 <= i < members(root).len(),
        reaches(members(root)[i].1, path, node),
        inputs_are_paths(node),
        0 <= k < input_members(node).len(),
        one_wave_each(waves),
        0 <= w < waves.len(),
        waves[w].contains(members(root)[i].0),
    ensures
        is_in_time(waves, members(root)[i].0, input_members(node)[k].1->String_0),
{
    let top = members(root);
    let (owner, scope) = top[i];
    let nodes = instance_nodes(top, top.len() as int);
    lemma_inputs(node);
    let what = told(owner, owner, scope, path, node);
    lemma_node_found(owner, owner, scope, path, node);
    lemma_instance_node(top, top.len() as int, i, what);
    let j = choose|j: int| 0 <= j < nodes.len() && nodes[j] == what;
    lemma_node_without_fault(nodes, waves, nodes.len() as int, j);
    lemma_input_without_fault(what, waves, what.inputs.len() as int, k);
    let text = input_members(node)[k].1->String_0;
    assert(what.inputs[k] == (input_members(node)[k].0, text));
    law_wave_of_an_instance(waves, owner, w);
    let name = instance_named(text)->0;
    if name != owner {
        let v = wave_index(waves, name)->0;
        law_wave_of_an_instance(waves, name, v);
        assert(waves[v].contains(name));
    }
}

/// Where every input of every `derived-from` node in the scopes is available in time, the check
/// passes.
pub proof fn law_inputs_in_time_pass_the_check(root: JsonView, waves: Seq<Seq<Seq<char>>>)
    requires
        one_wave_each(waves),
        forall|i: int, path: Seq<int>, node: JsonView|
            0 <= i < members(root).len() && #[trigger] reaches(members(root)[i].1, path, node)
                ==> inputs_are_paths(node) && forall|k: int|
                0 <= k < input_members(node).len() ==> is_in_time(
                    waves,
                    members(root)[i].0,
                    (#[trigger] input_members(node)[k]).1->String_0,
                ),
    ensures
        saturation_fault(root, waves) is None,
{
    let top = members(root);
    let nodes = instance_nodes(top, top.len() as int);
    assert forall|j: int| 0 <= j < nodes.len() implies node_fault(
        #[trigger] nodes[j],
        waves,
        nodes[j].inputs.len() as int,
    ) is None by {
        let what = nodes[j];
        assert(nodes.contains(what));
        let i = lemma_node_instance(top, top.len() as int, what);
        let (owner, scope) = top[i];
        let (path, node) = lemma_found_node(owner, owner, scope, what);
        assert(reaches(top[i].1, path, node));
        lemma_inputs(node);
        assert forall|k: int| 0 <= k < what.inputs.len() implies input_fault(
            what,
            #[trigger] what.inputs[k],
            waves,
        ) is None by {
            let text = input_members(node)[k].1->String_0;
            assert(what.inputs[k] == (input_members(node)[k].0, text));
            assert(is_in_time(waves, top[i].0, input_members(node)[k].1->String_0));
            let name = instance_named(text)->0;
            if name != owner {
                let (v, w) = choose|v: int, w: int|
                    #![trigger waves[v], waves[w]]
                    0 <= v < w < waves.len() && waves[v].contains(name) && waves[w].contains(owner);
                lemma_only_wave(waves, name, v);
                lemma_only_wave(waves, owner, w);
            }
        }
        lemma_no_node_fault(what, waves, what.inputs.len() as int);
    }
    lemma_nodes_pass(nodes, waves, nodes.len() as int);
}

proof fn lemma_only_wave(waves: Seq<Seq<Seq<char>>>, name: Seq<char>, w: int)
    requires
        one_wave_each(waves),
        0 <= w < waves.len(),
        waves[w].contains(name),
    ensures
        wave_index(waves, name) == Some(w),
{
    law_wave_of_an_instance(waves, name, w);
    assert forall|u: int| w < u < waves.len() implies !(#[trigger] waves[u]).contains(name) by {
        if waves[u].contains(name) {
            assert(u == w);
        }
    }
}

proof fn lemma_nodes_pass(nodes: Seq<DerivedFromNodeView>, waves: Seq<Seq<Seq<char>>>, n: int)
    requires
        0 <= n <= nodes.len(),
        forall|j: int|
            0 <= j < nodes.len() ==> node_fault(
                #[trigger] nodes[j],
                waves,
                nodes[j].inputs.len() as int,
            ) is None,
    ensures
        nodes_fault(nodes, waves, n) is None,
    decreases n,
{
    if n > 0 {
        lemma_nodes_pass(nodes, waves, n - 1);
        assert(node_fault(nodes[n - 1], waves, nodes[n - 1].inputs.len() as int) is None);
    }
}

/// That what `error` tells is so of an input of a `derived-from` node in the scope of `owner`, at
/// the dotted path that it names.
pub open spec fn is_input_fault(
    waves: Seq<Seq<Seq<char>>>,
    owner: Seq<char>,
    field: Seq<char>,
    input: (Seq<char>, Seq<char>),
    error: SaturationErrorView,
) -> bool {
    let (alias, path) = input;
    match error {
        SaturationErrorView::InvalidInputPath { field_path, input_alias, path: told } => field_path
            == field && input_alias == alias && told == path && instance_named(path) is None,
        SaturationErrorView::InputReferencesMissingInstance {
            field_path,
            input_alias,
            referenced_instance,
        } => field_path == field && input_alias == alias && instance_named(path) == Some(
            referenced_instance,
        ) && referenced_instance != owner && forall|u: int|
            0 <= u < waves.len() ==> !(#[trigger] waves[u]).contains(referenced_instance),
        SaturationErrorView::InputReferencesLaterWave {
            field_path,
            input_alias,
            referenced_instance,
            referenced_wave,
            owning_wave,
        } => field_path == field && input_alias == alias && instance_named(path) == Some(
            referenced_instance,
        ) && referenced_instance != owner && 0 <= referenced_wave < waves.len()
            && waves[referenced_wave].contains(referenced_instance) && referenced_wave
            >= owning_wave && if exists|u: int|
            0 <= u < waves.len() && (#[trigger] waves[u]).contains(owner) {
            0 <= owning_wave < waves.len() && waves[owning_wave].contains(owner)
        } else {
            owning_wave == 0
        },
    }
}

/// Where the check fails, its error tells what is wrong with an input of a `derived-from` node
/// that stands at the path that the error names.
pub proof fn law_failed_check_tells_the_input(
    root: JsonView,
    waves: Seq<Seq<Seq<char>>>,
    error: SaturationErrorView,
)
    requires
        saturation_fault(root, waves) == Some(error),
    ensures
        exists|i: int, path: Seq<int>, node: JsonView|
            0 <= i < members(root).len() && #[trigger] reaches(members(root)[i].1, path, node)
                && tells_of(
                waves,
                members(root)[i].0,
                dotted(members(root)[i].0, members(root)[i].1, path),
                node,
                error,
            ),
{
    let top = members(root);
    let nodes = instance_nodes(top, top.len() as int);
    let (j, k) = lemma_fault_origin(nodes, waves, nodes.len() as int, error);
    let what = nodes[j];
    assert(nodes.contains(what));
    let i = lemma_node_instance(top, top.len() as int, what);
    let (owner, scope) = top[i];
    let (path, node) = lemma_found_node(owner, owner, scope, what);
    assert(reaches(top[i].1, path, node));
    lemma_inputs_exist(node, k);
    let input = what.inputs[k];
    let owning = wave_index(waves, owner);
    law_wave_of_an_instance(waves, owner, 0);
    if owning is Some {
        law_wave_of_an_instance(waves, owner, owning->0);
        assert(waves[owning->0].contains(owner));
    }
    if let Some(name) = instance_named(input.1) {
        law_wave_of_an_instance(waves, name, 0);
        if wave_index(waves, name) is Some {
            law_wave_of_an_instance(waves, name, wave_index(waves, name)->0);
        }
    }
    assert(is_input_fault(waves, owner, what.field_path, input, error));
    assert(input_members(node)[k].0 == input.0);
    assert(tells_of(waves, owner, dotted(owner, scope, path), node, error));
}

/// That what `error` tells is so of an input of `node`.
pub open spec fn tells_of(
    waves: Seq<Seq<Seq<char>>>,
    owner: Seq<char>,
    field: Seq<char>,
    node: JsonView,
    error: SaturationErrorView,
) -> bool {
    exists|k: int|
        0 <= k < input_members(node).len() && (#[trigger] input_members(node)[k]).1 is String
            && is_input_fault(
            waves,
            owner,
            field,
            (input_members(node)[k].0, input_members(node)[k].1->String_0),
            error,
        )
}

proof fn lemma_inputs_exist(node: JsonView, k: int)
    requires
        member_text(node, "__nixhapi"@) == Some("derived-from"@),
        0 <= k < derived_inputs(node).len(),
    ensures
        k < input_members(node).len(),
        input_members(node)[k].1 is String,
        derived_inputs(node)[k] == (
            input_members(node)[k].0,
            input_members(node)[k].1->String_0,
        ),
{
    let value = member(node, "inputs"@)->0;
    assert(members(value) =~= input_members(node));
    assert(members(value)[k].1 is String);
}

proof fn lemma_fault_origin(
    nodes: Seq<DerivedFromNodeView>,
    waves: Seq<Seq<Seq<char>>>,
    n: int,
    error: SaturationErrorView,
) -> (origin: (int, int))
    requires
        n <= nodes.len(),
        nodes_fault(nodes, waves, n) == Some(error),
    ensures
        0 <= origin.0 < n,
        0 <= origin.1 < nodes[origin.0].inputs.len(),
        input_fault(nodes[origin.0], nodes[origin.0].inputs[origin.1], waves) == Some(error),
    decreases n,
{
    if nodes_fault(nodes, waves, n - 1) is Some {
        lemma_fault_origin(nodes, waves, n - 1, error)
    } else {
        let node = nodes[n - 1];
        (n - 1, lemma_input_origin(node, waves, node.inputs.len() as int, error))
    }
}

proof fn lemma_input_origin(
    node: DerivedFromNodeView,
    waves: Seq<Seq<Seq<char>>>,
    n: int,
    error: SaturationErrorView,
) -> (k: int)
    requires
        n <= node.inputs.len(),
        node_fault(node, waves, n) == Some(error),
    ensures
        0 <= k < n,
        input_fault(node, node.inputs[k], waves) == Some(error),
    decreases n,
{
    if node_fault(node, waves, n - 1) is Some {
        lemma_input_origin(node, waves, n - 1, error)
    } else {
        n - 1
    }
}

} // verus!
