//! Plan-time structural reachability validation for `derived-from` inputs.
//!
//! Before executing any wave, [`check_derived_from_saturation`] walks the full desired-state tree
//! and verifies that every `derived-from` node's inputs reference instances that will be
//! available in an earlier wave.  This catches ordering problems at plan time rather than
//! silently leaving fields unresolved.

use crate::dag::{
    collected, declared, input_declared, inputs_of, instance_from_input_path, instance_named,
    items_declared, law_scope_without_fault, may_have_waves, members_declared, meta_declared,
    waves_follow, DagErrorView, DeclarationView,
};
use crate::derived::{derived_inputs, read_derived_inputs};
use crate::graph::{before_wave, depends, in_wave, is_waves, wave_views};
use crate::json::{lemma_array_view, lemma_object_view, members, Json, JsonView};
use crate::sources::SourcesView;
use crate::strmap::{entry_views, has_key, lemma_value_smaller, lemma_views_lookup, lookup, StrMap};
use crate::text::{decimal, decimal_text, quote, quoted, text_eq};
use crate::views::{lemma_views_push, views};
use vstd::prelude::*;

verus! {

/// Why a `derived-from` node would stay unresolved.
#[derive(Debug, PartialEq)]
pub enum SaturationError {
    InputReferencesLaterWave {
        field_path: String,
        input_alias: String,
        referenced_instance: String,
        referenced_wave: usize,
        owning_wave: usize,
    },
    InputReferencesMissingInstance {
        field_path: String,
        input_alias: String,
        referenced_instance: String,
    },
    InvalidInputPath { field_path: String, input_alias: String, path: String },
}

/// What a [`SaturationError`] stands for.
pub enum SaturationErrorView {
    InputReferencesLaterWave {
        field_path: Seq<char>,
        input_alias: Seq<char>,
        referenced_instance: Seq<char>,
        referenced_wave: int,
        owning_wave: int,
    },
    InputReferencesMissingInstance {
        field_path: Seq<char>,
        input_alias: Seq<char>,
        referenced_instance: Seq<char>,
    },
    InvalidInputPath { field_path: Seq<char>, input_alias: Seq<char>, path: Seq<char> },
}

impl View for SaturationError {
    type V = SaturationErrorView;

    open spec fn view(&self) -> SaturationErrorView {
        match self {
            SaturationError::InputReferencesLaterWave {
                field_path,
                input_alias,
                referenced_instance,
                referenced_wave,
                owning_wave,
            } => SaturationErrorView::InputReferencesLaterWave {
                field_path: field_path@,
                input_alias: input_alias@,
                referenced_instance: referenced_instance@,
                referenced_wave: *referenced_wave as int,
                owning_wave: *owning_wave as int,
            },
            SaturationError::InputReferencesMissingInstance {
                field_path,
                input_alias,
                referenced_instance,
            } => SaturationErrorView::InputReferencesMissingInstance {
                field_path: field_path@,
                input_alias: input_alias@,
                referenced_instance: referenced_instance@,
            },
            SaturationError::InvalidInputPath { field_path, input_alias, path } =>
                SaturationErrorView::InvalidInputPath {
                    field_path: field_path@,
                    input_alias: input_alias@,
                    path: path@,
                },
        }
    }
}

impl SaturationErrorView {
    /// The message of this error.
    pub open spec fn message(self) -> Seq<char> {
        match self {
            SaturationErrorView::InputReferencesLaterWave { field_path, input_alias, referenced_instance, referenced_wave, owning_wave } =>
                "DerivedFrom at "@
                + quoted(field_path) + ": input "@ + quoted(input_alias) + " references instance "@
                + quoted(referenced_instance) + " which is in wave "@
                + decimal(referenced_wave as nat)
                + " (same or later than owning instance in wave "@ + decimal(owning_wave as nat)
                + ")"@,
            SaturationErrorView::InputReferencesMissingInstance { field_path, input_alias, referenced_instance } =>
                "DerivedFrom at "@
                + quoted(field_path) + ": input "@ + quoted(input_alias)
                + " references unknown instance "@ + quoted(referenced_instance),
            SaturationErrorView::InvalidInputPath { field_path, input_alias, path } =>
                "DerivedFrom at "@
                + quoted(field_path) + ": input "@ + quoted(input_alias) + " has invalid path "@
                + quoted(path) + " — must begin with .[\"<instance-name>\"]"@,
        }
    }
}

impl SaturationError {
    /// The message of this error.
    pub fn message(&self) -> (message: String)
        ensures
            message@ == self@.message(),
    {
        match self {
            SaturationError::InputReferencesLaterWave { field_path, input_alias, referenced_instance, referenced_wave, owning_wave } => {
                "DerivedFrom at ".to_owned()
                    .concat(quote(field_path.as_str()).as_str())
                    .concat(": input ")
                    .concat(quote(input_alias.as_str()).as_str())
                    .concat(" references instance ")
                    .concat(quote(referenced_instance.as_str()).as_str())
                    .concat(" which is in wave ")
                    .concat(decimal_text(*referenced_wave).as_str())
                    .concat(" (same or later than owning instance in wave ")
                    .concat(decimal_text(*owning_wave).as_str())
                    .concat(")")
            }
            SaturationError::InputReferencesMissingInstance { field_path, input_alias, referenced_instance } => {
                "DerivedFrom at ".to_owned()
                    .concat(quote(field_path.as_str()).as_str())
                    .concat(": input ")
                    .concat(quote(input_alias.as_str()).as_str())
                    .concat(" references unknown instance ")
                    .concat(quote(referenced_instance.as_str()).as_str())
            }
            SaturationError::InvalidInputPath { field_path, input_alias, path } => {
                "DerivedFrom at ".to_owned()
                    .concat(quote(field_path.as_str()).as_str())
                    .concat(": input ")
                    .concat(quote(input_alias.as_str()).as_str())
                    .concat(" has invalid path ")
                    .concat(quote(path.as_str()).as_str())
                    .concat(" — must begin with .[\"<instance-name>\"]")
            }
        }
    }
}

/// A `derived-from` node discovered during the tree walk.
#[derive(Debug, PartialEq)]
pub struct DerivedFromNode {
    /// Dotted path to this node in the tree (for error messages).
    pub field_path: String,
    /// The owning top-level instance name.
    pub owning_instance: String,
    /// Absolute jq path by input alias.
    pub inputs: StrMap<String>,
}

/// What a [`DerivedFromNode`] stands for.
pub struct DerivedFromNodeView {
    pub field_path: Seq<char>,
    pub owning_instance: Seq<char>,
    pub inputs: Seq<(Seq<char>, Seq<char>)>,
}

impl View for DerivedFromNode {
    type V = DerivedFromNodeView;

    open spec fn view(&self) -> DerivedFromNodeView {
        DerivedFromNodeView {
            field_path: self.field_path@,
            owning_instance: self.owning_instance@,
            inputs: entry_views(self.inputs@),
        }
    }
}

/// The dotted path to what stands under `path` by `key`: the name of a member or the index of an
/// item.
pub open spec fn child_path(path: Seq<char>, key: Seq<char>) -> Seq<char> {
    if path.len() == 0 {
        key
    } else {
        path + "."@ + key
    }
}

/// The `derived-from` nodes at and under `node`, in order, apart from those under another field
/// value.  The path to an item of an array holds its index.
pub open spec fn derived_nodes(
    node: JsonView,
    instance: Seq<char>,
    path: Seq<char>,
) -> Seq<DerivedFromNodeView>
    decreases node, 0nat,
{
    match node {
        JsonView::Object(entries) => match lookup(entries, "__nixhapi"@) {
            Some(JsonView::String(tag)) => if tag == "derived-from"@ {
                seq![
                    DerivedFromNodeView {
                        field_path: path,
                        owning_instance: instance,
                        inputs: derived_inputs(node),
                    },
                ]
            } else {
                Seq::empty()
            },
            _ => nodes_under(entries, entries.len(), instance, path),
        },
        JsonView::Array(items) => nodes_in(items, items.len(), instance, path),
        _ => Seq::empty(),
    }
}

/// The `derived-from` nodes at and under the first `n` items.
pub open spec fn nodes_in(
    items: Seq<JsonView>,
    n: nat,
    instance: Seq<char>,
    path: Seq<char>,
) -> Seq<DerivedFromNodeView>
    decreases items, n,
{
    if n == 0 || n > items.len() {
        Seq::empty()
    } else {
        nodes_in(items, (n - 1) as nat, instance, path) + derived_nodes(
            items[n - 1],
            instance,
            child_path(path, decimal((n - 1) as nat)),
        )
    }
}

/// The `derived-from` nodes under the first `n` members, apart from the directives.
pub open spec fn nodes_under(
    entries: Seq<(Seq<char>, JsonView)>,
    n: nat,
    instance: Seq<char>,
    path: Seq<char>,
) -> Seq<DerivedFromNodeView>
    decreases entries, n,
{
    if n == 0 || n > entries.len() {
        Seq::empty()
    } else {
        let (key, child) = entries[n - 1];
        nodes_under(entries, (n - 1) as nat, instance, path) + if key == "__nixhapi"@
            && child is Object {
            Seq::empty()
        } else {
            derived_nodes(child, instance, child_path(path, key))
        }
    }
}

/// The `derived-from` nodes of the first `n` instances.
pub open spec fn instance_nodes(top: Seq<(Seq<char>, JsonView)>, n: int) -> Seq<
    DerivedFromNodeView,
>
    decreases n,
{
    if n <= 0 {
        Seq::empty()
    } else {
        let (name, scope) = top[n - 1];
        instance_nodes(top, n - 1) + derived_nodes(scope, name, name)
    }
}

/// The index of the last wave in which `name` stands.
pub open spec fn wave_index(waves: Seq<Seq<Seq<char>>>, name: Seq<char>) -> Option<int>
    decreases waves.len(),
{
    if waves.len() == 0 {
        None
    } else if waves.last().contains(name) {
        Some(waves.len() - 1)
    } else {
        wave_index(waves.drop_last(), name)
    }
}

/// The wave of an instance; the first for one that stands in none.
pub open spec fn owning_wave_of(waves: Seq<Seq<Seq<char>>>, name: Seq<char>) -> int {
    match wave_index(waves, name) {
        Some(w) => w,
        None => 0,
    }
}

/// What is wrong with an input of a `derived-from` node: it has to name another instance in an
/// earlier wave, or the node's own.
pub open spec fn input_fault(
    node: DerivedFromNodeView,
    input: (Seq<char>, Seq<char>),
    waves: Seq<Seq<Seq<char>>>,
) -> Option<SaturationErrorView> {
    let (alias, path) = input;
    let owning_wave = owning_wave_of(waves, node.owning_instance);
    match instance_named(path) {
        None => Some(
            SaturationErrorView::InvalidInputPath {
                field_path: node.field_path,
                input_alias: alias,
                path,
            },
        ),
        Some(name) => if name == node.owning_instance {
            None
        } else {
            match wave_index(waves, name) {
                None => Some(
                    SaturationErrorView::InputReferencesMissingInstance {
                        field_path: node.field_path,
                        input_alias: alias,
                        referenced_instance: name,
                    },
                ),
                Some(wave) => if wave >= owning_wave {
                    Some(
                        SaturationErrorView::InputReferencesLaterWave {
                            field_path: node.field_path,
                            input_alias: alias,
                            referenced_instance: name,
                            referenced_wave: wave,
                            owning_wave,
                        },
                    )
                } else {
                    None
                },
            }
        },
    }
}

/// The first fault among the first `n` inputs of a node, in the order of their aliases.
pub open spec fn node_fault(
    node: DerivedFromNodeView,
    waves: Seq<Seq<Seq<char>>>,
    n: int,
) -> Option<SaturationErrorView>
    decreases n,
{
    if n <= 0 {
        None
    } else {
        match node_fault(node, waves, n - 1) {
            Some(fault) => Some(fault),
            None => input_fault(node, node.inputs[n - 1], waves),
        }
    }
}

/// The first fault among the first `n` nodes.
pub open spec fn nodes_fault(
    nodes: Seq<DerivedFromNodeView>,
    waves: Seq<Seq<Seq<char>>>,
    n: int,
) -> Option<SaturationErrorView>
    decreases n,
{
    if n <= 0 {
        None
    } else {
        match nodes_fault(nodes, waves, n - 1) {
            Some(fault) => Some(fault),
            None => node_fault(nodes[n - 1], waves, nodes[n - 1].inputs.len() as int),
        }
    }
}

/// The first fault among the `derived-from` nodes in `root`.
pub open spec fn saturation_fault(
    root: JsonView,
    waves: Seq<Seq<Seq<char>>>,
) -> Option<SaturationErrorView> {
    let nodes = instance_nodes(members(root), members(root).len() as int);
    nodes_fault(nodes, waves, nodes.len() as int)
}

/// The dotted path to what stands under `path` by `key`.
fn path_to(path: &str, key: &str) -> (child: String)
    ensures
        child@ == child_path(path@, key@),
{
    if path.unicode_len() == 0 {
        key.to_owned()
    } else {
        path.to_owned().concat(".").concat(key)
    }
}

/// Recursively walks `node` collecting all `derived-from` entries.
fn collect_derived_from_nodes(
    node: &Json,
    owning_instance: &str,
    current_path: &str,
    out: &mut Vec<DerivedFromNode>,
)
    ensures
        views(final(out)@) == views(old(out)@) + derived_nodes(
            node@,
            owning_instance@,
            current_path@,
        ),
    decreases node,
{
    let ghost start = views(out@);
    let map = match node {
        Json::Object(map) => map,
        Json::Array(items) => {
            proof {
                lemma_array_view(*items);
            }
            let ghost all = views(items@);
            let mut i: usize = 0;
            assert(start + Seq::empty() =~= start);
            while i < items.len()
                invariant
                    i <= items@.len(),
                    *node == Json::Array(*items),
                    all == views(items@),
                    views(out@) == start + nodes_in(
                        all,
                        i as nat,
                        owning_instance@,
                        current_path@,
                    ),
                decreases items.len() - i,
            {
                let ghost before = nodes_in(all, i as nat, owning_instance@, current_path@);
                let path = path_to(current_path, decimal_text(i).as_str());
                assert(decreases_to!(*node => node->Array_0));
                collect_derived_from_nodes(&items[i], owning_instance, path.as_str(), out);
                proof {
                    let under = derived_nodes(all[i as int], owning_instance@, path@);
                    assert((start + before) + under =~= start + (before + under));
                }
                i = i + 1;
            }
            return;
        }
        _ => {
            assert(start + Seq::empty() =~= start);
            return;
        }
    };
    proof {
        lemma_object_view(*map);
    }
    let ghost entries = entry_views(map@);
    proof {
        lemma_views_lookup(map@, "__nixhapi"@);
    }
    if let Some(Json::String(tag)) = map.get("__nixhapi") {
        if text_eq(tag.as_str(), "derived-from") {
            let found = DerivedFromNode {
                field_path: current_path.to_owned(),
                owning_instance: owning_instance.to_owned(),
                inputs: read_derived_inputs(node),
            };
            proof {
                lemma_views_push(out@, found);
                assert(start.push(found@) =~= start + seq![found@]);
            }
            out.push(found);
        } else {
            assert(start + Seq::empty() =~= start);
        }
        return;
    }
    let mut i: usize = 0;
    assert(start + Seq::empty() =~= start);
    while i < map.len()
        invariant
            i <= map@.len(),
            *node == Json::Object(*map),
            entries == entry_views(map@),
            views(out@) == start + nodes_under(
                entries,
                i as nat,
                owning_instance@,
                current_path@,
            ),
        decreases map@.len() - i,
    {
        let ghost before = nodes_under(entries, i as nat, owning_instance@, current_path@);
        let key = map.key_at(i);
        let child = map.value_at(i);
        assert(entries[i as int] == (key@, child@));
        if !(text_eq(key, "__nixhapi") && child.as_object().is_some()) {
            let path = path_to(current_path, key);
            proof {
                lemma_value_smaller(*map, i as int);
                assert(decreases_to!(*node => node->Object_0));
            }
            collect_derived_from_nodes(child, owning_instance, path.as_str(), out);
            proof {
                let under = derived_nodes(entries[i as int].1, owning_instance@, path@);
                assert((start + before) + under =~= start + (before + under));
            }
        } else {
            assert(before + Seq::empty() =~= before);
        }
        i = i + 1;
    }
}

/// The index of the last wave in which `name` stands.
fn find_wave(waves: &Vec<Vec<String>>, name: &str) -> (index: Option<usize>)
    ensures
        match index {
            Some(w) => wave_index(wave_views(waves@), name@) == Some(w as int),
            None => wave_index(wave_views(waves@), name@) is None,
        },
{
    let ghost all = wave_views(waves@);
    let mut w: usize = waves.len();
    assert(all.take(w as int) =~= all);
    while w > 0
        invariant
            w <= waves@.len(),
            all == wave_views(waves@),
            wave_index(all, name@) == wave_index(all.take(w as int), name@),
        decreases w,
    {
        let ghost here = all.take(w as int);
        assert(here.last() == views(waves@[w - 1]@));
        assert(here.drop_last() =~= all.take(w - 1));
        w = w - 1;
        let wave = &waves[w];
        let mut k: usize = 0;
        while k < wave.len()
            invariant
                w < waves@.len(),
                *wave == waves@[w as int],
                all == wave_views(waves@),
                here.len() == w + 1,
                here.last() == views(wave@),
                wave_index(all, name@) == wave_index(here, name@),
                k <= wave@.len(),
                forall|j: int| 0 <= j < k ==> (#[trigger] wave@[j])@ != name@,
            decreases wave.len() - k,
        {
            if text_eq(wave[k].as_str(), name) {
                assert(views(wave@)[k as int] == name@);
                return Some(w);
            }
            k = k + 1;
        }
        assert(!views(wave@).contains(name@)) by {
            if views(wave@).contains(name@) {
                let j = choose|j: int| 0 <= j < views(wave@).len() && views(wave@)[j] == name@;
                assert(wave@[j]@ == name@);
            }
        }
    }
    None
}

/// Checks one input of a `derived-from` node.
fn check_input(node: &DerivedFromNode, alias: &str, path: &str, waves: &Vec<Vec<String>>) -> (
    fault: Option<SaturationError>)
    ensures
        match fault {
            Some(fault) => input_fault(node@, (alias@, path@), wave_views(waves@)) == Some(fault@),
            None => input_fault(node@, (alias@, path@), wave_views(waves@)) is None,
        },
{
    let name = match instance_from_input_path(path) {
        None => {
            return Some(
                SaturationError::InvalidInputPath {
                    field_path: node.field_path.clone(),
                    input_alias: alias.to_owned(),
                    path: path.to_owned(),
                },
            );
        }
        Some(name) => name,
    };
    if text_eq(name, node.owning_instance.as_str()) {
        return None;
    }
    let owning_wave = match find_wave(waves, node.owning_instance.as_str()) {
        Some(w) => w,
        None => 0,
    };
    match find_wave(waves, name) {
        None => Some(
            SaturationError::InputReferencesMissingInstance {
                field_path: node.field_path.clone(),
                input_alias: alias.to_owned(),
                referenced_instance: name.to_owned(),
            },
        ),
        Some(referenced_wave) => if referenced_wave >= owning_wave {
            Some(
                SaturationError::InputReferencesLaterWave {
                    field_path: node.field_path.clone(),
                    input_alias: alias.to_owned(),
                    referenced_instance: name.to_owned(),
                    referenced_wave,
                    owning_wave,
                },
            )
        } else {
            None
        },
    }
}

proof fn lemma_node_fault_stays(
    node: DerivedFromNodeView,
    waves: Seq<Seq<Seq<char>>>,
    n: int,
    m: int,
)
    requires
        0 <= n <= m,
        node_fault(node, waves, n) is Some,
    ensures
        node_fault(node, waves, m) == node_fault(node, waves, n),
    decreases m - n,
{
    if n < m {
        lemma_node_fault_stays(node, waves, n, m - 1);
    }
}

proof fn lemma_nodes_fault_stays(
    nodes: Seq<DerivedFromNodeView>,
    waves: Seq<Seq<Seq<char>>>,
    n: int,
    m: int,
)
    requires
        0 <= n <= m,
        nodes_fault(nodes, waves, n) is Some,
    ensures
        nodes_fault(nodes, waves, m) == nodes_fault(nodes, waves, n),
    decreases m - n,
{
    if n < m {
        lemma_nodes_fault_stays(nodes, waves, n, m - 1);
    }
}

/// Validates that every `derived-from` input references an instance in an earlier wave than the
/// owning instance.
///
/// Same-instance references (a field that derives from another field in its own instance) are
/// allowed and skip the wave check.
pub fn check_derived_from_saturation(root: &Json, waves: &Vec<Vec<String>>) -> (checked: Result<
    (),
    SaturationError,
>)
    ensures
        match checked {
            Ok(_) => saturation_fault(root@, wave_views(waves@)) is None,
            Err(error) => saturation_fault(root@, wave_views(waves@)) == Some(error@),
        },
{
    let mut nodes: Vec<DerivedFromNode> = Vec::new();
    assert(views(nodes@) =~= Seq::empty());
    if let Some(top) = root.as_object() {
        let ghost known = entry_views(top@);
        let mut i: usize = 0;
        while i < top.len()
            invariant
                i <= top@.len(),
                known == entry_views(top@),
                members(root@) == known,
                views(nodes@) == instance_nodes(known, i as int),
            decreases top@.len() - i,
        {
            let name = top.key_at(i);
            assert(known[i as int] == (name@, top@[i as int].1@));
            collect_derived_from_nodes(top.value_at(i), name, name, &mut nodes);
            i = i + 1;
        }
    }
    let ghost all = views(nodes@);
    let ghost placed = wave_views(waves@);
    let mut n: usize = 0;
    while n < nodes.len()
        invariant
            n <= nodes@.len(),
            all == views(nodes@),
            placed == wave_views(waves@),
            saturation_fault(root@, placed) == nodes_fault(all, placed, all.len() as int),
            nodes_fault(all, placed, n as int) is None,
        decreases nodes.len() - n,
    {
        let node = &nodes[n];
        let ghost inputs = entry_views(node.inputs@);
        let mut k: usize = 0;
        while k < node.inputs.len()
            invariant
                n < nodes@.len(),
                *node == nodes@[n as int],
                k <= node.inputs@.len(),
                all == views(nodes@),
                all[n as int] == node@,
                inputs == entry_views(node.inputs@),
                placed == wave_views(waves@),
                saturation_fault(root@, placed) == nodes_fault(all, placed, all.len() as int),
                nodes_fault(all, placed, n as int) is None,
                node_fault(node@, placed, k as int) is None,
            decreases node.inputs@.len() - k,
        {
            let alias = node.inputs.key_at(k);
            let path = node.inputs.value_at(k);
            assert(inputs[k as int] == (alias@, path@));
            match check_input(node, alias, path.as_str(), waves) {
                Some(fault) => {
                    proof {
                        lemma_node_fault_stays(node@, placed, k + 1, inputs.len() as int);
                        lemma_nodes_fault_stays(all, placed, n + 1, all.len() as int);
                    }
                    return Err(fault);
                }
                None => {}
            }
            k = k + 1;
        }
        n = n + 1;
    }
    Ok(())
}

/// Every input of a discovered node stands among what the walk for dependencies declares.
spec fn inputs_covered(
    nodes: Seq<DerivedFromNodeView>,
    instance: Seq<char>,
    declarations: Seq<DeclarationView>,
    top: Seq<(Seq<char>, JsonView)>,
) -> bool {
    forall|j: int, k: int|
        0 <= j < nodes.len() && 0 <= k < nodes[j].inputs.len() ==> nodes[j].owning_instance
            == instance && declarations.contains(
            input_declared(
                instance,
                (#[trigger] nodes[j].inputs[k]).0,
                JsonView::String(nodes[j].inputs[k].1),
                top,
            ),
        )
}

proof fn lemma_covered_add(
    a: Seq<DerivedFromNodeView>,
    b: Seq<DerivedFromNodeView>,
    instance: Seq<char>,
    da: Seq<DeclarationView>,
    db: Seq<DeclarationView>,
    top: Seq<(Seq<char>, JsonView)>,
)
    requires
        inputs_covered(a, instance, da, top),
        inputs_covered(b, instance, db, top),
    ensures
        inputs_covered(a + b, instance, da + db, top),
{
    let nodes = a + b;
    assert forall|j: int, k: int|
        0 <= j < nodes.len() && 0 <= k < nodes[j].inputs.len() implies nodes[j].owning_instance
        == instance && (da + db).contains(
        input_declared(
            instance,
            (#[trigger] nodes[j].inputs[k]).0,
            JsonView::String(nodes[j].inputs[k].1),
            top,
        ),
    ) by {
        let wanted = input_declared(
            instance,
            nodes[j].inputs[k].0,
            JsonView::String(nodes[j].inputs[k].1),
            top,
        );
        if j < a.len() {
            assert(nodes[j] == a[j]);
            assert(a[j].inputs[k] == nodes[j].inputs[k]);
            let d = choose|d: int| 0 <= d < da.len() && da[d] == wanted;
            assert((da + db)[d] == wanted);
        } else {
            assert(nodes[j] == b[j - a.len()]);
            assert(b[j - a.len()].inputs[k] == nodes[j].inputs[k]);
            let d = choose|d: int| 0 <= d < db.len() && db[d] == wanted;
            assert((da + db)[da.len() + d] == wanted);
        }
    }
}

proof fn lemma_covered(
    node: JsonView,
    instance: Seq<char>,
    path: Seq<char>,
    top: Seq<(Seq<char>, JsonView)>,
)
    ensures
        inputs_covered(
            derived_nodes(node, instance, path),
            instance,
            declared(instance, node, top),
            top,
        ),
    decreases node, 0nat,
{
    if let JsonView::Array(items) = node {
        lemma_items_covered(items, items.len(), instance, path, top);
    } else if let JsonView::Object(entries) = node {
        match lookup(entries, "__nixhapi"@) {
            Some(JsonView::String(tag)) => {
                if tag == "derived-from"@ {
                    let inputs = derived_inputs(node);
                    let declarations = declared(instance, node, top);
                    assert forall|k: int| 0 <= k < inputs.len() implies declarations.contains(
                        input_declared(
                            instance,
                            (#[trigger] inputs[k]).0,
                            JsonView::String(inputs[k].1),
                            top,
                        ),
                    ) by {
                        let given = inputs_of(entries);
                        assert(given[k].1 is String);
                        assert(declarations[k] == input_declared(
                            instance,
                            inputs[k].0,
                            JsonView::String(inputs[k].1),
                            top,
                        ));
                    }
                }
            },
            Some(JsonView::Object(meta)) => {
                lemma_members_covered(entries, entries.len(), instance, path, top);
                let block = meta_declared(instance, JsonView::Object(meta));
                let none = Seq::<DerivedFromNodeView>::empty();
                lemma_covered_add(
                    none,
                    nodes_under(entries, entries.len(), instance, path),
                    instance,
                    block,
                    members_declared(instance, entries, entries.len(), top),
                    top,
                );
                assert(none + nodes_under(entries, entries.len(), instance, path) =~= nodes_under(
                    entries,
                    entries.len(),
                    instance,
                    path,
                ));
            },
            _ => {
                lemma_members_covered(entries, entries.len(), instance, path, top);
            },
        }
    }
}

proof fn lemma_items_covered(
    items: Seq<JsonView>,
    n: nat,
    instance: Seq<char>,
    path: Seq<char>,
    top: Seq<(Seq<char>, JsonView)>,
)
    ensures
        inputs_covered(
            nodes_in(items, n, instance, path),
            instance,
            items_declared(instance, items, n, top),
            top,
        ),
    decreases items, n,
{
    if n > 0 && n <= items.len() {
        let item_path = child_path(path, decimal((n - 1) as nat));
        lemma_items_covered(items, (n - 1) as nat, instance, path, top);
        lemma_covered(items[n - 1], instance, item_path, top);
        lemma_covered_add(
            nodes_in(items, (n - 1) as nat, instance, path),
            derived_nodes(items[n - 1], instance, item_path),
            instance,
            items_declared(instance, items, (n - 1) as nat, top),
            declared(instance, items[n - 1], top),
            top,
        );
    }
}

proof fn lemma_members_covered(
    entries: Seq<(Seq<char>, JsonView)>,
    n: nat,
    instance: Seq<char>,
    path: Seq<char>,
    top: Seq<(Seq<char>, JsonView)>,
)
    ensures
        inputs_covered(
            nodes_under(entries, n, instance, path),
            instance,
            members_declared(instance, entries, n, top),
            top,
        ),
    decreases entries, n,
{
    if n > 0 && n <= entries.len() {
        let (key, child) = entries[n - 1];
        lemma_members_covered(entries, (n - 1) as nat, instance, path, top);
        lemma_covered(child, instance, child_path(path, key), top);
        let before = nodes_under(entries, (n - 1) as nat, instance, path);
        let declared_before = members_declared(instance, entries, (n - 1) as nat, top);
        if key == "__nixhapi"@ && child is Object {
            assert(before + Seq::empty() =~= before);
            assert(declared_before + Seq::empty() =~= declared_before);
        } else {
            lemma_covered_add(
                before,
                derived_nodes(child, instance, child_path(path, key)),
                instance,
                declared_before,
                declared(instance, child, top),
                top,
            );
        }
    }
}

/// In the waves of a graph, the wave of a name is the one in which it stands.
pub proof fn lemma_wave_index(waves: Seq<Seq<Seq<char>>>, name: Seq<char>, w: int)
    requires
        in_wave(waves, name, w),
        forall|v: int| #[trigger] in_wave(waves, name, v) ==> v == w,
    ensures
        wave_index(waves, name) == Some(w),
    decreases waves.len(),
{
    let last = waves.len() - 1;
    if waves.last().contains(name) {
        assert(in_wave(waves, name, last));
    } else {
        let front = waves.drop_last();
        assert(in_wave(front, name, w));
        assert forall|v: int| #[trigger] in_wave(front, name, v) implies v == w by {
            assert(in_wave(waves, name, v));
        }
        lemma_wave_index(front, name, w);
    }
}

pub(crate) proof fn lemma_no_node_fault(node: DerivedFromNodeView, waves: Seq<Seq<Seq<char>>>, n: int)
    requires
        0 <= n <= node.inputs.len(),
        forall|k: int|
            0 <= k < node.inputs.len() ==> input_fault(node, #[trigger] node.inputs[k], waves) is None,
    ensures
        node_fault(node, waves, n) is None,
    decreases n,
{
    if n > 0 {
        lemma_no_node_fault(node, waves, n - 1);
        assert(input_fault(node, node.inputs[n - 1], waves) is None);
    }
}

proof fn lemma_no_fault(nodes: Seq<DerivedFromNodeView>, waves: Seq<Seq<Seq<char>>>, n: int)
    requires
        0 <= n <= nodes.len(),
        forall|j: int, k: int|
            0 <= j < nodes.len() && 0 <= k < nodes[j].inputs.len() ==> input_fault(
                nodes[j],
                #[trigger] nodes[j].inputs[k],
                waves,
            ) is None,
    ensures
        nodes_fault(nodes, waves, n) is None,
    decreases n,
{
    if n > 0 {
        lemma_no_fault(nodes, waves, n - 1);
        lemma_no_node_fault(nodes[n - 1], waves, nodes[n - 1].inputs.len() as int);
    }
}

/// No input in the scopes of the first `n` instances is at fault.
proof fn lemma_instances_saturated(
    root: JsonView,
    sources: SourcesView,
    edges: Seq<(Seq<char>, Seq<Seq<char>>)>,
    waves: Seq<Seq<Seq<char>>>,
    n: int,
)
    requires
        0 <= n <= members(root).len(),
        collected(root, sources, Ok::<Seq<(Seq<char>, Seq<Seq<char>>)>, DagErrorView>(edges)),
        is_waves(edges, waves),
    ensures
        ({
            let nodes = instance_nodes(members(root), n);
            forall|j: int, k: int|
                0 <= j < nodes.len() && 0 <= k < nodes[j].inputs.len() ==> input_fault(
                    nodes[j],
                    #[trigger] nodes[j].inputs[k],
                    waves,
                ) is None
        }),
    decreases n,
{
    if n > 0 {
        let top = members(root);
        let (name, scope) = top[n - 1];
        lemma_instances_saturated(root, sources, edges, waves, n - 1);
        lemma_covered(scope, name, name, top);
        let before = instance_nodes(top, n - 1);
        let own = derived_nodes(scope, name, name);
        let nodes = instance_nodes(top, n);
        let declarations = declared(name, scope, top);
        assert forall|j: int, k: int|
            0 <= j < nodes.len() && 0 <= k < nodes[j].inputs.len() implies input_fault(
            nodes[j],
            #[trigger] nodes[j].inputs[k],
            waves,
        ) is None by {
            if j < before.len() {
                assert(nodes[j] == before[j]);
                assert(before[j].inputs[k] == nodes[j].inputs[k]);
            } else {
                let node = own[j - before.len()];
                assert(nodes[j] == node);
                let (alias, path) = node.inputs[k];
                let wanted = input_declared(name, alias, JsonView::String(path), top);
                assert(declarations.contains(wanted)) by {
                    assert(own[j - before.len()].inputs[k] == (alias, path));
                }
                let d = choose|d: int| 0 <= d < declarations.len() && declarations[d] == wanted;
                law_scope_without_fault(root, sources, edges, n - 1, d);
                let referenced = instance_named(path)->0;
                if referenced != name {
                    assert(depends(edges, name, referenced));
                    let i = choose|i: int|
                        0 <= i < edges.len() && (#[trigger] edges[i]).0 == name
                            && edges[i].1.contains(referenced);
                    assert(edges[i].0 == name);
                    assert(has_key(edges, name));
                    assert(before_wave(waves, name, waves.len() as int));
                    let w = choose|w: int| w < waves.len() && #[trigger] in_wave(waves, name, w);
                    assert(before_wave(waves, referenced, w));
                    let v = choose|v: int| v < w && #[trigger] in_wave(waves, referenced, v);
                    lemma_wave_index(waves, name, w);
                    lemma_wave_index(waves, referenced, v);
                }
            }
        }
    }
}

/// Waves that were computed for a tree always pass the check: every input of a `derived-from`
/// node makes its instance come after the instance that it refers to.
pub proof fn law_execution_waves_are_saturated(
    root: JsonView,
    sources: SourcesView,
    waves: Seq<Seq<Seq<char>>>,
)
    requires
        may_have_waves(root, sources, Ok::<Seq<Seq<Seq<char>>>, DagErrorView>(waves)),
    ensures
        saturation_fault(root, waves) is None,
{
    let outcome = Ok::<Seq<Seq<Seq<char>>>, DagErrorView>(waves);
    let found = choose|found: Result<Seq<(Seq<char>, Seq<Seq<char>>)>, DagErrorView>| #[trigger]
        collected(root, sources, found) && waves_follow(found, outcome);
    let edges = found->Ok_0;
    lemma_instances_saturated(root, sources, edges, waves, members(root).len() as int);
    let nodes = instance_nodes(members(root), members(root).len() as int);
    lemma_no_fault(nodes, waves, nodes.len() as int);
}

pub(crate) proof fn lemma_input_without_fault(node: DerivedFromNodeView, waves: Seq<Seq<Seq<char>>>, n: int, k: int)
    requires
        0 <= k < n <= node.inputs.len(),
        node_fault(node, waves, n) is None,
    ensures
        input_fault(node, node.inputs[k], waves) is None,
    decreases n,
{
    if k < n - 1 {
        lemma_input_without_fault(node, waves, n - 1, k);
    }
}

pub(crate) proof fn lemma_node_without_fault(
    nodes: Seq<DerivedFromNodeView>,
    waves: Seq<Seq<Seq<char>>>,
    n: int,
    j: int,
)
    requires
        0 <= j < n <= nodes.len(),
        nodes_fault(nodes, waves, n) is None,
    ensures
        node_fault(nodes[j], waves, nodes[j].inputs.len() as int) is None,
    decreases n,
{
    if j < n - 1 {
        lemma_node_without_fault(nodes, waves, n - 1, j);
    }
}

/// Where the check passes, every input of a `derived-from` node names an instance, and that is
/// the owning instance itself or one in an earlier wave.
pub proof fn law_saturated_inputs_come_earlier(
    root: JsonView,
    waves: Seq<Seq<Seq<char>>>,
    j: int,
    k: int,
)
    requires
        saturation_fault(root, waves) is None,
        0 <= j < instance_nodes(members(root), members(root).len() as int).len(),
        0 <= k < instance_nodes(members(root), members(root).len() as int)[j].inputs.len(),
    ensures
        ({
            let node = instance_nodes(members(root), members(root).len() as int)[j];
            instance_named(node.inputs[k].1) matches Some(name) && (name == node.owning_instance
                || (wave_index(waves, name) matches Some(w) && w < owning_wave_of(
                waves,
                node.owning_instance,
            )))
        }),
{
    let nodes = instance_nodes(members(root), members(root).len() as int);
    lemma_node_without_fault(nodes, waves, nodes.len() as int, j);
    lemma_input_without_fault(nodes[j], waves, nodes[j].inputs.len() as int, k);
}

/// The wave index of a name is that of a wave in which it stands.
pub proof fn lemma_wave_index_found(waves: Seq<Seq<Seq<char>>>, name: Seq<char>)
    ensures
        wave_index(waves, name) matches Some(w) ==> in_wave(waves, name, w),
    decreases waves.len(),
{
    if waves.len() > 0 && !waves.last().contains(name) {
        lemma_wave_index_found(waves.drop_last(), name);
    }
}

} // verus!
