//! Layers of a dependency graph.
//!
//! A graph is a list of nodes by name, each with the names of the nodes that it depends on.  Its
//! layers are the waves in which the nodes can be worked off: every node stands in the first
//! wave after those of all its dependencies.

use crate::strmap::{ascending, has_key, lemma_keys_distinct, list_views, StrMap};
use crate::text::{copy_texts, text_lt, text_lt_irreflexive, text_lt_transitive};
use crate::views::{lemma_views_add, views};
use vstd::prelude::*;

verus! {

/// Every dependency is a node.
pub open spec fn closed_edges(edges: Seq<(Seq<char>, Seq<Seq<char>>)>) -> bool {
    forall|i: int, k: int|
        0 <= i < edges.len() && 0 <= k < edges[i].1.len() ==> has_key(
            edges,
            #[trigger] edges[i].1[k],
        )
}

/// The node `a` depends on `b`.
pub open spec fn depends(
    edges: Seq<(Seq<char>, Seq<Seq<char>>)>,
    a: Seq<char>,
    b: Seq<char>,
) -> bool {
    exists|i: int|
        0 <= i < edges.len() && (#[trigger] edges[i]).0 == a && edges[i].1.contains(b)
}

/// Each node of the path depends on the next.
pub open spec fn is_path(
    edges: Seq<(Seq<char>, Seq<Seq<char>>)>,
    path: Seq<Seq<char>>,
) -> bool {
    &&& path.len() >= 2
    &&& forall|i: int| 0 <= i < path.len() - 1 ==> depends(edges, #[trigger] path[i], path[i + 1])
}

/// Some path leads back to where it began.
pub open spec fn has_cycle(edges: Seq<(Seq<char>, Seq<Seq<char>>)>) -> bool {
    exists|path: Seq<Seq<char>>| #[trigger] is_path(edges, path) && path[0] == path.last()
}

/// The names strictly ascend.
pub open spec fn sorted(names: Seq<Seq<char>>) -> bool {
    forall|i: int, j: int|
        0 <= i < j < names.len() ==> text_lt(#[trigger] names[i], #[trigger] names[j])
}

/// `name` stands in wave `w`.
pub open spec fn in_wave(waves: Seq<Seq<Seq<char>>>, name: Seq<char>, w: int) -> bool {
    0 <= w < waves.len() && waves[w].contains(name)
}

/// `name` stands in a wave before `w`.
pub open spec fn before_wave(waves: Seq<Seq<Seq<char>>>, name: Seq<char>, w: int) -> bool {
    exists|v: int| v < w && #[trigger] in_wave(waves, name, v)
}

/// A dependency of `name` stands in wave `w`.
pub open spec fn needs_wave(
    edges: Seq<(Seq<char>, Seq<Seq<char>>)>,
    waves: Seq<Seq<Seq<char>>>,
    name: Seq<char>,
    w: int,
) -> bool {
    exists|dep: Seq<char>| #[trigger] depends(edges, name, dep) && in_wave(waves, dep, w)
}

/// The waves of a graph: every node stands in one wave, in the first after those of its
/// dependencies; no wave is empty, and the names in a wave ascend.
pub open spec fn is_waves(
    edges: Seq<(Seq<char>, Seq<Seq<char>>)>,
    waves: Seq<Seq<Seq<char>>>,
) -> bool {
    &&& forall|w: int| 0 <= w < waves.len() ==> (#[trigger] waves[w]).len() > 0 && sorted(waves[w])
    &&& forall|name: Seq<char>, w: int| #[trigger]
        in_wave(waves, name, w) ==> has_key(edges, name)
    &&& forall|name: Seq<char>| #[trigger]
        has_key(edges, name) ==> before_wave(waves, name, waves.len() as int)
    &&& forall|name: Seq<char>, v: int, w: int| #[trigger]
        in_wave(waves, name, v) && #[trigger] in_wave(waves, name, w) ==> v == w
    &&& forall|name: Seq<char>, w: int, dep: Seq<char>| #[trigger]
        in_wave(waves, name, w) && #[trigger] depends(edges, name, dep) ==> before_wave(
            waves,
            dep,
            w,
        )
    &&& forall|name: Seq<char>, w: int|
        w > 0 && #[trigger] in_wave(waves, name, w) ==> needs_wave(edges, waves, name, w - 1)
}

/// The waves one after the other.
pub open spec fn in_order(waves: Seq<Seq<Seq<char>>>) -> Seq<Seq<char>>
    decreases waves.len(),
{
    if waves.len() == 0 {
        Seq::empty()
    } else {
        in_order(waves.drop_last()) + waves.last()
    }
}

/// In one graph a name stands at the same distance from the start in all its waves.
proof fn lemma_same_wave(
    edges: Seq<(Seq<char>, Seq<Seq<char>>)>,
    a: Seq<Seq<Seq<char>>>,
    b: Seq<Seq<Seq<char>>>,
    name: Seq<char>,
    w: int,
)
    requires
        is_waves(edges, a),
        is_waves(edges, b),
        in_wave(a, name, w),
    ensures
        in_wave(b, name, w),
    decreases w,
{
    assert(has_key(edges, name));
    assert(before_wave(b, name, b.len() as int));
    let v = choose|v: int| v < b.len() && #[trigger] in_wave(b, name, v);
    if v < w {
        assert(needs_wave(edges, a, name, w - 1));
        let dep = choose|dep: Seq<char>| #[trigger]
            depends(edges, name, dep) && in_wave(a, dep, w - 1);
        lemma_same_wave(edges, a, b, dep, w - 1);
        assert(before_wave(b, dep, v));
        let u = choose|u: int| u < v && #[trigger] in_wave(b, dep, u);
        assert(in_wave(b, dep, w - 1));
    } else if v > w {
        assert(needs_wave(edges, b, name, v - 1));
        let dep = choose|dep: Seq<char>| #[trigger]
            depends(edges, name, dep) && in_wave(b, dep, v - 1);
        assert(before_wave(a, dep, w));
        let u = choose|u: int| u < w && #[trigger] in_wave(a, dep, u);
        lemma_same_wave(edges, a, b, dep, u);
        assert(in_wave(b, dep, u) && in_wave(b, dep, v - 1));
    }
}

/// Two ascending sequences with the same names are equal.
proof fn lemma_sorted_unique(a: Seq<Seq<char>>, b: Seq<Seq<char>>)
    requires
        sorted(a),
        sorted(b),
        forall|name: Seq<char>| #[trigger] a.contains(name) <==> b.contains(name),
    ensures
        a == b,
    decreases a.len(),
{
    if a.len() == 0 {
        if b.len() > 0 {
            assert(b.contains(b[0]));
            assert(a.contains(b[0]));
        }
        assert(a =~= b);
    } else {
        assert(a.contains(a[0]));
        assert(b.contains(a[0]));
        let j = choose|j: int| 0 <= j < b.len() && b[j] == a[0];
        assert(b.contains(b[0]));
        assert(a.contains(b[0]));
        let i = choose|i: int| 0 <= i < a.len() && a[i] == b[0];
        if j > 0 && i > 0 {
            assert(text_lt(b[0], b[j]));
            assert(text_lt(a[0], a[i]));
            text_lt_transitive(a[0], b[0], a[0]);
            text_lt_irreflexive(a[0]);
        }
        assert(a[0] == b[0]);
        let rest_a = a.drop_first();
        let rest_b = b.drop_first();
        assert forall|name: Seq<char>| #[trigger] rest_a.contains(name) <==> rest_b.contains(
            name,
        ) by {
            lemma_in_rest(a, name);
            lemma_in_rest(b, name);
            assert(a.contains(name) <==> b.contains(name));
        }
        lemma_sorted_unique(rest_a, rest_b);
        assert(a =~= seq![a[0]] + rest_a);
        assert(b =~= seq![b[0]] + rest_b);
    }
}

proof fn lemma_in_rest(names: Seq<Seq<char>>, name: Seq<char>)
    requires
        sorted(names),
        names.len() > 0,
    ensures
        names.drop_first().contains(name) <==> names.contains(name) && name != names[0],
{
    let rest = names.drop_first();
    if rest.contains(name) {
        let i = choose|i: int| 0 <= i < rest.len() && rest[i] == name;
        assert(names[i + 1] == name);
        assert(text_lt(names[0], names[i + 1]));
        text_lt_irreflexive(name);
    }
    if names.contains(name) && name != names[0] {
        let i = choose|i: int| 0 <= i < names.len() && names[i] == name;
        assert(rest[i - 1] == name);
    }
}

/// A graph has one sequence of waves.
pub proof fn law_waves_unique(
    edges: Seq<(Seq<char>, Seq<Seq<char>>)>,
    a: Seq<Seq<Seq<char>>>,
    b: Seq<Seq<Seq<char>>>,
)
    requires
        is_waves(edges, a),
        is_waves(edges, b),
    ensures
        a == b,
{
    if a.len() < b.len() {
        let w = a.len() as int;
        assert(b[w].contains(b[w][0]));
        assert(in_wave(b, b[w][0], w));
        lemma_same_wave(edges, b, a, b[w][0], w);
    }
    if b.len() < a.len() {
        let w = b.len() as int;
        assert(a[w].contains(a[w][0]));
        assert(in_wave(a, a[w][0], w));
        lemma_same_wave(edges, a, b, a[w][0], w);
    }
    assert forall|w: int| 0 <= w < a.len() implies #[trigger] a[w] == b[w] by {
        assert forall|name: Seq<char>| #[trigger] a[w].contains(name) <==> b[w].contains(name) by {
            if a[w].contains(name) {
                assert(in_wave(a, name, w));
                lemma_same_wave(edges, a, b, name, w);
            }
            if b[w].contains(name) {
                assert(in_wave(b, name, w));
                lemma_same_wave(edges, b, a, name, w);
            }
        }
        lemma_sorted_unique(a[w], b[w]);
    }
    assert(a =~= b);
}

/// A path descends through the waves: what it leads to stands in an earlier wave.
pub proof fn law_path_descends(
    edges: Seq<(Seq<char>, Seq<Seq<char>>)>,
    waves: Seq<Seq<Seq<char>>>,
    path: Seq<Seq<char>>,
    w: int,
)
    requires
        is_waves(edges, waves),
        is_path(edges, path),
        in_wave(waves, path[0], w),
    ensures
        before_wave(waves, path.last(), w),
    decreases path.len(),
{
    assert(depends(edges, path[0], path[1]));
    assert(before_wave(waves, path[1], w));
    if path.len() > 2 {
        let v = choose|v: int| v < w && #[trigger] in_wave(waves, path[1], v);
        let rest = path.drop_first();
        assert forall|i: int| 0 <= i < rest.len() - 1 implies depends(
            edges,
            #[trigger] rest[i],
            rest[i + 1],
        ) by {
            assert(depends(edges, path[i + 1], path[i + 2]));
        }
        law_path_descends(edges, waves, rest, v);
        let u = choose|u: int| u < v && #[trigger] in_wave(waves, path.last(), u);
        assert(in_wave(waves, path.last(), u));
    }
}

/// A graph that has waves has no cycle.
pub proof fn law_waves_exclude_cycles(
    edges: Seq<(Seq<char>, Seq<Seq<char>>)>,
    waves: Seq<Seq<Seq<char>>>,
)
    requires
        is_waves(edges, waves),
    ensures
        !has_cycle(edges),
{
    if has_cycle(edges) {
        let path = choose|path: Seq<Seq<char>>| #[trigger]
            is_path(edges, path) && path[0] == path.last();
        assert(depends(edges, path[0], path[1]));
        assert(has_key(edges, path[0]));
        assert(before_wave(waves, path[0], waves.len() as int));
        let w = choose|w: int| w < waves.len() && #[trigger] in_wave(waves, path[0], w);
        law_path_descends(edges, waves, path, w);
        let v = choose|v: int| v < w && #[trigger] in_wave(waves, path.last(), v);
        assert(in_wave(waves, path[0], v) && in_wave(waves, path[0], w));
    }
}

/// Names in one wave are independent: no path leads from one to the other.
pub proof fn law_wave_independent(
    edges: Seq<(Seq<char>, Seq<Seq<char>>)>,
    waves: Seq<Seq<Seq<char>>>,
    path: Seq<Seq<char>>,
    w: int,
)
    requires
        is_waves(edges, waves),
        is_path(edges, path),
        in_wave(waves, path[0], w),
    ensures
        !in_wave(waves, path.last(), w),
{
    law_path_descends(edges, waves, path, w);
    let v = choose|v: int| v < w && #[trigger] in_wave(waves, path.last(), v);
    if in_wave(waves, path.last(), w) {
        assert(in_wave(waves, path.last(), v) && in_wave(waves, path.last(), w));
    }
}

/// Every dependency, given by its position, is a node.
spec fn in_range(deps: Seq<Vec<usize>>) -> bool {
    forall|i: int, k: int|
        0 <= i < deps.len() && 0 <= k < deps[i]@.len() ==> #[trigger] deps[i]@[k] < deps.len()
}

/// All dependencies of node `i` are placed.
spec fn is_ready(deps: Seq<Vec<usize>>, level: Seq<Option<usize>>, i: int) -> bool {
    forall|k: int| 0 <= k < deps[i]@.len() ==> level[#[trigger] deps[i]@[k] as int] is Some
}

/// Some dependency of node `i` is placed in wave `w`.
spec fn rests_on(deps: Seq<Vec<usize>>, level: Seq<Option<usize>>, i: int, w: int) -> bool {
    exists|k: int|
        0 <= k < deps[i]@.len() && {
            let d = #[trigger] deps[i]@[k];
            level[d as int] is Some && level[d as int]->0 == w
        }
}

/// Some dependency of node `i` is not placed.
spec fn waits(deps: Seq<Vec<usize>>, level: Seq<Option<usize>>, i: int) -> bool {
    exists|k: int| 0 <= k < deps[i]@.len() && level[#[trigger] deps[i]@[k] as int] is None
}

/// Every dependency of node `i` is placed before wave `w`.
spec fn after_deps(deps: Seq<Vec<usize>>, level: Seq<Option<usize>>, i: int, w: int) -> bool {
    forall|k: int|
        0 <= k < deps[i]@.len() ==> {
            let d = #[trigger] deps[i]@[k];
            level[d as int] is Some && level[d as int]->0 < w
        }
}

/// Some node is placed in wave `v`.
spec fn occupied(level: Seq<Option<usize>>, v: int) -> bool {
    exists|i: int| 0 <= i < level.len() && #[trigger] level[i] is Some && level[i]->0 == v
}

/// The nodes that are placed stand in the first `w` waves, each right after its dependencies.
spec fn placed(deps: Seq<Vec<usize>>, level: Seq<Option<usize>>, w: int) -> bool {
    &&& level.len() == deps.len()
    &&& forall|i: int|
        0 <= i < level.len() && (#[trigger] level[i]) is Some ==> {
            &&& level[i]->0 < w
            &&& after_deps(deps, level, i, level[i]->0 as int)
            &&& level[i]->0 > 0 ==> rests_on(deps, level, i, level[i]->0 - 1)
        }
    &&& forall|v: int| 0 <= v < w ==> #[trigger] occupied(level, v)
}

/// The nodes that are not placed could not have been placed before wave `w`.
spec fn late(deps: Seq<Vec<usize>>, level: Seq<Option<usize>>, w: int) -> bool {
    forall|i: int|
        0 <= i < level.len() && (#[trigger] level[i]) is None && w > 0 ==> waits(deps, level, i)
            || rests_on(deps, level, i, w - 1)
}

/// How many nodes are not placed.
spec fn unplaced(level: Seq<Option<usize>>) -> nat
    decreases level.len(),
{
    if level.len() == 0 {
        0
    } else {
        unplaced(level.drop_last()) + if level.last() is None {
            1nat
        } else {
            0nat
        }
    }
}

proof fn lemma_unplaced(before: Seq<Option<usize>>, after: Seq<Option<usize>>)
    requires
        before.len() == after.len(),
        forall|i: int| 0 <= i < after.len() && (#[trigger] after[i]) is None ==> before[i] is None,
    ensures
        unplaced(after) <= unplaced(before),
        (exists|i: int|
            0 <= i < after.len() && (#[trigger] after[i]) is Some && before[i] is None)
            ==> unplaced(after) < unplaced(before),
    decreases before.len(),
{
    if before.len() > 0 {
        let a = after.drop_last();
        let b = before.drop_last();
        assert forall|i: int| 0 <= i < a.len() && (#[trigger] a[i]) is None implies b[i] is None by {
            assert(after[i] is None);
        }
        lemma_unplaced(b, a);
        assert(after.last() is None ==> before.last() is None) by {
            assert(after[after.len() - 1] == after.last());
        }
        if exists|i: int| 0 <= i < after.len() && (#[trigger] after[i]) is Some && before[i] is None {
            let i = choose|i: int|
                0 <= i < after.len() && (#[trigger] after[i]) is Some && before[i] is None;
            if i < a.len() {
                assert(a[i] is Some && b[i] is None);
            }
        }
    }
}

proof fn lemma_unplaced_bound(level: Seq<Option<usize>>)
    ensures
        unplaced(level) <= level.len(),
    decreases level.len(),
{
    if level.len() > 0 {
        lemma_unplaced_bound(level.drop_last());
    }
}

/// Whether all dependencies of node `i` are placed.
fn ready(deps: &Vec<Vec<usize>>, level: &Vec<Option<usize>>, i: usize) -> (ready: bool)
    requires
        in_range(deps@),
        level@.len() == deps@.len(),
        i < deps@.len(),
    ensures
        ready == is_ready(deps@, level@, i as int),
        !ready ==> waits(deps@, level@, i as int),
{
    let mut k: usize = 0;
    while k < deps[i].len()
        invariant
            in_range(deps@),
            level@.len() == deps@.len(),
            i < deps@.len(),
            k <= deps@[i as int]@.len(),
            forall|j: int| 0 <= j < k ==> level@[#[trigger] deps@[i as int]@[j] as int] is Some,
        decreases deps@[i as int]@.len() - k,
    {
        let d: usize = deps[i][k];
        assert(deps@[i as int]@[k as int] == d);
        if level[d].is_none() {
            return false;
        }
        k = k + 1;
    }
    true
}

/// Places in wave `w` every node whose dependencies are all placed, and says whether there was
/// one.
fn place_wave(deps: &Vec<Vec<usize>>, level: &Vec<Option<usize>>, w: usize) -> (out: (
    Vec<Option<usize>>,
    bool,
))
    requires
        in_range(deps@),
        placed(deps@, level@, w as int),
        late(deps@, level@, w as int),
    ensures
        out.1 ==> {
            &&& placed(deps@, out.0@, w + 1)
            &&& late(deps@, out.0@, w + 1)
            &&& unplaced(out.0@) < unplaced(level@)
        },
        !out.1 ==> forall|i: int|
            0 <= i < level@.len() && (#[trigger] level@[i]) is None ==> waits(deps@, level@, i),
{
    let mut next: Vec<Option<usize>> = Vec::new();
    let mut some = false;
    let mut i: usize = 0;
    while i < level.len()
        invariant
            in_range(deps@),
            level@.len() == deps@.len(),
            i <= level@.len(),
            next@.len() == i,
            forall|j: int|
                0 <= j < i ==> #[trigger] next@[j] == if level@[j] is None && is_ready(
                    deps@,
                    level@,
                    j,
                ) {
                    Some(w)
                } else {
                    level@[j]
                },
            forall|j: int|
                0 <= j < i && (#[trigger] level@[j]) is None && next@[j] is None ==> waits(
                    deps@,
                    level@,
                    j,
                ),
            some == exists|j: int|
                0 <= j < i && (#[trigger] next@[j]) is Some && level@[j] is None,
        decreases level.len() - i,
    {
        let ghost before = next@;
        if level[i].is_none() && ready(deps, level, i) {
            next.push(Some(w));
            some = true;
            assert(next@[i as int] is Some && level@[i as int] is None);
        } else {
            next.push(level[i]);
            proof {
                if some {
                    let j = choose|j: int|
                        0 <= j < i && (#[trigger] before[j]) is Some && level@[j] is None;
                    assert(next@[j] == before[j]);
                }
            }
        }
        i = i + 1;
    }
    proof {
        lemma_unplaced(level@, next@);
        if some {
            lemma_placed_step(deps@, level@, next@, w);
        } else {
            assert forall|j: int| 0 <= j < level@.len() && (#[trigger] level@[j]) is None implies waits(
                deps@,
                level@,
                j,
            ) by {
                assert(!(next@[j] is Some));
            }
        }
    }
    (next, some)
}

proof fn lemma_placed_step(
    deps: Seq<Vec<usize>>,
    level: Seq<Option<usize>>,
    next: Seq<Option<usize>>,
    w: usize,
)
    requires
        in_range(deps),
        placed(deps, level, w as int),
        late(deps, level, w as int),
        next.len() == level.len(),
        forall|j: int|
            0 <= j < level.len() ==> #[trigger] next[j] == if level[j] is None && is_ready(
                deps,
                level,
                j,
            ) {
                Some(w)
            } else {
                level[j]
            },
        forall|j: int|
            0 <= j < level.len() && (#[trigger] level[j]) is None && next[j] is None ==> waits(
                deps,
                level,
                j,
            ),
        exists|j: int| 0 <= j < level.len() && (#[trigger] next[j]) is Some && level[j] is None,
    ensures
        placed(deps, next, w + 1),
        late(deps, next, w + 1),
{
    assert forall|i: int| 0 <= i < next.len() && (#[trigger] next[i]) is Some implies {
        &&& next[i]->0 < w + 1
        &&& after_deps(deps, next, i, next[i]->0 as int)
        &&& next[i]->0 > 0 ==> rests_on(deps, next, i, next[i]->0 - 1)
    } by {
        if level[i] is Some {
            assert(next[i] == level[i]);
            assert forall|k: int| 0 <= k < deps[i]@.len() implies {
                let d = #[trigger] deps[i]@[k];
                next[d as int] is Some && next[d as int]->0 < next[i]->0
            } by {
                let d = deps[i]@[k];
                assert(level[d as int] is Some);
                assert(next[d as int] == level[d as int]);
            }
            if level[i]->0 > 0 {
                let k = choose|k: int|
                    0 <= k < deps[i]@.len() && {
                        let d = #[trigger] deps[i]@[k];
                        level[d as int] is Some && level[d as int]->0 == level[i]->0 - 1
                    };
                let d = deps[i]@[k];
                assert(next[d as int] == level[d as int]);
            }
        } else {
            assert(is_ready(deps, level, i));
            assert forall|k: int| 0 <= k < deps[i]@.len() implies {
                let d = #[trigger] deps[i]@[k];
                next[d as int] is Some && next[d as int]->0 < w
            } by {
                let d = deps[i]@[k];
                assert(level[d as int] is Some);
                assert(next[d as int] == level[d as int]);
            }
            if w > 0 {
                assert(!waits(deps, level, i));
                assert(rests_on(deps, level, i, w - 1));
                let k = choose|k: int|
                    0 <= k < deps[i]@.len() && {
                        let d = #[trigger] deps[i]@[k];
                        level[d as int] is Some && level[d as int]->0 == w - 1
                    };
                let d = deps[i]@[k];
                assert(next[d as int] == level[d as int]);
            }
        }
    }
    assert forall|v: int| 0 <= v < w + 1 implies #[trigger] occupied(next, v) by {
        if v < w {
            assert(occupied(level, v));
            let i = choose|i: int|
                0 <= i < level.len() && #[trigger] level[i] is Some && level[i]->0 == v;
            assert(next[i] == level[i]);
        } else {
            let i = choose|i: int|
                0 <= i < level.len() && (#[trigger] next[i]) is Some && level[i] is None;
            assert(next[i]->0 == w);
        }
    }
    assert forall|i: int| 0 <= i < next.len() && (#[trigger] next[i]) is None implies waits(
        deps,
        next,
        i,
    ) || rests_on(deps, next, i, w as int) by {
        assert(level[i] is None);
        assert(waits(deps, level, i));
        let k = choose|k: int|
            0 <= k < deps[i]@.len() && level[#[trigger] deps[i]@[k] as int] is None;
        let d = deps[i]@[k];
        if next[d as int] is None {
            assert(waits(deps, next, i));
        } else {
            assert(next[d as int]->0 == w);
        }
    }
}

/// Places the nodes wave by wave, until no further node can be placed.
fn place_all(deps: &Vec<Vec<usize>>) -> (out: (Vec<Option<usize>>, usize))
    requires
        in_range(deps@),
    ensures
        placed(deps@, out.0@, out.1 as int),
        forall|i: int|
            0 <= i < out.0@.len() && (#[trigger] out.0@[i]) is None ==> waits(deps@, out.0@, i),
{
    let mut level: Vec<Option<usize>> = Vec::new();
    let mut i: usize = 0;
    while i < deps.len()
        invariant
            i <= deps@.len(),
            level@.len() == i,
            forall|j: int| 0 <= j < i ==> (#[trigger] level@[j]) is None,
        decreases deps.len() - i,
    {
        level.push(None);
        i = i + 1;
    }
    let mut w: usize = 0;
    proof {
        lemma_unplaced_bound(level@);
    }
    loop
        invariant
            in_range(deps@),
            placed(deps@, level@, w as int),
            late(deps@, level@, w as int),
            w + unplaced(level@) <= deps.len(),
        decreases unplaced(level@),
    {
        let (next, some) = place_wave(deps, &level, w);
        if !some {
            return (level, w);
        }
        level = next;
        w = w + 1;
    }
}

/// `deps` gives the dependencies of `edges` by their positions.
spec fn indexed(edges: Seq<(Seq<char>, Seq<Seq<char>>)>, deps: Seq<Vec<usize>>) -> bool {
    &&& deps.len() == edges.len()
    &&& in_range(deps)
    &&& forall|i: int| 0 <= i < edges.len() ==> (#[trigger] deps[i])@.len() == edges[i].1.len()
    &&& forall|i: int, k: int|
        0 <= i < edges.len() && 0 <= k < deps[i]@.len() ==> edges[#[trigger] deps[i]@[k] as int].0
            == edges[i].1[k]
}

/// The positions of the dependencies of each node.
fn index_edges(edges: &StrMap<Vec<String>>) -> (deps: Vec<Vec<usize>>)
    requires
        closed_edges(list_views(edges@)),
    ensures
        indexed(list_views(edges@), deps@),
{
    let ghost named = list_views(edges@);
    let mut deps: Vec<Vec<usize>> = Vec::new();
    let mut i: usize = 0;
    while i < edges.len()
        invariant
            named == list_views(edges@),
            closed_edges(named),
            i <= edges@.len(),
            deps@.len() == i,
            forall|j: int| 0 <= j < i ==> (#[trigger] deps@[j])@.len() == named[j].1.len(),
            forall|j: int, k: int|
                0 <= j < i && 0 <= k < deps@[j]@.len() ==> (#[trigger] deps@[j]@[k]) < named.len()
                    && named[deps@[j]@[k] as int].0 == named[j].1[k],
        decreases edges@.len() - i,
    {
        let names = edges.value_at(i);
        let mut row: Vec<usize> = Vec::new();
        let mut k: usize = 0;
        while k < names.len()
            invariant
                named == list_views(edges@),
                closed_edges(named),
                i < edges@.len(),
                *names == edges@[i as int].1,
                k <= names@.len(),
                row@.len() == k,
                forall|j: int|
                    0 <= j < k ==> (#[trigger] row@[j]) < named.len() && named[row@[j] as int].0
                        == named[i as int].1[j],
            decreases names.len() - k,
        {
            let ghost name = named[i as int].1[k as int];
            assert(has_key(named, name));
            proof {
                let at = choose|at: int| 0 <= at < named.len() && (#[trigger] named[at]).0 == name;
                assert(edges@[at].0 == name);
            }
            match edges.index_of(names[k].as_str()) {
                Some(at) => {
                    assert(named[at as int].0 == name);
                    row.push(at);
                }
                None => {
                    assert(false);
                }
            }
            k = k + 1;
        }
        deps.push(row);
        i = i + 1;
    }
    deps
}

/// The names of the nodes that are placed in wave `w`, in ascending order.
fn wave_names(edges: &StrMap<Vec<String>>, level: &Vec<Option<usize>>, w: usize) -> (names: Vec<
    String,
>)
    requires
        level@.len() == edges@.len(),
    ensures
        sorted(views(names@)),
        forall|name: Seq<char>| #[trigger]
            views(names@).contains(name) <==> exists|i: int|
                0 <= i < edges@.len() && (#[trigger] edges@[i]).0 == name && level@[i] == Some(w),
{
    let mut names: Vec<String> = Vec::new();
    let mut i: usize = 0;
    while i < edges.len()
        invariant
            level@.len() == edges@.len(),
            i <= edges@.len(),
            sorted(views(names@)),
            forall|k: int, j: int|
                0 <= k < names@.len() && i <= j < edges@.len() ==> text_lt(
                    #[trigger] views(names@)[k],
                    (#[trigger] edges@[j]).0,
                ),
            forall|name: Seq<char>| #[trigger]
                views(names@).contains(name) <==> exists|j: int|
                    0 <= j < i && (#[trigger] edges@[j]).0 == name && level@[j] == Some(w),
        decreases edges@.len() - i,
    {
        let here = match level[i] {
            Some(v) => v == w,
            None => false,
        };
        let ghost before = views(names@);
        assert(ascending(edges@));
        if here {
            names.push(edges.key_at(i).to_owned());
            proof {
                let after = views(names@);
                let last = edges@[i as int].0;
                assert(after =~= before.push(last));
                assert forall|k: int, j: int| 0 <= k < after.len() && i + 1 <= j < edges@.len() implies text_lt(
                    #[trigger] after[k],
                    (#[trigger] edges@[j]).0,
                ) by {
                    if k < before.len() {
                        assert(after[k] == before[k]);
                    }
                }
                assert forall|name: Seq<char>| #[trigger] after.contains(name) <==> exists|j: int|
                    0 <= j < i + 1 && (#[trigger] edges@[j]).0 == name && level@[j] == Some(w) by {
                    if after.contains(name) {
                        let k = choose|k: int| 0 <= k < after.len() && after[k] == name;
                        if k < before.len() {
                            assert(before[k] == name);
                            assert(before.contains(name));
                        } else {
                            assert(edges@[i as int].0 == name);
                        }
                    }
                    if exists|j: int|
                        0 <= j < i + 1 && (#[trigger] edges@[j]).0 == name && level@[j] == Some(w) {
                        let j = choose|j: int|
                            0 <= j < i + 1 && (#[trigger] edges@[j]).0 == name && level@[j] == Some(
                                w,
                            );
                        if j < i {
                            assert(before.contains(name));
                            let k = choose|k: int| 0 <= k < before.len() && before[k] == name;
                            assert(after[k] == name);
                        } else {
                            assert(after[after.len() - 1] == name);
                        }
                    }
                }
            }
        } else {
            assert(level@[i as int] != Some(w));
        }
        i = i + 1;
    }
    names
}

/// What a list of waves stands for.
pub open spec fn wave_views(waves: Seq<Vec<String>>) -> Seq<Seq<Seq<char>>> {
    waves.map_values(|wave: Vec<String>| views(wave@))
}

/// The `k`-th node on a way that leads from `start` from one node that is not placed to another.
spec fn wander(deps: Seq<Vec<usize>>, level: Seq<Option<usize>>, start: int, k: nat) -> int
    decreases k,
{
    if k == 0 {
        start
    } else {
        let here = wander(deps, level, start, (k - 1) as nat);
        let j = choose|j: int|
            0 <= j < deps[here]@.len() && level[#[trigger] deps[here]@[j] as int] is None;
        deps[here]@[j] as int
    }
}

proof fn lemma_wander(
    edges: Seq<(Seq<char>, Seq<Seq<char>>)>,
    deps: Seq<Vec<usize>>,
    level: Seq<Option<usize>>,
    start: int,
    k: nat,
)
    requires
        indexed(edges, deps),
        level.len() == deps.len(),
        forall|i: int| 0 <= i < level.len() && (#[trigger] level[i]) is None ==> waits(deps, level, i),
        0 <= start < level.len(),
        level[start] is None,
    ensures
        0 <= wander(deps, level, start, k) < level.len(),
        level[wander(deps, level, start, k)] is None,
        k > 0 ==> depends(
            edges,
            edges[wander(deps, level, start, (k - 1) as nat)].0,
            edges[wander(deps, level, start, k)].0,
        ),
    decreases k,
{
    if k > 0 {
        lemma_wander(edges, deps, level, start, (k - 1) as nat);
        let here = wander(deps, level, start, (k - 1) as nat);
        assert(waits(deps, level, here));
        let j = choose|j: int|
            0 <= j < deps[here]@.len() && level[#[trigger] deps[here]@[j] as int] is None;
        let there = deps[here]@[j] as int;
        assert(edges[here].1[j] == edges[there].0);
        assert(edges[here].1.contains(edges[there].0));
        assert(edges[here].0 == edges[here].0);
    }
}

/// More numbers than there are values for them cannot all differ.
proof fn lemma_pigeonhole(s: Seq<int>, n: int)
    requires
        0 <= n < s.len(),
        forall|i: int| 0 <= i < s.len() ==> 0 <= #[trigger] s[i] < n,
    ensures
        exists|a: int, b: int| 0 <= a < b < s.len() && #[trigger] s[a] == #[trigger] s[b],
{
    if forall|a: int, b: int| 0 <= a < b < s.len() ==> #[trigger] s[a] != #[trigger] s[b] {
        assert(s.no_duplicates());
        s.unique_seq_to_set();
        vstd::set_lib::lemma_int_range(0, n);
        assert(s.to_set().subset_of(vstd::set_lib::set_int_range(0, n)));
        vstd::set_lib::lemma_len_subset(s.to_set(), vstd::set_lib::set_int_range(0, n));
    }
}

/// The `k`-th node on the way depends on the next.
spec fn steps(edges: Seq<(Seq<char>, Seq<Seq<char>>)>, way: Seq<int>, k: int) -> bool {
    depends(edges, edges[way[k]].0, edges[way[k + 1]].0)
}

/// A way along dependencies that comes back to a node holds a cycle.
proof fn lemma_comes_back(
    edges: Seq<(Seq<char>, Seq<Seq<char>>)>,
    way: Seq<int>,
    a: int,
    b: int,
)
    requires
        0 <= a < b < way.len(),
        way[a] == way[b],
        forall|k: int| a <= k < b ==> #[trigger] steps(edges, way, k),
    ensures
        has_cycle(edges),
{
    let path = Seq::new((b - a + 1) as nat, |k: int| edges[way[a + k]].0);
    assert forall|k: int| 0 <= k < path.len() - 1 implies depends(
        edges,
        #[trigger] path[k],
        path[k + 1],
    ) by {
        assert(steps(edges, way, a + k));
    }
    assert(is_path(edges, path));
    assert(path[0] == path.last());
}

/// Where some node cannot be placed there is a cycle.
proof fn lemma_stuck(
    edges: Seq<(Seq<char>, Seq<Seq<char>>)>,
    deps: Seq<Vec<usize>>,
    level: Seq<Option<usize>>,
    start: int,
)
    requires
        indexed(edges, deps),
        level.len() == deps.len(),
        forall|i: int| 0 <= i < level.len() && (#[trigger] level[i]) is None ==> waits(deps, level, i),
        0 <= start < level.len(),
        level[start] is None,
    ensures
        has_cycle(edges),
{
    let n = level.len();
    let way = Seq::new(n + 1, |k: int| wander(deps, level, start, k as nat));
    assert forall|k: int| 0 <= k < way.len() implies 0 <= #[trigger] way[k] < n by {
        lemma_wander(edges, deps, level, start, k as nat);
    }
    assert forall|k: int| 0 <= k < n implies #[trigger] steps(edges, way, k) by {
        lemma_wander(edges, deps, level, start, (k + 1) as nat);
    }
    lemma_pigeonhole(way, n as int);
    let (a, b) = choose|a: int, b: int|
        0 <= a < b < way.len() && #[trigger] way[a] == #[trigger] way[b];
    lemma_comes_back(edges, way, a, b);
}

/// The names of the nodes, wave by wave, are the waves of the graph.
proof fn lemma_waves(
    edges: Seq<(Seq<char>, Seq<Seq<char>>)>,
    deps: Seq<Vec<usize>>,
    level: Seq<Option<usize>>,
    waves: Seq<Seq<Seq<char>>>,
)
    requires
        ascending(edges),
        indexed(edges, deps),
        placed(deps, level, waves.len() as int),
        forall|i: int| 0 <= i < level.len() ==> (#[trigger] level[i]) is Some,
        forall|w: int| 0 <= w < waves.len() ==> sorted(#[trigger] waves[w]),
        forall|name: Seq<char>, w: int| #[trigger]
            in_wave(waves, name, w) <==> exists|i: int|
                0 <= i < edges.len() && (#[trigger] edges[i]).0 == name && level[i]->0 == w,
    ensures
        is_waves(edges, waves),
{
    assert forall|w: int| 0 <= w < waves.len() implies (#[trigger] waves[w]).len() > 0 by {
        assert(occupied(level, w));
        let i = choose|i: int|
            0 <= i < level.len() && #[trigger] level[i] is Some && level[i]->0 == w;
        assert(edges[i].0 == edges[i].0 && level[i]->0 == w);
        assert(in_wave(waves, edges[i].0, w));
    }
    assert forall|name: Seq<char>, w: int| #[trigger] in_wave(waves, name, w) implies has_key(
        edges,
        name,
    ) by {}
    assert forall|name: Seq<char>| #[trigger] has_key(edges, name) implies before_wave(
        waves,
        name,
        waves.len() as int,
    ) by {
        let i = choose|i: int| 0 <= i < edges.len() && (#[trigger] edges[i]).0 == name;
        assert(level[i] is Some);
        assert(in_wave(waves, name, level[i]->0 as int));
    }
    assert forall|name: Seq<char>, v: int, w: int| #[trigger]
        in_wave(waves, name, v) && #[trigger] in_wave(waves, name, w) implies v == w by {
        let i = choose|i: int|
            0 <= i < edges.len() && (#[trigger] edges[i]).0 == name && level[i]->0 == v;
        let j = choose|j: int|
            0 <= j < edges.len() && (#[trigger] edges[j]).0 == name && level[j]->0 == w;
        lemma_keys_distinct(edges, i, j);
    }
    assert forall|name: Seq<char>, w: int, dep: Seq<char>| #[trigger]
        in_wave(waves, name, w) && #[trigger] depends(edges, name, dep) implies before_wave(
        waves,
        dep,
        w,
    ) by {
        let i = choose|i: int|
            0 <= i < edges.len() && (#[trigger] edges[i]).0 == name && level[i]->0 == w;
        let j = choose|j: int|
            0 <= j < edges.len() && (#[trigger] edges[j]).0 == name && edges[j].1.contains(dep);
        lemma_keys_distinct(edges, i, j);
        let k = choose|k: int| 0 <= k < edges[i].1.len() && edges[i].1[k] == dep;
        let d = deps[i]@[k];
        assert(level[i] is Some);
        assert(after_deps(deps, level, i, w));
        assert(edges[d as int].0 == dep);
        assert(level[d as int] is Some);
        assert(in_wave(waves, dep, level[d as int]->0 as int));
    }
    assert forall|name: Seq<char>, w: int|
        w > 0 && #[trigger] in_wave(waves, name, w) implies needs_wave(edges, waves, name, w - 1) by {
        let i = choose|i: int|
            0 <= i < edges.len() && (#[trigger] edges[i]).0 == name && level[i]->0 == w;
        assert(level[i] is Some);
        assert(rests_on(deps, level, i, w - 1));
        let k = choose|k: int|
            0 <= k < deps[i]@.len() && {
                let d = #[trigger] deps[i]@[k];
                level[d as int] is Some && level[d as int]->0 == w - 1
            };
        let d = deps[i]@[k];
        let dep = edges[d as int].0;
        assert(edges[i].1[k] == dep);
        assert(edges[i].1.contains(dep));
        assert(depends(edges, name, dep));
        assert(in_wave(waves, dep, w - 1));
    }
}

/// The waves of a graph, or nothing where it has a cycle.
pub fn dependency_waves(edges: &StrMap<Vec<String>>) -> (waves: Option<Vec<Vec<String>>>)
    requires
        closed_edges(list_views(edges@)),
    ensures
        match waves {
            Some(waves) => is_waves(list_views(edges@), wave_views(waves@)),
            None => has_cycle(list_views(edges@)),
        },
{
    let ghost named = list_views(edges@);
    let deps = index_edges(edges);
    let (level, count) = place_all(&deps);
    let _ = edges.len();
    let mut i: usize = 0;
    while i < level.len()
        invariant
            level@.len() == deps@.len(),
            indexed(named, deps@),
            forall|j: int|
                0 <= j < level@.len() && (#[trigger] level@[j]) is None ==> waits(
                    deps@,
                    level@,
                    j,
                ),
            i <= level@.len(),
            named == list_views(edges@),
            forall|j: int| 0 <= j < i ==> (#[trigger] level@[j]) is Some,
        decreases level.len() - i,
    {
        if level[i].is_none() {
            proof {
                lemma_stuck(named, deps@, level@, i as int);
            }
            return None;
        }
        i = i + 1;
    }
    let mut waves: Vec<Vec<String>> = Vec::new();
    let mut w: usize = 0;
    while w < count
        invariant
            level@.len() == edges@.len(),
            w <= count,
            waves@.len() == w,
            forall|v: int| 0 <= v < w ==> sorted(#[trigger] wave_views(waves@)[v]),
            forall|v: int, name: Seq<char>|
                0 <= v < w ==> (#[trigger] wave_views(waves@)[v].contains(name) <==> exists|j: int|
                    0 <= j < edges@.len() && (#[trigger] edges@[j]).0 == name && level@[j] == Some(
                        v as usize,
                    )),
        decreases count - w,
    {
        let names = wave_names(edges, &level, w);
        let ghost before = wave_views(waves@);
        waves.push(names);
        proof {
            assert(wave_views(waves@) =~= before.push(views(names@)));
        }
        w = w + 1;
    }
    proof {
        let all = wave_views(waves@);
        assert(ascending(named)) by {
            assert forall|i: int, j: int| 0 <= i < j < named.len() implies text_lt(
                (#[trigger] named[i]).0,
                (#[trigger] named[j]).0,
            ) by {
                assert(text_lt(edges@[i].0, edges@[j].0));
            }
        }
        assert forall|name: Seq<char>, w: int| #[trigger] in_wave(all, name, w) <==> exists|i: int|
            0 <= i < named.len() && (#[trigger] named[i]).0 == name && level@[i]->0 == w by {
            if in_wave(all, name, w) {
                assert(all[w].contains(name));
                let j = choose|j: int|
                    0 <= j < edges@.len() && (#[trigger] edges@[j]).0 == name && level@[j] == Some(
                        w as usize,
                    );
                assert(named[j].0 == name);
            }
            if exists|i: int|
                0 <= i < named.len() && (#[trigger] named[i]).0 == name && level@[i]->0 == w {
                let i = choose|i: int|
                    0 <= i < named.len() && (#[trigger] named[i]).0 == name && level@[i]->0 == w;
                assert(level@[i] is Some);
                assert(edges@[i].0 == name && level@[i] == Some(w as usize));
                assert(all[w].contains(name));
            }
        }
        lemma_waves(named, deps@, level@, all);
    }
    Some(waves)
}

/// The names of all waves, one wave after the other.
pub fn flatten_waves(waves: &Vec<Vec<String>>) -> (order: Vec<String>)
    ensures
        views(order@) == in_order(wave_views(waves@)),
{
    let ghost all = wave_views(waves@);
    let mut order: Vec<String> = Vec::new();
    let mut w: usize = 0;
    assert(views(order@) =~= Seq::empty());
    while w < waves.len()
        invariant
            all == wave_views(waves@),
            w <= waves@.len(),
            views(order@) == in_order(all.take(w as int)),
        decreases waves.len() - w,
    {
        let mut names = copy_texts(&waves[w]);
        proof {
            lemma_views_add(order@, names@);
            assert(all.take(w + 1).drop_last() =~= all.take(w as int));
            assert(all.take(w + 1).last() == views(waves@[w as int]@));
        }
        order.append(&mut names);
        w = w + 1;
    }
    assert(all.take(w as int) =~= all);
    order
}

/// Where in its wave the name at `p` in the order stands.
proof fn lemma_locate(waves: Seq<Seq<Seq<char>>>, p: int) -> (at: (int, int))
    requires
        0 <= p < in_order(waves).len(),
    ensures
        0 <= at.0 < waves.len(),
        0 <= at.1 < waves[at.0].len(),
        in_order(waves)[p] == waves[at.0][at.1],
        p == in_order(waves.take(at.0)).len() + at.1,
    decreases waves.len(),
{
    let front = waves.drop_last();
    let last = waves.len() - 1;
    assert(waves.take(last) =~= front);
    if p < in_order(front).len() {
        let at = lemma_locate(front, p);
        assert(front.take(at.0) =~= waves.take(at.0));
        at
    } else {
        (last, p - in_order(front).len())
    }
}

proof fn lemma_starts_ascend(waves: Seq<Seq<Seq<char>>>, v: int, w: int)
    requires
        0 <= v < w <= waves.len(),
    ensures
        in_order(waves.take(v)).len() + waves[v].len() <= in_order(waves.take(w)).len(),
    decreases w - v,
{
    assert(waves.take(w).drop_last() =~= waves.take(w - 1));
    assert(waves.take(w).last() == waves[w - 1]);
    if v < w - 1 {
        lemma_starts_ascend(waves, v, w - 1);
    }
}

/// In the order of its waves, each node of a graph comes after all that it depends on.
pub proof fn law_order_respects_dependencies(
    edges: Seq<(Seq<char>, Seq<Seq<char>>)>,
    waves: Seq<Seq<Seq<char>>>,
    i: int,
    j: int,
)
    requires
        is_waves(edges, waves),
        0 <= i < in_order(waves).len(),
        0 <= j < in_order(waves).len(),
        depends(edges, in_order(waves)[i], in_order(waves)[j]),
    ensures
        j < i,
{
    let (w, k) = lemma_locate(waves, i);
    let (v, l) = lemma_locate(waves, j);
    let name = in_order(waves)[i];
    let dep = in_order(waves)[j];
    assert(in_wave(waves, name, w));
    assert(in_wave(waves, dep, v));
    assert(before_wave(waves, dep, w));
    let u = choose|u: int| u < w && #[trigger] in_wave(waves, dep, u);
    assert(u == v);
    lemma_starts_ascend(waves, v, w);
}

/// The order of the waves of a graph holds every node once, and nothing else.
pub proof fn law_order_complete(
    edges: Seq<(Seq<char>, Seq<Seq<char>>)>,
    waves: Seq<Seq<Seq<char>>>,
    name: Seq<char>,
)
    requires
        is_waves(edges, waves),
    ensures
        in_order(waves).no_duplicates(),
        in_order(waves).contains(name) <==> has_key(edges, name),
{
    let order = in_order(waves);
    assert forall|i: int, j: int| 0 <= i < j < order.len() implies order[i] != order[j] by {
        let (w, k) = lemma_locate(waves, i);
        let (v, l) = lemma_locate(waves, j);
        if order[i] == order[j] {
            assert(in_wave(waves, order[i], w));
            assert(in_wave(waves, order[i], v));
            assert(w == v);
            assert(sorted(waves[w]));
            assert(text_lt(waves[w][k], waves[w][l]));
            text_lt_irreflexive(order[i]);
        }
    }
    if order.contains(name) {
        let i = choose|i: int| 0 <= i < order.len() && order[i] == name;
        let (w, k) = lemma_locate(waves, i);
        assert(in_wave(waves, name, w));
    }
    if has_key(edges, name) {
        assert(before_wave(waves, name, waves.len() as int));
        let w = choose|w: int| w < waves.len() && #[trigger] in_wave(waves, name, w);
        let k = choose|k: int| 0 <= k < waves[w].len() && waves[w][k] == name;
        lemma_stands(waves, w, k);
    }
}

/// Where the `k`-th name of wave `w` stands in the order.
proof fn lemma_stands(waves: Seq<Seq<Seq<char>>>, w: int, k: int)
    requires
        0 <= w < waves.len(),
        0 <= k < waves[w].len(),
    ensures
        ({
            let p = in_order(waves.take(w)).len() + k;
            p < in_order(waves).len() && in_order(waves)[p] == waves[w][k]
        }),
        in_order(waves).contains(waves[w][k]),
    decreases waves.len(),
{
    let front = waves.drop_last();
    let last = waves.len() - 1;
    assert(waves.take(last) =~= front);
    let p = in_order(waves.take(w)).len() + k;
    if w < last {
        lemma_stands(front, w, k);
        assert(front.take(w) =~= waves.take(w));
    }
    assert(in_order(waves)[p] == waves[w][k]);
}

} // verus!
