//! Scheduler determinism: the schedule does not depend on the order in
//! which the systems are given, as far as no conflict is settled by the
//! systems' indices.

use vstd::prelude::*;
use crate::scheduler::{ancestor, conflict_forward, declared, declares, edge, explicit_edge,
    graph_of, group_before, intersects, names, system_index, SystemDescriptor,
    lemma_intersects_symmetric, lemma_system_index_in_range};
use crate::wavefront::{arc, is_schedule, layered, lists_layers, lemma_layers_agree};

verus! {

/// `permuted` holds the systems of `systems` in another order: the
/// system at index `x` stands at index `to[x]` of `permuted`, and the system
/// at index `j` of `permuted` stood at index `from[j]`.
pub open spec fn is_permutation(
    systems: Seq<SystemDescriptor>,
    permuted: Seq<SystemDescriptor>,
    to: Seq<int>,
    from: Seq<int>,
) -> bool {
    &&& permuted.len() == systems.len()
    &&& to.len() == systems.len()
    &&& from.len() == systems.len()
    &&& forall|x: int|
        0 <= x < systems.len() ==> 0 <= #[trigger] to[x] < systems.len() && from[to[x]] == x
            && permuted[to[x]] == systems[x]
    &&& forall|j: int|
        0 <= j < systems.len() ==> 0 <= #[trigger] from[j] < systems.len() && to[from[j]] == j
}

/// No two systems have the same type.
pub open spec fn distinct_types(systems: Seq<SystemDescriptor>) -> bool {
    forall|x: int, y: int|
        0 <= x < systems.len() && 0 <= y < systems.len() && x != y ==> (#[trigger] systems[x]).type_id
            != (#[trigger] systems[y]).type_id
}

/// No conflict is settled by the systems' indices: of two systems that
/// the declared orderings leave unordered, none writes a component type that
/// the other writes, and they do not each write a component type that the
/// other reads.
pub open spec fn index_free(systems: Seq<SystemDescriptor>) -> bool {
    forall|x: int, y: int|
        0 <= x < systems.len() && 0 <= y < systems.len() && x != y && !#[trigger] explicit_edge(
            systems,
            x,
            y,
        ) && !explicit_edge(systems, y, x) ==> {
            &&& !intersects(systems[x].writes@, systems[y].writes@)
            &&& !(intersects(systems[x].writes@, systems[y].reads@) && intersects(
                systems[y].writes@,
                systems[x].reads@,
            ))
        }
}

/// Whether `list` holds the index `x`.
pub open spec fn holds(list: Seq<usize>, x: int) -> bool {
    exists|p: int| 0 <= p < list.len() && #[trigger] list[p] == x
}

/// Among systems of distinct types, the index of a type is the index of
/// the one system that has it.
proof fn lemma_index_of_type(systems: Seq<SystemDescriptor>, id: u64, k: int)
    requires
        distinct_types(systems),
        0 <= k < systems.len(),
        systems[k].type_id == id,
    ensures
        system_index(systems, id) == Some(k),
{
    lemma_system_index_in_range(systems, id);
    match system_index(systems, id) {
        Some(found) => {
            if found != k {
                assert(systems[found].type_id != systems[k].type_id);
            }
        },
        None => {
            assert(systems[k].type_id != id);
        },
    }
}

/// A permutation of systems of distinct types has distinct types.
proof fn lemma_permuted_distinct(
    systems: Seq<SystemDescriptor>,
    permuted: Seq<SystemDescriptor>,
    to: Seq<int>,
    from: Seq<int>,
)
    requires
        is_permutation(systems, permuted, to, from),
        distinct_types(systems),
    ensures
        distinct_types(permuted),
        is_permutation(permuted, systems, from, to),
{
    assert forall|j: int| 0 <= j < permuted.len() implies 0 <= #[trigger] from[j] < permuted.len()
        && to[from[j]] == j && systems[from[j]] == permuted[j] by {
        assert(permuted[to[from[j]]] == systems[from[j]]);
    }
    assert forall|x: int, y: int|
        0 <= x < permuted.len() && 0 <= y < permuted.len() && x != y implies (
    #[trigger] permuted[x]).type_id != (#[trigger] permuted[y]).type_id by {
        assert(permuted[to[from[x]]] == systems[from[x]]);
        assert(permuted[to[from[y]]] == systems[from[y]]);
        assert(from[x] != from[y]);
    }
}

/// The index of a type moves with the permutation.
proof fn lemma_index_moves(
    systems: Seq<SystemDescriptor>,
    permuted: Seq<SystemDescriptor>,
    to: Seq<int>,
    from: Seq<int>,
    id: u64,
)
    requires
        is_permutation(systems, permuted, to, from),
        distinct_types(systems),
    ensures
        system_index(permuted, id) == (match system_index(systems, id) {
            Some(k) => Some(to[k]),
            None => None,
        }),
{
    lemma_permuted_distinct(systems, permuted, to, from);
    lemma_system_index_in_range(systems, id);
    lemma_system_index_in_range(permuted, id);
    match system_index(systems, id) {
        Some(k) => {
            assert(permuted[to[k]] == systems[k]);
            lemma_index_of_type(permuted, id, to[k]);
        },
        None => {
            match system_index(permuted, id) {
                Some(j) => {
                    assert(permuted[to[from[j]]] == systems[from[j]]);
                    assert(systems[from[j]].type_id != id);
                },
                None => {},
            }
        },
    }
}

/// The ancestors of a system move with the permutation.
proof fn lemma_ancestor_moves(
    systems: Seq<SystemDescriptor>,
    permuted: Seq<SystemDescriptor>,
    to: Seq<int>,
    from: Seq<int>,
    i: int,
    steps: nat,
)
    requires
        is_permutation(systems, permuted, to, from),
        distinct_types(systems),
        0 <= i < systems.len(),
    ensures
        ancestor(permuted, to[i], steps) == (match ancestor(systems, i, steps) {
            Some(a) => Some(to[a]),
            None => None,
        }),
        match ancestor(systems, i, steps) {
            Some(a) => 0 <= a < systems.len(),
            None => true,
        },
    decreases steps,
{
    if steps > 0 {
        lemma_ancestor_moves(systems, permuted, to, from, i, (steps - 1) as nat);
        match ancestor(systems, i, (steps - 1) as nat) {
            Some(a) => {
                assert(permuted[to[a]] == systems[a]);
                match systems[a].parent {
                    Some(id) => {
                        lemma_index_moves(systems, permuted, to, from, id);
                        lemma_system_index_in_range(systems, id);
                    },
                    None => {},
                }
            },
            None => {},
        }
    }
}

/// What a system declares moves with the permutation.
proof fn lemma_declares_moves(
    systems: Seq<SystemDescriptor>,
    permuted: Seq<SystemDescriptor>,
    to: Seq<int>,
    from: Seq<int>,
    i: int,
    k: int,
    before: bool,
)
    requires
        is_permutation(systems, permuted, to, from),
        distinct_types(systems),
        0 <= i < systems.len(),
        0 <= k < systems.len(),
        declares(systems, i, k, before),
    ensures
        declares(permuted, to[i], to[k], before),
{
    let (steps, p) = choose|steps: nat, p: int|
        steps <= systems.len() && #[trigger] names(systems, i, k, before, steps, p);
    lemma_ancestor_moves(systems, permuted, to, from, i, steps);
    let a = ancestor(systems, i, steps).unwrap();
    assert(permuted[to[a]] == systems[a]);
    lemma_index_moves(systems, permuted, to, from, declared(systems[a], before)[p]);
    assert(names(permuted, to[i], to[k], before, steps, p));
}

/// The declared orderings move with the permutation.
proof fn lemma_explicit_moves(
    systems: Seq<SystemDescriptor>,
    permuted: Seq<SystemDescriptor>,
    to: Seq<int>,
    from: Seq<int>,
    x: int,
    y: int,
)
    requires
        is_permutation(systems, permuted, to, from),
        distinct_types(systems),
        0 <= x < systems.len(),
        0 <= y < systems.len(),
    ensures
        explicit_edge(permuted, to[x], to[y]) == explicit_edge(systems, x, y),
{
    lemma_permuted_distinct(systems, permuted, to, from);
    assert(permuted[to[x]] == systems[x]);
    assert(permuted[to[y]] == systems[y]);
    assert(to[x] == to[y] <==> x == y) by {
        assert(from[to[x]] == x);
        assert(from[to[y]] == y);
    }
    if declares(systems, y, x, false) {
        lemma_declares_moves(systems, permuted, to, from, y, x, false);
    }
    if declares(systems, x, y, true) {
        lemma_declares_moves(systems, permuted, to, from, x, y, true);
    }
    if declares(permuted, to[y], to[x], false) {
        lemma_declares_moves(permuted, systems, from, to, to[y], to[x], false);
    }
    if declares(permuted, to[x], to[y], true) {
        lemma_declares_moves(permuted, systems, from, to, to[x], to[y], true);
    }
    assert(group_before(permuted, to[x], to[y]) == group_before(systems, x, y));
}

/// Where no conflict is settled by the indices, a pair of systems that
/// the declared orderings leave unordered has an edge from the writer to the reader.
proof fn lemma_edge_index_free(systems: Seq<SystemDescriptor>, x: int, y: int)
    requires
        index_free(systems),
        0 <= x < systems.len(),
        0 <= y < systems.len(),
        x != y,
    ensures
        edge(systems, x, y) == (explicit_edge(systems, x, y) || (!explicit_edge(systems, y, x)
            && intersects(systems[x].writes@, systems[y].reads@))),
{
    lemma_intersects_symmetric(systems[x].writes@, systems[y].reads@);
    lemma_intersects_symmetric(systems[y].writes@, systems[x].reads@);
    lemma_intersects_symmetric(systems[x].writes@, systems[y].writes@);
    if !explicit_edge(systems, x, y) && !explicit_edge(systems, y, x) {
        assert(!intersects(systems[x].writes@, systems[y].writes@));
        assert(!explicit_edge(systems, y, x) && !explicit_edge(systems, x, y));
        assert(!intersects(systems[y].writes@, systems[x].writes@));
    }
}

/// A permutation of systems among which no conflict is settled by the
/// indices is such a sequence of systems too.
proof fn lemma_permuted_index_free(
    systems: Seq<SystemDescriptor>,
    permuted: Seq<SystemDescriptor>,
    to: Seq<int>,
    from: Seq<int>,
)
    requires
        is_permutation(systems, permuted, to, from),
        distinct_types(systems),
        index_free(systems),
    ensures
        index_free(permuted),
{
    lemma_permuted_distinct(systems, permuted, to, from);
    assert forall|x: int, y: int|
        0 <= x < permuted.len() && 0 <= y < permuted.len() && x != y && !#[trigger] explicit_edge(
            permuted,
            x,
            y,
        ) && !explicit_edge(permuted, y, x) implies {
        &&& !intersects(permuted[x].writes@, permuted[y].writes@)
        &&& !(intersects(permuted[x].writes@, permuted[y].reads@) && intersects(
            permuted[y].writes@,
            permuted[x].reads@,
        ))
    } by {
        let a = from[x];
        let b = from[y];
        assert(to[a] == x && to[b] == y);
        assert(permuted[to[a]] == systems[a]);
        assert(permuted[to[b]] == systems[b]);
        lemma_explicit_moves(systems, permuted, to, from, a, b);
        lemma_explicit_moves(systems, permuted, to, from, b, a);
        assert(!explicit_edge(systems, a, b));
        assert(!explicit_edge(systems, b, a));
    }
}

/// **The edges move with the permutation.** Among systems of distinct
/// types of which no conflict is settled by the indices, two systems have
/// an edge between them in whatever order the systems are given.
pub proof fn lemma_edge_moves(
    systems: Seq<SystemDescriptor>,
    permuted: Seq<SystemDescriptor>,
    to: Seq<int>,
    from: Seq<int>,
    x: int,
    y: int,
)
    requires
        is_permutation(systems, permuted, to, from),
        distinct_types(systems),
        index_free(systems),
        0 <= x < systems.len(),
        0 <= y < systems.len(),
    ensures
        edge(permuted, to[x], to[y]) == edge(systems, x, y),
{
    assert(permuted[to[x]] == systems[x]);
    assert(permuted[to[y]] == systems[y]);
    assert(to[x] == to[y] <==> x == y) by {
        assert(from[to[x]] == x);
        assert(from[to[y]] == y);
    }
    if x != y {
        lemma_permuted_index_free(systems, permuted, to, from);
        lemma_explicit_moves(systems, permuted, to, from, x, y);
        lemma_explicit_moves(systems, permuted, to, from, y, x);
        lemma_edge_index_free(systems, x, y);
        lemma_edge_index_free(permuted, to[x], to[y]);
    }
}

/// **Scheduler determinism.** Let the same systems be given in two
/// orders, let their types be distinct, and let no conflict be settled by
/// the indices. Then the two schedules have the same number of wavefronts,
/// and wavefront by wavefront they hold the same systems.
pub proof fn lemma_schedule_permutation(
    systems: Seq<SystemDescriptor>,
    permuted: Seq<SystemDescriptor>,
    to: Seq<int>,
    from: Seq<int>,
    fronts: Seq<Vec<usize>>,
    permuted_fronts: Seq<Vec<usize>>,
)
    requires
        is_permutation(systems, permuted, to, from),
        distinct_types(systems),
        index_free(systems),
        is_schedule(graph_of(systems), fronts),
        is_schedule(graph_of(permuted), permuted_fronts),
    ensures
        fronts.len() == permuted_fronts.len(),
        forall|k: int, x: int|
            0 <= k < fronts.len() && 0 <= x < systems.len() ==> (#[trigger] holds(fronts[k]@, x)
                <==> holds(permuted_fronts[k]@, to[x])),
{
    let n = systems.len() as int;
    let graph = graph_of(systems);
    let graph2 = graph_of(permuted);
    let layer = choose|layer: Seq<int>| #[trigger] layered(graph, layer) && lists_layers(layer, fronts);
    let layer2 = choose|layer: Seq<int>|
        #[trigger] layered(graph2, layer) && lists_layers(layer, permuted_fronts);
    // The layering of the systems, moved along the permutation, is a
    // layering of the permuted systems.
    let moved = Seq::new(n as nat, |j: int| layer[from[j]]);
    assert forall|a: int, b: int| #[trigger] arc(graph2, a, b) implies moved[a] < moved[b] by {
        assert(edge(permuted, a, b));
        lemma_edge_moves(systems, permuted, to, from, from[a], from[b]);
        assert(arc(graph, from[a], from[b]));
    }
    assert forall|b: int| 0 <= b < moved.len() && #[trigger] moved[b] > 0 implies exists|a: int|
        #[trigger] arc(graph2, a, b) && moved[a] == moved[b] - 1 by {
        let y = from[b];
        assert(layer[y] > 0);
        let x = choose|x: int| #[trigger] arc(graph, x, y) && layer[x] == layer[y] - 1;
        assert(edge(systems, x, y));
        lemma_edge_moves(systems, permuted, to, from, x, y);
        assert(arc(graph2, to[x], to[y]));
        assert(moved[to[x]] == layer[x]);
    }
    assert forall|j: int| 0 <= j < moved.len() implies #[trigger] moved[j] >= 0 by {
        assert(layer[from[j]] >= 0);
    }
    assert(layered(graph2, moved));
    // A graph has one layering only.
    assert forall|j: int| 0 <= j < n implies layer2[j] == moved[j] by {
        lemma_layers_agree(graph2, layer2, moved, layer2[j]);
    }
    assert forall|x: int| 0 <= x < n implies layer2[to[x]] == layer[x] by {
        assert(moved[to[x]] == layer[from[to[x]]]);
    }
    // The wavefronts list the layers.
    if fronts.len() > 0 {
        let x = fronts[fronts.len() - 1]@[0] as int;
        assert(layer[x] == fronts.len() - 1);
        assert(layer2[to[x]] == layer[x]);
    }
    if permuted_fronts.len() > 0 {
        let j = permuted_fronts[permuted_fronts.len() - 1]@[0] as int;
        assert(layer2[j] == permuted_fronts.len() - 1);
        assert(layer2[to[from[j]]] == layer[from[j]]);
    }
    assert forall|k: int, x: int| 0 <= k < fronts.len() && 0 <= x < n implies (#[trigger] holds(
        fronts[k]@,
        x,
    ) <==> holds(permuted_fronts[k]@, to[x])) by {
        assert(layer2[to[x]] == layer[x]);
        if holds(fronts[k]@, x) {
            let p = choose|p: int| 0 <= p < fronts[k]@.len() && #[trigger] fronts[k]@[p] == x;
            assert(layer[fronts[k]@[p] as int] == k);
            let q = choose|q: int|
                0 <= q < permuted_fronts[layer2[to[x]]]@.len()
                    && #[trigger] permuted_fronts[layer2[to[x]]]@[q] == to[x];
            assert(permuted_fronts[k]@[q] == to[x]);
        }
        if holds(permuted_fronts[k]@, to[x]) {
            let q = choose|q: int|
                0 <= q < permuted_fronts[k]@.len() && #[trigger] permuted_fronts[k]@[q] == to[x];
            assert(layer2[permuted_fronts[k]@[q] as int] == k);
            let p = choose|p: int|
                0 <= p < fronts[layer[x]]@.len() && #[trigger] fronts[layer[x]]@[p] == x;
            assert(fronts[k]@[p] == x);
        }
    }
}

} // verus!
