//! The order in which a traversal from a set of roots emits the nodes of a
//! graph, as a mathematical function of the graph.

use vstd::prelude::*;
use crate::data_flow::link::Id;
use crate::data_flow::node::Shape;

verus! {

/// The number of nodes of the graph that are not in `seen`.
pub open spec fn unvisited(graph: Map<Id, Shape>, seen: Set<Id>) -> nat {
    graph.dom().difference(seen).len()
}

/// Marking one more node of the graph leaves one node less to visit.
pub proof fn lemma_unvisited_insert(graph: Map<Id, Shape>, seen: Set<Id>, id: Id)
    requires
        graph.dom().finite(),
        graph.dom().contains(id),
        !seen.contains(id),
    ensures
        unvisited(graph, seen.insert(id)) + 1 == unvisited(graph, seen),
{
    let before = graph.dom().difference(seen);
    assert(graph.dom().difference(seen.insert(id)) =~= before.remove(id));
    assert(before.contains(id));
    vstd::set_lib::lemma_len_subset(before, graph.dom());
}

/// The more nodes are marked, the fewer are left to visit.
pub proof fn lemma_unvisited_subset(graph: Map<Id, Shape>, fewer: Set<Id>, more: Set<Id>)
    requires
        graph.dom().finite(),
        fewer.subset_of(more),
    ensures
        unvisited(graph, more) <= unvisited(graph, fewer),
{
    vstd::set_lib::lemma_len_subset(graph.dom().difference(fewer), graph.dom());
    vstd::set_lib::lemma_len_subset(graph.dom().difference(more), graph.dom().difference(fewer));
}

/// Visits the keys of `list` from `position` on, one after the other, and
/// returns the nodes emitted and the set of nodes marked in the end.
///
/// A key that names no node of the graph, or a node that is marked already,
/// is passed over. Any other node is marked, then everything it depends on
/// is visited in the same way, and then the node itself is emitted.
///
/// The test that the marks only grow never fails (`lemma_walk_grows`); it
/// stands here because the definition has to terminate before anything can
/// be proved of it.
pub open spec fn walk(graph: Map<Id, Shape>, seen: Set<Id>, list: Seq<Id>, position: nat) -> (
    Seq<Id>,
    Set<Id>,
)
    decreases unvisited(graph, seen), list.len() - position,
    when graph.dom().finite()
{
    if position >= list.len() {
        (Seq::empty(), seen)
    } else {
        let id = list[position as int];
        let first = if graph.dom().contains(id) && !seen.contains(id) {
            proof {
                lemma_unvisited_insert(graph, seen, id);
            }
            let below = walk(graph, seen.insert(id), graph[id].dependencies(), 0);
            (below.0.push(id), below.1)
        } else {
            (Seq::empty(), seen)
        };
        if seen.subset_of(first.1) {
            proof {
                lemma_unvisited_subset(graph, seen, first.1);
            }
            let rest = walk(graph, first.1, list, position + 1);
            (first.0 + rest.0, rest.1)
        } else {
            first
        }
    }
}

/// The nodes that a traversal from `roots` emits, in the order in which it
/// emits them: for each root in turn, unless it was emitted before, what it
/// depends on and then the root itself.
pub open spec fn post_order(graph: Map<Id, Shape>, roots: Seq<Id>) -> Seq<Id> {
    walk(graph, Set::empty(), roots, 0).0
}

/// The nodes that a traversal from `roots` marks.
pub open spec fn reached(graph: Map<Id, Shape>, roots: Seq<Id>) -> Set<Id> {
    walk(graph, Set::empty(), roots, 0).1
}

/// A walk only adds marks, and only on nodes of the graph.
pub proof fn lemma_walk_grows(graph: Map<Id, Shape>, seen: Set<Id>, list: Seq<Id>, position: nat)
    requires
        graph.dom().finite(),
    ensures
        seen.subset_of(walk(graph, seen, list, position).1),
        walk(graph, seen, list, position).1.subset_of(seen.union(graph.dom())),
    decreases unvisited(graph, seen), list.len() - position,
{
    if position < list.len() {
        let id = list[position as int];
        if graph.dom().contains(id) && !seen.contains(id) {
            lemma_unvisited_insert(graph, seen, id);
            lemma_walk_grows(graph, seen.insert(id), graph[id].dependencies(), 0);
            let below = walk(graph, seen.insert(id), graph[id].dependencies(), 0);
            lemma_unvisited_subset(graph, seen, below.1);
            lemma_walk_grows(graph, below.1, list, position + 1);
        } else {
            lemma_walk_grows(graph, seen, list, position + 1);
        }
    }
}

/// One step of a walk: the key at `position` is visited, then the rest of
/// the list.
pub proof fn lemma_walk_step(graph: Map<Id, Shape>, seen: Set<Id>, list: Seq<Id>, position: nat)
    requires
        graph.dom().finite(),
        position < list.len(),
    ensures
        ({
            let id = list[position as int];
            if graph.dom().contains(id) && !seen.contains(id) {
                let below = walk(graph, seen.insert(id), graph[id].dependencies(), 0);
                let rest = walk(graph, below.1, list, position + 1);
                walk(graph, seen, list, position) == (below.0.push(id) + rest.0, rest.1)
            } else {
                walk(graph, seen, list, position) == walk(graph, seen, list, position + 1)
            }
        }),
{
    let id = list[position as int];
    if graph.dom().contains(id) && !seen.contains(id) {
        lemma_walk_grows(graph, seen.insert(id), graph[id].dependencies(), 0);
    } else {
        let rest = walk(graph, seen, list, position + 1);
        assert(Seq::<Id>::empty() + rest.0 =~= rest.0);
    }
}

} // verus!
