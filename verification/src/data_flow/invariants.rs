//! What a graph is expected to satisfy, and which changes keep it so.

use vstd::prelude::*;
use crate::data_flow::link::{Id, Region};
use crate::data_flow::node::Shape;

verus! {

/// Whether `to` is a node that the node `from` depends on: the producer of
/// one of its links, or a marker of one of its regions.
pub open spec fn depends(graph: Map<Id, Shape>, from: Id, to: Id) -> bool {
    &&& graph.dom().contains(from)
    &&& graph.dom().contains(to)
    &&& graph[from].dependencies().contains(to)
}

/// Whether every node that a node of the graph depends on is in the graph:
/// no link and no region names a node that is not, or no longer, there.
pub open spec fn closed(graph: Map<Id, Shape>) -> bool {
    forall|id: Id, i: int|
        graph.dom().contains(id) && 0 <= i < graph[id].dependencies().len()
            ==> graph.dom().contains(#[trigger] graph[id].dependencies()[i])
}

/// Whether a link or a region of some node of the graph names the key,
/// be the key that of a node of the graph or not.
pub open spec fn named(graph: Map<Id, Shape>, id: Id) -> bool {
    exists|from: Id, i: int|
        graph.dom().contains(from) && 0 <= i < graph[from].dependencies().len()
            && #[trigger] graph[from].dependencies()[i] == id
}

/// Whether `rank` falls along every dependency of the graph.
pub open spec fn ranked(graph: Map<Id, Shape>, rank: spec_fn(Id) -> nat) -> bool {
    forall|from: Id, to: Id| depends(graph, from, to) ==> rank(to) < rank(from)
}

/// Whether no chain of dependencies leads from a node back to itself: the
/// nodes can be ranked so that every node ranks above what it depends on.
pub open spec fn acyclic(graph: Map<Id, Shape>) -> bool {
    exists|rank: spec_fn(Id) -> nat| ranked(graph, rank)
}

/// Whether the two regions share no marker.
pub open spec fn apart(left: Region, right: Region) -> bool {
    &&& left.start != right.start
    &&& left.start != right.end
    &&& left.end != right.start
    &&& left.end != right.end
}

/// Whether every region has two markers and no two regions, of one node or
/// of two, share a marker: a region belongs to one compound, once.
pub open spec fn regions_apart(graph: Map<Id, Shape>) -> bool {
    forall|a: Id, i: int, b: Id, j: int|
        #![trigger graph[a].regions[i], graph[b].regions[j]]
        graph.dom().contains(a) && graph.dom().contains(b) && 0 <= i < graph[a].regions.len() && 0
            <= j < graph[b].regions.len() ==> graph[a].regions[i].start != graph[a].regions[i].end
            && ((a != b || i != j) ==> apart(graph[a].regions[i], graph[b].regions[j]))
}

/// The highest rank among the keys of the list, or zero if it is empty.
pub open spec fn top(rank: spec_fn(Id) -> nat, list: Seq<Id>) -> nat
    decreases list.len(),
{
    if list.len() == 0 {
        0
    } else if rank(list.last()) > top(rank, list.drop_last()) {
        rank(list.last())
    } else {
        top(rank, list.drop_last())
    }
}

/// No key of the list ranks above the top.
proof fn lemma_top(rank: spec_fn(Id) -> nat, list: Seq<Id>, i: int)
    requires
        0 <= i < list.len(),
    ensures
        rank(list[i]) <= top(rank, list),
    decreases list.len(),
{
    if i < list.len() - 1 {
        lemma_top(rank, list.drop_last(), i);
    }
}

/// Adding a node under a key that is new, all of whose dependencies are
/// nodes of the graph, leaves no dangling link if there was none, makes no
/// cycle if there was none and nothing names the new key, and keeps the
/// regions apart if those of the new node are apart from each other and
/// from those of every other node.
pub proof fn lemma_extend(graph: Map<Id, Shape>, id: Id, shape: Shape)
    requires
        !graph.dom().contains(id),
        forall|i: int|
            0 <= i < shape.dependencies().len() ==> graph.dom().contains(
                #[trigger] shape.dependencies()[i],
            ),
    ensures
        closed(graph) ==> closed(graph.insert(id, shape)) && !named(graph, id),
        acyclic(graph) && !named(graph, id) ==> acyclic(graph.insert(id, shape)),
        forall|key: Id|
            named(graph.insert(id, shape), key) ==> named(graph, key) || shape.dependencies().contains(
                key,
            ),
        regions_apart(graph) && regions_apart(Map::<Id, Shape>::empty().insert(id, shape)) && (
        forall|i: int, b: Id, j: int|
            #![trigger shape.regions[i], graph[b].regions[j]]
            0 <= i < shape.regions.len() && graph.dom().contains(b) && 0 <= j
                < graph[b].regions.len() ==> apart(shape.regions[i], graph[b].regions[j]))
            ==> regions_apart(graph.insert(id, shape)),
{
    let after = graph.insert(id, shape);
    if closed(graph) {
        assert forall|from: Id, i: int|
            after.dom().contains(from) && 0 <= i < after[from].dependencies().len() implies after.dom().contains(
            #[trigger] after[from].dependencies()[i],
        ) by {
            if from != id {
                assert(graph.dom().contains(graph[from].dependencies()[i]));
            }
        }
        if named(graph, id) {
            let (from, i) = choose|from: Id, i: int|
                graph.dom().contains(from) && 0 <= i < graph[from].dependencies().len()
                    && #[trigger] graph[from].dependencies()[i] == id;
            assert(graph.dom().contains(graph[from].dependencies()[i]));
        }
    }
    if acyclic(graph) && !named(graph, id) {
        let rank = choose|rank: spec_fn(Id) -> nat| ranked(graph, rank);
        let above = top(rank, shape.dependencies()) + 1;
        let raised = |x: Id|
            if x == id {
                above
            } else {
                rank(x)
            };
        assert forall|from: Id, to: Id| depends(after, from, to) implies raised(to) < raised(from) by {
            let list = after[from].dependencies();
            let i = choose|i: int| 0 <= i < list.len() && list[i] == to;
            if from == id {
                assert(graph.dom().contains(shape.dependencies()[i]));
                lemma_top(rank, shape.dependencies(), i);
            } else {
                assert(graph[from].dependencies()[i] == to);
                assert(to != id);
                assert(depends(graph, from, to));
            }
        }
        assert(ranked(after, raised));
    }
    assert forall|key: Id| named(after, key) implies named(graph, key) || shape.dependencies().contains(
        key,
    ) by {
        let (from, i) = choose|from: Id, i: int|
            after.dom().contains(from) && 0 <= i < after[from].dependencies().len()
                && #[trigger] after[from].dependencies()[i] == key;
        if from != id {
            assert(graph[from].dependencies()[i] == key);
        }
    }
    let alone = Map::<Id, Shape>::empty().insert(id, shape);
    if regions_apart(graph) && regions_apart(alone) && (forall|i: int, b: Id, j: int|
        #![trigger shape.regions[i], graph[b].regions[j]]
        0 <= i < shape.regions.len() && graph.dom().contains(b) && 0 <= j < graph[b].regions.len()
            ==> apart(shape.regions[i], graph[b].regions[j])) {
        assert forall|a: Id, i: int, b: Id, j: int|
            #![trigger after[a].regions[i], after[b].regions[j]]
            after.dom().contains(a) && after.dom().contains(b) && 0 <= i < after[a].regions.len()
                && 0 <= j < after[b].regions.len() implies after[a].regions[i].start
            != after[a].regions[i].end && ((a != b || i != j) ==> apart(
            after[a].regions[i],
            after[b].regions[j],
        )) by {
            if a == id && b == id {
                assert(alone.dom().contains(id));
                assert(alone[id].regions[i] == shape.regions[i]);
                assert(alone[id].regions[j] == shape.regions[j]);
            } else if a == id {
                assert(alone.dom().contains(id));
                assert(alone[id].regions[i] == shape.regions[i]);
                assert(apart(shape.regions[i], graph[b].regions[j]));
            } else if b == id {
                assert(apart(shape.regions[j], graph[a].regions[i]));
                assert(graph[a].regions[i].start != graph[a].regions[i].end) by {
                    let _ = (graph[a].regions[i], graph[a].regions[i]);
                }
            } else {
                let _ = (graph[a].regions[i], graph[b].regions[j]);
            }
        }
    }
}

/// Removing nodes makes no cycle and brings no two regions together; it
/// leaves no dangling link if nothing that stays depends on what goes.
pub proof fn lemma_restrict(graph: Map<Id, Shape>, keep: Set<Id>)
    ensures
        acyclic(graph) ==> acyclic(graph.restrict(keep)),
        regions_apart(graph) ==> regions_apart(graph.restrict(keep)),
        closed(graph) && (forall|from: Id, to: Id|
            depends(graph, from, to) && keep.contains(from) ==> keep.contains(to)) ==> closed(
            graph.restrict(keep),
        ),
{
    let sub = graph.restrict(keep);
    if acyclic(graph) {
        let rank = choose|rank: spec_fn(Id) -> nat| ranked(graph, rank);
        assert forall|from: Id, to: Id| depends(sub, from, to) implies rank(to) < rank(from) by {
            assert(depends(graph, from, to));
        }
        assert(ranked(sub, rank));
    }
    if regions_apart(graph) {
        assert forall|a: Id, i: int, b: Id, j: int|
            #![trigger sub[a].regions[i], sub[b].regions[j]]
            sub.dom().contains(a) && sub.dom().contains(b) && 0 <= i < sub[a].regions.len() && 0
                <= j < sub[b].regions.len() implies sub[a].regions[i].start
            != sub[a].regions[i].end && ((a != b || i != j) ==> apart(
            sub[a].regions[i],
            sub[b].regions[j],
        )) by {
            let _ = (graph[a].regions[i], graph[b].regions[j]);
        }
    }
    if closed(graph) && (forall|from: Id, to: Id|
        depends(graph, from, to) && keep.contains(from) ==> keep.contains(to)) {
        assert forall|id: Id, i: int|
            sub.dom().contains(id) && 0 <= i < sub[id].dependencies().len() implies sub.dom().contains(
            #[trigger] sub[id].dependencies()[i],
        ) by {
            let to = graph[id].dependencies()[i];
            assert(graph.dom().contains(to));
            assert(depends(graph, id, to));
        }
    }
}

} // verus!
