//! The frontier of a traversal that marks nodes when it first meets them.

use vstd::prelude::*;
use crate::data_flow::invariants::depends;
use crate::data_flow::link::Id;
use crate::data_flow::node::Shape;
use crate::visit::laws::{connects, reachable};
use crate::visit::order::{lemma_unvisited_insert, unvisited};

verus! {

/// The keys that a node names, in the order in which a traversal meets
/// them: the start and the end marker of each region in declaration order,
/// then the producer of each link in port order.
pub open spec fn neighbors(shape: Shape) -> Seq<Id> {
    Seq::new(
        2 * shape.regions.len() + shape.links.len(),
        |i: int|
            if i < 2 * shape.regions.len() {
                if i % 2 == 0 {
                    shape.regions[i / 2].start
                } else {
                    shape.regions[i / 2].end
                }
            } else {
                shape.links[i - 2 * shape.regions.len()].node
            },
    )
}

/// A key on the queue stands for itself.
pub open spec fn plain() -> spec_fn(Id) -> Id {
    |id: Id| id
}

/// A node that is met waits on the stack, not yet opened.
pub open spec fn fresh() -> spec_fn(Id) -> (Id, bool) {
    |id: Id| (id, false)
}

/// Meets the keys of `list` from `position` on: each that names a node of
/// the graph which is not marked yet is marked and put at the end of the
/// queue, wrapped by `wrap`. Returns the marks and the queue.
pub open spec fn queued<T>(
    graph: Map<Id, Shape>,
    seen: Set<Id>,
    queue: Seq<T>,
    list: Seq<Id>,
    position: nat,
    wrap: spec_fn(Id) -> T,
) -> (Set<Id>, Seq<T>)
    decreases list.len() - position,
{
    if position >= list.len() {
        (seen, queue)
    } else if graph.dom().contains(list[position as int]) && !seen.contains(list[position as int]) {
        queued(
            graph,
            seen.insert(list[position as int]),
            queue.push(wrap(list[position as int])),
            list,
            position + 1,
            wrap,
        )
    } else {
        queued(graph, seen, queue, list, position + 1, wrap)
    }
}

/// Meeting keys only adds marks and only lengthens the queue, by one entry
/// for every node that is marked; and nothing changes if no node is marked.
pub proof fn lemma_queued<T>(
    graph: Map<Id, Shape>,
    seen: Set<Id>,
    queue: Seq<T>,
    list: Seq<Id>,
    position: nat,
    wrap: spec_fn(Id) -> T,
)
    requires
        graph.dom().finite(),
    ensures
        ({
            let met = queued(graph, seen, queue, list, position, wrap);
            &&& seen.subset_of(met.0)
            &&& met.0.subset_of(seen.union(graph.dom()))
            &&& met.1.len() >= queue.len()
            &&& met.1.take(queue.len() as int) == queue
            &&& unvisited(graph, met.0) + met.1.len() == unvisited(graph, seen) + queue.len()
            &&& met.1.len() == queue.len() ==> met == (seen, queue)
        }),
    decreases list.len() - position,
{
    if position < list.len() {
        let id = list[position as int];
        if graph.dom().contains(id) && !seen.contains(id) {
            lemma_unvisited_insert(graph, seen, id);
            lemma_queued(graph, seen.insert(id), queue.push(wrap(id)), list, position + 1, wrap);
            let met = queued(graph, seen, queue, list, position, wrap);
            assert(met.1.take(queue.len() as int) =~= met.1.take(queue.len() as int + 1).take(
                queue.len() as int,
            ));
            assert(queue.push(wrap(id)).take(queue.len() as int) =~= queue);
        } else {
            lemma_queued(graph, seen, queue, list, position + 1, wrap);
        }
    } else {
        assert(queue.take(queue.len() as int) =~= queue);
    }
}

/// What a node names is what it depends on, met in another order.
pub proof fn lemma_neighbors(graph: Map<Id, Shape>, from: Id, to: Id)
    ensures
        graph[from].dependencies().contains(to) <==> neighbors(graph[from]).contains(to),
{
    let shape = graph[from];
    let one = shape.dependencies();
    let other = neighbors(shape);
    let links = shape.links.len() as int;
    let markers = 2 * shape.regions.len() as int;
    if one.contains(to) {
        let i = choose|i: int| 0 <= i < one.len() && one[i] == to;
        if i < links {
            assert(other[markers + i] == to);
        } else {
            assert(other[i - links] == to);
        }
    }
    if other.contains(to) {
        let i = choose|i: int| 0 <= i < other.len() && other[i] == to;
        if i < markers {
            assert(one[links + i] == to);
        } else {
            assert(one[i - markers] == to);
        }
    }
}

/// Meeting keys marks the nodes of the graph among them, and no others; the
/// queue is lengthened by the nodes that are newly marked, each once.
pub proof fn lemma_queued_marks(
    graph: Map<Id, Shape>,
    seen: Set<Id>,
    queue: Seq<Id>,
    list: Seq<Id>,
    position: nat,
)
    requires
        graph.dom().finite(),
        queue.no_duplicates(),
        forall|k: int| 0 <= k < queue.len() ==> seen.contains(#[trigger] queue[k]),
    ensures
        ({
            let met = queued(graph, seen, queue, list, position, plain());
            &&& forall|x: Id| #[trigger]
                met.0.contains(x) <==> seen.contains(x) || (graph.dom().contains(x) && exists|
                    j: int,
                |
                    position <= j < list.len() && #[trigger] list[j] == x)
            &&& forall|x: Id| #[trigger]
                met.1.contains(x) <==> queue.contains(x) || (met.0.contains(x) && !seen.contains(x))
            &&& met.1.no_duplicates()
        }),
    decreases list.len() - position,
{
    let met = queued(graph, seen, queue, list, position, plain());
    if position < list.len() {
        let id = list[position as int];
        if graph.dom().contains(id) && !seen.contains(id) {
            let longer = queue.push(id);
            assert(longer.no_duplicates()) by {
                assert forall|a: int, b: int|
                    0 <= a < longer.len() && 0 <= b < longer.len() && a != b implies longer[a]
                    != longer[b] by {
                    if a < queue.len() {
                        assert(seen.contains(queue[a]));
                    }
                    if b < queue.len() {
                        assert(seen.contains(queue[b]));
                    }
                }
            }
            assert forall|k: int| 0 <= k < longer.len() implies seen.insert(id).contains(
                #[trigger] longer[k],
            ) by {
                if k < queue.len() {
                    assert(seen.contains(queue[k]));
                }
            }
            lemma_queued_marks(graph, seen.insert(id), longer, list, position + 1);
            assert forall|x: Id| longer.contains(x) <==> queue.contains(x) || x == id by {
                if longer.contains(x) {
                    let k = choose|k: int| 0 <= k < longer.len() && longer[k] == x;
                    if k < queue.len() {
                        assert(queue[k] == x);
                    }
                }
                if queue.contains(x) {
                    let k = choose|k: int| 0 <= k < queue.len() && queue[k] == x;
                    assert(longer[k] == x);
                }
                assert(longer[queue.len() as int] == id);
            }
            assert forall|x: Id| #[trigger]
                met.0.contains(x) <==> seen.contains(x) || (graph.dom().contains(x) && exists|
                    j: int,
                |
                    position <= j < list.len() && #[trigger] list[j] == x) by {
                if x == id {
                    assert(list[position as int] == x);
                }
                if met.0.contains(x) && !seen.contains(x) && x != id {
                    let j = choose|j: int|
                        position + 1 <= j < list.len() && #[trigger] list[j] == x;
                    assert(position <= j < list.len() && list[j] == x);
                }
                if graph.dom().contains(x) && (exists|j: int|
                    position <= j < list.len() && #[trigger] list[j] == x) && x != id {
                    let j = choose|j: int| position <= j < list.len() && #[trigger] list[j] == x;
                    assert(position + 1 <= j < list.len() && list[j] == x);
                }
            }
            assert forall|x: Id| #[trigger]
                met.1.contains(x) <==> queue.contains(x) || (met.0.contains(x) && !seen.contains(
                    x,
                )) by {
                if queue.contains(x) {
                    let k = choose|k: int| 0 <= k < queue.len() && queue[k] == x;
                    assert(seen.contains(queue[k]));
                }
            }
        } else {
            lemma_queued_marks(graph, seen, queue, list, position + 1);
            assert forall|x: Id| #[trigger]
                met.0.contains(x) <==> seen.contains(x) || (graph.dom().contains(x) && exists|
                    j: int,
                |
                    position <= j < list.len() && #[trigger] list[j] == x) by {
                if graph.dom().contains(x) && !seen.contains(x) && (exists|j: int|
                    position <= j < list.len() && #[trigger] list[j] == x) {
                    let j = choose|j: int| position <= j < list.len() && #[trigger] list[j] == x;
                    assert(j != position);
                    assert(position + 1 <= j < list.len() && list[j] == x);
                }
                if met.0.contains(x) && !seen.contains(x) {
                    let j = choose|j: int|
                        position + 1 <= j < list.len() && #[trigger] list[j] == x;
                    assert(position <= j < list.len() && list[j] == x);
                }
            }
        }
    }
}

/// Meeting keys marks the nodes of the graph among them, and no others; the
/// stack keeps its entries and is lengthened by one entry, not yet opened,
/// for each node that is newly marked.
pub proof fn lemma_queued_pairs(
    graph: Map<Id, Shape>,
    seen: Set<Id>,
    stack: Seq<(Id, bool)>,
    list: Seq<Id>,
    position: nat,
)
    requires
        graph.dom().finite(),
        forall|k: int| 0 <= k < stack.len() ==> seen.contains((#[trigger] stack[k]).0),
        forall|a: int, b: int|
            0 <= a < b < stack.len() ==> (#[trigger] stack[a]).0 != (#[trigger] stack[b]).0,
    ensures
        ({
            let met = queued(graph, seen, stack, list, position, fresh());
            &&& forall|x: Id| #[trigger]
                met.0.contains(x) <==> seen.contains(x) || (graph.dom().contains(x) && exists|
                    j: int,
                |
                    position <= j < list.len() && #[trigger] list[j] == x)
            &&& met.1.len() >= stack.len()
            &&& forall|k: int| 0 <= k < stack.len() ==> #[trigger] met.1[k] == stack[k]
            &&& forall|k: int|
                stack.len() <= k < met.1.len() ==> !(#[trigger] met.1[k]).1 && met.0.contains(
                    met.1[k].0,
                ) && !seen.contains(met.1[k].0) && graph.dom().contains(met.1[k].0)
            &&& forall|x: Id| #[trigger]
                met.0.contains(x) && !seen.contains(x) ==> exists|k: int|
                    stack.len() <= k < met.1.len() && (#[trigger] met.1[k]).0 == x
            &&& forall|a: int, b: int|
                0 <= a < b < met.1.len() ==> (#[trigger] met.1[a]).0 != (#[trigger] met.1[b]).0
        }),
    decreases list.len() - position,
{
    let met = queued(graph, seen, stack, list, position, fresh());
    if position < list.len() {
        let id = list[position as int];
        if graph.dom().contains(id) && !seen.contains(id) {
            let longer = stack.push((id, false));
            assert forall|k: int| 0 <= k < longer.len() implies seen.insert(id).contains(
                (#[trigger] longer[k]).0,
            ) by {
                if k < stack.len() {
                    assert(seen.contains(stack[k].0));
                }
            }
            assert forall|a: int, b: int| 0 <= a < b < longer.len() implies (#[trigger] longer[a]).0
                != (#[trigger] longer[b]).0 by {
                assert(seen.contains(stack[a].0));
                if b < stack.len() {
                    assert(longer[a] == stack[a] && longer[b] == stack[b]);
                }
            }
            lemma_queued_pairs(graph, seen.insert(id), longer, list, position + 1);
            assert forall|x: Id| #[trigger]
                met.0.contains(x) <==> seen.contains(x) || (graph.dom().contains(x) && exists|
                    j: int,
                |
                    position <= j < list.len() && #[trigger] list[j] == x) by {
                if x == id {
                    assert(list[position as int] == x);
                }
                if met.0.contains(x) && !seen.contains(x) && x != id {
                    let j = choose|j: int|
                        position + 1 <= j < list.len() && #[trigger] list[j] == x;
                    assert(position <= j < list.len() && list[j] == x);
                }
                if graph.dom().contains(x) && (exists|j: int|
                    position <= j < list.len() && #[trigger] list[j] == x) && x != id {
                    let j = choose|j: int| position <= j < list.len() && #[trigger] list[j] == x;
                    assert(position + 1 <= j < list.len() && list[j] == x);
                }
            }
            assert forall|k: int| 0 <= k < stack.len() implies #[trigger] met.1[k] == stack[k] by {
                assert(met.1[k] == longer[k]);
            }
            assert forall|k: int| stack.len() <= k < met.1.len() implies !(#[trigger] met.1[k]).1
                && met.0.contains(met.1[k].0) && !seen.contains(met.1[k].0)
                && graph.dom().contains(met.1[k].0) by {
                if k == stack.len() {
                    assert(met.1[k] == longer[k]);
                    assert(met.0.contains(id));
                }
            }
            assert forall|x: Id| #[trigger] met.0.contains(x) && !seen.contains(x) implies exists|
                k: int,
            |
                stack.len() <= k < met.1.len() && (#[trigger] met.1[k]).0 == x by {
                if x == id {
                    assert(met.1[stack.len() as int] == longer[stack.len() as int]);
                    assert(met.1[stack.len() as int].0 == x);
                } else {
                    let k = choose|k: int|
                        longer.len() <= k < met.1.len() && (#[trigger] met.1[k]).0 == x;
                    assert(stack.len() <= k < met.1.len() && met.1[k].0 == x);
                }
            }
        } else {
            lemma_queued_pairs(graph, seen, stack, list, position + 1);
            assert forall|x: Id| #[trigger]
                met.0.contains(x) <==> seen.contains(x) || (graph.dom().contains(x) && exists|
                    j: int,
                |
                    position <= j < list.len() && #[trigger] list[j] == x) by {
                if graph.dom().contains(x) && !seen.contains(x) && (exists|j: int|
                    position <= j < list.len() && #[trigger] list[j] == x) {
                    let j = choose|j: int| position <= j < list.len() && #[trigger] list[j] == x;
                    assert(j != position);
                    assert(position + 1 <= j < list.len() && list[j] == x);
                }
                if met.0.contains(x) && !seen.contains(x) {
                    let j = choose|j: int|
                        position + 1 <= j < list.len() && #[trigger] list[j] == x;
                    assert(position <= j < list.len() && list[j] == x);
                }
            }
        }
    }
}

/// A node of the graph that another names, as a neighbour, can be reached
/// from it.
pub proof fn lemma_step_from(graph: Map<Id, Shape>, from: Id, to: Id)
    requires
        graph.dom().contains(from),
        graph.dom().contains(to),
        neighbors(graph[from]).contains(to),
    ensures
        reachable(graph, seq![from], to),
        depends(graph, from, to),
{
    lemma_neighbors(graph, from, to);
    let path = seq![from, to];
    assert(connects(graph, path));
    assert(seq![from].contains(path[0])) by {
        assert(seq![from][0] == from);
    }
    assert(path.last() == to);
}

} // verus!
