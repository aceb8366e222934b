//! What holds of the order of a traversal in every graph.

use vstd::prelude::*;
use crate::data_flow::link::Id;
use crate::data_flow::invariants::{acyclic, closed, depends, ranked};
use crate::data_flow::node::Shape;
use crate::visit::order::{
    lemma_unvisited_insert,
    lemma_unvisited_subset,
    lemma_walk_grows,
    lemma_walk_step,
    post_order,
    reached,
    unvisited,
    walk,
};

verus! {

/// The basic facts of a walk: what is marked in the end is what was marked
/// before and what was emitted; what is emitted is a node of the graph that
/// was not marked before, and is emitted once; every node of the list is
/// marked in the end, and so is every node that an emitted node depends on.
pub proof fn lemma_walk_facts(graph: Map<Id, Shape>, seen: Set<Id>, list: Seq<Id>, position: nat)
    requires
        graph.dom().finite(),
    ensures
        ({
            let out = walk(graph, seen, list, position).0;
            let marks = walk(graph, seen, list, position).1;
            &&& forall|id: Id| marks.contains(id) <==> seen.contains(id) || out.contains(id)
            &&& forall|k: int|
                0 <= k < out.len() ==> graph.dom().contains(#[trigger] out[k]) && !seen.contains(
                    out[k],
                )
            &&& out.no_duplicates()
            &&& forall|j: int|
                position <= j < list.len() && graph.dom().contains(#[trigger] list[j])
                    ==> marks.contains(list[j])
            &&& forall|id: Id, to: Id| out.contains(id) && depends(graph, id, to) ==> marks.contains(to)
        }),
    decreases unvisited(graph, seen), list.len() - position,
{
    let out = walk(graph, seen, list, position).0;
    let marks = walk(graph, seen, list, position).1;
    if position < list.len() {
        let id = list[position as int];
        lemma_walk_step(graph, seen, list, position);
        if graph.dom().contains(id) && !seen.contains(id) {
            let inner = graph[id].dependencies();
            let below = walk(graph, seen.insert(id), inner, 0);
            let rest = walk(graph, below.1, list, position + 1);
            lemma_unvisited_insert(graph, seen, id);
            lemma_walk_grows(graph, seen.insert(id), inner, 0);
            lemma_unvisited_subset(graph, seen, below.1);
            lemma_walk_facts(graph, seen.insert(id), inner, 0);
            lemma_walk_facts(graph, below.1, list, position + 1);
            lemma_walk_grows(graph, below.1, list, position + 1);
            let first = below.0.push(id);
            assert(out == first + rest.0);
            assert forall|x: Id| out.contains(x) <==> below.0.contains(x) || x == id
                || rest.0.contains(x) by {
                if out.contains(x) {
                    let k = choose|k: int| 0 <= k < out.len() && out[k] == x;
                    if k < below.0.len() {
                        assert(below.0[k] == x);
                    } else if k == below.0.len() {
                    } else {
                        assert(rest.0[k - first.len()] == x);
                    }
                }
                if below.0.contains(x) {
                    let k = choose|k: int| 0 <= k < below.0.len() && below.0[k] == x;
                    assert(out[k] == x);
                }
                if x == id {
                    assert(out[below.0.len() as int] == x);
                }
                if rest.0.contains(x) {
                    let k = choose|k: int| 0 <= k < rest.0.len() && rest.0[k] == x;
                    assert(out[first.len() + k] == x);
                }
            }
            assert forall|k: int| 0 <= k < out.len() implies graph.dom().contains(
                #[trigger] out[k],
            ) && !seen.contains(out[k]) by {
                if k < below.0.len() {
                    assert(out[k] == below.0[k]);
                } else if k == below.0.len() {
                } else {
                    assert(out[k] == rest.0[k - first.len()]);
                }
            }
            assert(out.no_duplicates()) by {
                assert forall|a: int, b: int| 0 <= a < out.len() && 0 <= b < out.len() && a
                    != b implies out[a] != out[b] by {
                    let low = if a < b {
                        a
                    } else {
                        b
                    };
                    let high = if a < b {
                        b
                    } else {
                        a
                    };
                    if high < below.0.len() {
                        assert(out[low] == below.0[low] && out[high] == below.0[high]);
                    } else if high == below.0.len() {
                        assert(out[low] == below.0[low]);
                        assert(!seen.insert(id).contains(below.0[low]));
                    } else {
                        assert(out[high] == rest.0[high - first.len()]);
                        assert(!below.1.contains(rest.0[high - first.len()]));
                        if low < below.0.len() {
                            assert(out[low] == below.0[low]);
                            assert(below.0.contains(below.0[low]));
                        } else if low == below.0.len() {
                            assert(seen.insert(id).contains(id));
                        } else {
                            assert(out[low] == rest.0[low - first.len()]);
                        }
                    }
                }
            }
            assert forall|j: int|
                position <= j < list.len() && graph.dom().contains(
                    #[trigger] list[j],
                ) implies marks.contains(list[j]) by {
                if j == position {
                    assert(seen.insert(id).contains(id));
                }
            }
            assert forall|x: Id, to: Id| out.contains(x) && depends(graph, x, to) implies marks.contains(
                to,
            ) by {
                if below.0.contains(x) {
                    assert(below.1.contains(to));
                } else if x == id {
                    let i = choose|i: int| 0 <= i < inner.len() && inner[i] == to;
                    assert(graph.dom().contains(inner[i]));
                    assert(below.1.contains(to));
                } else {
                    assert(rest.0.contains(x));
                }
            }
        } else {
            lemma_walk_facts(graph, seen, list, position + 1);
            assert forall|j: int|
                position <= j < list.len() && graph.dom().contains(
                    #[trigger] list[j],
                ) implies marks.contains(list[j]) by {
                if j == position {
                    lemma_walk_grows(graph, seen, list, position + 1);
                }
            }
        }
    }
}

/// Whether each node of the path depends on the next one.
pub open spec fn connects(graph: Map<Id, Shape>, path: Seq<Id>) -> bool {
    &&& path.len() > 0
    &&& graph.dom().contains(path[0])
    &&& forall|i: int| 0 <= i < path.len() - 1 ==> depends(graph, #[trigger] path[i], path[i + 1])
}

/// Whether a chain of dependencies leads from one of the roots to the node.
pub open spec fn reachable(graph: Map<Id, Shape>, roots: Seq<Id>, id: Id) -> bool {
    exists|path: Seq<Id>| connects(graph, path) && roots.contains(path[0]) && path.last() == id
}

/// An element of `first.push(middle) + rest` is one of `first`, or `middle`,
/// or one of `rest`.
proof fn lemma_contains_split(first: Seq<Id>, middle: Id, rest: Seq<Id>, id: Id)
    ensures
        (first.push(middle) + rest).contains(id) <==> first.contains(id) || id == middle
            || rest.contains(id),
{
    let all = first.push(middle) + rest;
    if all.contains(id) {
        let k = choose|k: int| 0 <= k < all.len() && all[k] == id;
        if k < first.len() {
            assert(first[k] == id);
        } else if k > first.len() {
            assert(rest[k - first.len() - 1] == id);
        }
    }
    if first.contains(id) {
        let k = choose|k: int| 0 <= k < first.len() && first[k] == id;
        assert(all[k] == id);
    }
    if id == middle {
        assert(all[first.len() as int] == id);
    }
    if rest.contains(id) {
        let k = choose|k: int| 0 <= k < rest.len() && rest[k] == id;
        assert(all[first.len() + 1 + k] == id);
    }
}

/// A walk emits only what a chain of dependencies reaches from its list.
proof fn lemma_walk_reachable(graph: Map<Id, Shape>, seen: Set<Id>, list: Seq<Id>, position: nat)
    requires
        graph.dom().finite(),
    ensures
        forall|id: Id| #[trigger]
            walk(graph, seen, list, position).0.contains(id) ==> reachable(graph, list, id),
    decreases unvisited(graph, seen), list.len() - position,
{
    let out = walk(graph, seen, list, position).0;
    if position < list.len() {
        let id = list[position as int];
        lemma_walk_step(graph, seen, list, position);
        if graph.dom().contains(id) && !seen.contains(id) {
            let inner = graph[id].dependencies();
            let below = walk(graph, seen.insert(id), inner, 0);
            let rest = walk(graph, below.1, list, position + 1);
            lemma_unvisited_insert(graph, seen, id);
            lemma_walk_grows(graph, seen.insert(id), inner, 0);
            lemma_unvisited_subset(graph, seen, below.1);
            lemma_walk_reachable(graph, seen.insert(id), inner, 0);
            lemma_walk_reachable(graph, below.1, list, position + 1);
            assert forall|x: Id| #[trigger] out.contains(x) implies reachable(graph, list, x) by {
                lemma_contains_split(below.0, id, rest.0, x);
                if below.0.contains(x) {
                    assert(reachable(graph, inner, x));
                    let path = choose|path: Seq<Id>|
                        connects(graph, path) && inner.contains(path[0]) && path.last() == x;
                    let longer = seq![id] + path;
                    assert(connects(graph, longer)) by {
                        assert forall|i: int| 0 <= i < longer.len() - 1 implies depends(
                            graph,
                            #[trigger] longer[i],
                            longer[i + 1],
                        ) by {
                            if i > 0 {
                                assert(longer[i] == path[i - 1]);
                                assert(longer[i + 1] == path[i]);
                            }
                        }
                    }
                    assert(longer.last() == x);
                    assert(list.contains(longer[0]));
                } else if x == id {
                    let path = seq![id];
                    assert(connects(graph, path));
                    assert(list.contains(path[0]));
                    assert(path.last() == x);
                }
            }
        } else {
            lemma_walk_reachable(graph, seen, list, position + 1);
        }
    }
}

/// Every node on a chain of dependencies that starts at a marked root is
/// marked.
proof fn lemma_path_marked(graph: Map<Id, Shape>, roots: Seq<Id>, path: Seq<Id>, upto: int)
    requires
        graph.dom().finite(),
        connects(graph, path),
        roots.contains(path[0]),
        0 <= upto < path.len(),
    ensures
        post_order(graph, roots).contains(path[upto]),
    decreases upto,
{
    lemma_walk_facts(graph, Set::empty(), roots, 0);
    if upto == 0 {
        let j = choose|j: int| 0 <= j < roots.len() && roots[j] == path[0];
        assert(graph.dom().contains(roots[j]));
    } else {
        lemma_path_marked(graph, roots, path, upto - 1);
        assert(depends(graph, path[upto - 1], path[upto]));
    }
}

/// A traversal emits the nodes that a chain of dependencies reaches from one
/// of the roots, and no others.
pub proof fn lemma_emits_reachable(graph: Map<Id, Shape>, roots: Seq<Id>, id: Id)
    requires
        graph.dom().finite(),
    ensures
        post_order(graph, roots).contains(id) <==> reachable(graph, roots, id),
{
    lemma_walk_reachable(graph, Set::empty(), roots, 0);
    if reachable(graph, roots, id) {
        let path = choose|path: Seq<Id>|
            connects(graph, path) && roots.contains(path[0]) && path.last() == id;
        lemma_path_marked(graph, roots, path, path.len() - 1);
    }
}

/// A traversal emits each node once, and marks the nodes it emits.
pub proof fn lemma_emits_once(graph: Map<Id, Shape>, roots: Seq<Id>)
    requires
        graph.dom().finite(),
    ensures
        post_order(graph, roots).no_duplicates(),
        forall|id: Id| reached(graph, roots).contains(id) <==> post_order(graph, roots).contains(id),
        forall|id: Id| reached(graph, roots).contains(id) ==> graph.dom().contains(id),
{
    lemma_walk_facts(graph, Set::empty(), roots, 0);
    let out = post_order(graph, roots);
    assert forall|id: Id| reached(graph, roots).contains(id) implies graph.dom().contains(id) by {
        let k = choose|k: int| 0 <= k < out.len() && out[k] == id;
    }
}

/// Whether the node is in `done` or among the first `upto` of `out`.
pub open spec fn before(done: Set<Id>, out: Seq<Id>, upto: int, id: Id) -> bool {
    done.contains(id) || exists|i: int| 0 <= i < upto && i < out.len() && out[i] == id
}

/// In a ranked graph, a walk that began with `seen` marked, of which all but
/// `done` are nodes whose visit is under way, emits only nodes that rank
/// below those, and emits a node only when what it depends on is done or
/// emitted.
proof fn lemma_walk_order(
    graph: Map<Id, Shape>,
    rank: spec_fn(Id) -> nat,
    seen: Set<Id>,
    done: Set<Id>,
    list: Seq<Id>,
    position: nat,
)
    requires
        graph.dom().finite(),
        ranked(graph, rank),
        done.subset_of(seen),
        forall|open: Id, j: int|
            #![trigger seen.contains(open), list[j]]
            seen.contains(open) && !done.contains(open) && position <= j < list.len()
                && graph.dom().contains(list[j]) ==> rank(list[j]) < rank(open),
    ensures
        ({
            let out = walk(graph, seen, list, position).0;
            &&& forall|id: Id, open: Id|
                out.contains(id) && seen.contains(open) && !done.contains(open) ==> rank(id)
                    < rank(open)
            &&& forall|k: int, to: Id|
                0 <= k < out.len() && #[trigger] depends(graph, out[k], to) ==> before(
                    done,
                    out,
                    k,
                    to,
                )
        }),
    decreases unvisited(graph, seen), list.len() - position,
{
    let out = walk(graph, seen, list, position).0;
    if position < list.len() {
        let id = list[position as int];
        lemma_walk_step(graph, seen, list, position);
        if graph.dom().contains(id) && !seen.contains(id) {
            let inner = graph[id].dependencies();
            let below = walk(graph, seen.insert(id), inner, 0);
            let rest = walk(graph, below.1, list, position + 1);
            let first = below.0.push(id);
            let settled = Set::new(|x: Id| done.contains(x) || first.contains(x));
            lemma_unvisited_insert(graph, seen, id);
            lemma_walk_grows(graph, seen.insert(id), inner, 0);
            lemma_unvisited_subset(graph, seen, below.1);
            lemma_walk_facts(graph, seen.insert(id), inner, 0);
            assert forall|open: Id, j: int|
                #![trigger seen.insert(id).contains(open), inner[j]]
                seen.insert(id).contains(open) && !done.contains(open) && 0 <= j < inner.len()
                    && graph.dom().contains(inner[j]) implies rank(inner[j]) < rank(open) by {
                assert(depends(graph, id, inner[j]));
                if open != id {
                    assert(rank(list[position as int]) < rank(open));
                }
            }
            lemma_walk_order(graph, rank, seen.insert(id), done, inner, 0);
            assert forall|x: Id| first.contains(x) <==> below.0.contains(x) || x == id by {
                lemma_contains_split(below.0, id, Seq::empty(), x);
                assert(first + Seq::<Id>::empty() =~= first);
            }
            assert(settled.subset_of(below.1));
            assert forall|open: Id| below.1.contains(open) && !settled.contains(open) implies seen.contains(
                open,
            ) && !done.contains(open) by {}
            lemma_walk_order(graph, rank, below.1, settled, list, position + 1);
            assert(out == first + rest.0);
            assert forall|x: Id, open: Id|
                out.contains(x) && seen.contains(open) && !done.contains(open) implies rank(x)
                < rank(open) by {
                lemma_contains_split(below.0, id, rest.0, x);
                if below.0.contains(x) {
                } else if x == id {
                    assert(rank(list[position as int]) < rank(open));
                } else {
                    assert(below.1.contains(open));
                    if first.contains(open) {
                        let k = choose|k: int| 0 <= k < below.0.len() && below.0[k] == open;
                    }
                    assert(!settled.contains(open));
                }
            }
            assert forall|k: int, to: Id|
                0 <= k < out.len() && #[trigger] depends(graph, out[k], to) implies before(
                done,
                out,
                k,
                to,
            ) by {
                if k < below.0.len() {
                    assert(out[k] == below.0[k]);
                    assert(before(done, below.0, k, to));
                    if !done.contains(to) {
                        let i = choose|i: int| 0 <= i < k && i < below.0.len() && below.0[i] == to;
                        assert(out[i] == to);
                    }
                } else if k == below.0.len() {
                    assert(out[k] == id);
                    let i = choose|i: int| 0 <= i < inner.len() && inner[i] == to;
                    assert(graph.dom().contains(inner[i]));
                    assert(below.1.contains(to));
                    assert(rank(to) < rank(id));
                    if seen.contains(to) {
                        if !done.contains(to) {
                            assert(rank(list[position as int]) < rank(to));
                        }
                    } else {
                        assert(below.0.contains(to));
                        let j = choose|j: int| 0 <= j < below.0.len() && below.0[j] == to;
                        assert(out[j] == to);
                    }
                } else {
                    let shifted = k - first.len();
                    assert(out[k] == rest.0[shifted]);
                    assert(before(settled, rest.0, shifted, to));
                    if settled.contains(to) {
                        if !done.contains(to) {
                            let j = choose|j: int| 0 <= j < first.len() && first[j] == to;
                            assert(out[j] == to);
                        }
                    } else {
                        let i = choose|i: int|
                            0 <= i < shifted && i < rest.0.len() && rest.0[i] == to;
                        assert(out[first.len() + i] == to);
                    }
                }
            }
        } else {
            lemma_walk_order(graph, rank, seen, done, list, position + 1);
        }
    }
}

/// In a graph without cycles, a traversal emits a node only after every node
/// it depends on: the producers of its links and the markers of its regions.
pub proof fn lemma_dependencies_first(graph: Map<Id, Shape>, roots: Seq<Id>, k: int, to: Id)
    requires
        graph.dom().finite(),
        acyclic(graph),
        0 <= k < post_order(graph, roots).len(),
        depends(graph, post_order(graph, roots)[k], to),
    ensures
        exists|j: int| 0 <= j < k && post_order(graph, roots)[j] == to,
{
    let rank = choose|rank: spec_fn(Id) -> nat| ranked(graph, rank);
    lemma_walk_order(graph, rank, Set::empty(), Set::empty(), roots, 0);
    let out = post_order(graph, roots);
    assert(before(Set::empty(), out, k, to));
}

/// In a graph without cycles, a traversal emits a node only after every
/// other node that a chain of dependencies reaches from it: a compound comes
/// after everything in its regions.
pub proof fn lemma_reachable_first(graph: Map<Id, Shape>, roots: Seq<Id>, k: int, path: Seq<Id>)
    requires
        graph.dom().finite(),
        acyclic(graph),
        0 <= k < post_order(graph, roots).len(),
        connects(graph, path),
        path.len() >= 2,
        path[0] == post_order(graph, roots)[k],
    ensures
        exists|j: int| 0 <= j < k && post_order(graph, roots)[j] == path.last(),
    decreases path.len(),
{
    let out = post_order(graph, roots);
    assert(depends(graph, path[0], path[1]));
    lemma_dependencies_first(graph, roots, k, path[1]);
    let next = choose|j: int| 0 <= j < k && out[j] == path[1];
    if path.len() > 2 {
        let shorter = path.subrange(1, path.len() as int);
        assert(connects(graph, shorter)) by {
            assert forall|i: int| 0 <= i < shorter.len() - 1 implies depends(
                graph,
                #[trigger] shorter[i],
                shorter[i + 1],
            ) by {
                assert(depends(graph, path[i + 1], path[i + 2]));
            }
        }
        lemma_reachable_first(graph, roots, next, shorter);
    }
}

/// Whether the nodes of the graph among `list[from..upto]` are in `done` or
/// among the first `count` of `out`.
pub open spec fn all_before(
    graph: Map<Id, Shape>,
    done: Set<Id>,
    out: Seq<Id>,
    count: int,
    list: Seq<Id>,
    from: int,
    upto: int,
) -> bool {
    forall|j: int|
        from <= j < upto && j < list.len() && graph.dom().contains(#[trigger] list[j]) ==> before(
            done,
            out,
            count,
            list[j],
        )
}

/// Whether `out[k]` was entered as an element of `list`, at or after
/// `position`, when the elements from `position` up to it were done.
pub open spec fn entered_from_list(
    graph: Map<Id, Shape>,
    done: Set<Id>,
    out: Seq<Id>,
    k: int,
    list: Seq<Id>,
    position: int,
) -> bool {
    exists|j: int|
        position <= j < list.len() && #[trigger] list[j] == out[k] && all_before(
            graph,
            done,
            out,
            k,
            list,
            position,
            j,
        )
}

/// Whether `out[k]` was entered as a dependency of a node that is emitted
/// later, when the dependencies of that node that come before it were done.
pub open spec fn entered_from_node(graph: Map<Id, Shape>, done: Set<Id>, out: Seq<Id>, k: int) -> bool {
    exists|m: int, p: int|
        #![trigger graph[out[m]].dependencies()[p]]
        k < m < out.len() && 0 <= p < graph[out[m]].dependencies().len()
            && graph[out[m]].dependencies()[p] == out[k] && all_before(
            graph,
            done,
            out,
            k,
            graph[out[m]].dependencies(),
            0,
            p,
        )
}

/// What holds of the first part of a sequence holds of the whole.
proof fn lemma_before_longer(done: Set<Id>, first: Seq<Id>, rest: Seq<Id>, count: int, id: Id)
    requires
        before(done, first, count, id),
    ensures
        before(done, first + rest, count, id),
{
    if !done.contains(id) {
        let i = choose|i: int| 0 <= i < count && i < first.len() && first[i] == id;
        assert((first + rest)[i] == id);
    }
}

/// What is done once `first` is emitted is done after `first` in the whole.
proof fn lemma_before_shifted(
    done: Set<Id>,
    settled: Set<Id>,
    first: Seq<Id>,
    rest: Seq<Id>,
    count: int,
    id: Id,
)
    requires
        forall|x: Id| settled.contains(x) <==> done.contains(x) || first.contains(x),
        before(settled, rest, count, id),
        0 <= count,
    ensures
        before(done, first + rest, first.len() + count, id),
{
    if settled.contains(id) {
        if !done.contains(id) {
            let i = choose|i: int| 0 <= i < first.len() && first[i] == id;
            assert((first + rest)[i] == id);
        }
    } else {
        let i = choose|i: int| 0 <= i < count && i < rest.len() && rest[i] == id;
        assert((first + rest)[first.len() + i] == id);
    }
}

/// In a ranked graph, every node that a walk emits was entered either from
/// the list of the walk or from a node that the walk emits later, and in
/// both cases after everything that stands before it there.
proof fn lemma_walk_cause(
    graph: Map<Id, Shape>,
    rank: spec_fn(Id) -> nat,
    seen: Set<Id>,
    done: Set<Id>,
    list: Seq<Id>,
    position: nat,
)
    requires
        graph.dom().finite(),
        ranked(graph, rank),
        done.subset_of(seen),
        forall|open: Id, j: int|
            #![trigger seen.contains(open), list[j]]
            seen.contains(open) && !done.contains(open) && position <= j < list.len()
                && graph.dom().contains(list[j]) ==> rank(list[j]) < rank(open),
    ensures
        ({
            let out = walk(graph, seen, list, position).0;
            forall|k: int|
                0 <= k < out.len() ==> entered_from_list(
                    graph,
                    done,
                    out,
                    k,
                    list,
                    position as int,
                ) || #[trigger] entered_from_node(graph, done, out, k)
        }),
    decreases unvisited(graph, seen), list.len() - position,
{
    let out = walk(graph, seen, list, position).0;
    if position < list.len() {
        let id = list[position as int];
        lemma_walk_step(graph, seen, list, position);
        if graph.dom().contains(id) && !seen.contains(id) {
            let inner = graph[id].dependencies();
            let below = walk(graph, seen.insert(id), inner, 0);
            let rest = walk(graph, below.1, list, position + 1);
            let first = below.0.push(id);
            let settled = Set::new(|x: Id| done.contains(x) || first.contains(x));
            lemma_unvisited_insert(graph, seen, id);
            lemma_walk_grows(graph, seen.insert(id), inner, 0);
            lemma_unvisited_subset(graph, seen, below.1);
            lemma_walk_facts(graph, seen.insert(id), inner, 0);
            assert forall|open: Id, j: int|
                #![trigger seen.insert(id).contains(open), inner[j]]
                seen.insert(id).contains(open) && !done.contains(open) && 0 <= j < inner.len()
                    && graph.dom().contains(inner[j]) implies rank(inner[j]) < rank(open) by {
                assert(depends(graph, id, inner[j]));
                if open != id {
                    assert(rank(list[position as int]) < rank(open));
                }
            }
            lemma_walk_cause(graph, rank, seen.insert(id), done, inner, 0);
            assert forall|x: Id| first.contains(x) <==> below.0.contains(x) || x == id by {
                lemma_contains_split(below.0, id, Seq::empty(), x);
                assert(first + Seq::<Id>::empty() =~= first);
            }
            assert(settled.subset_of(below.1));
            lemma_walk_cause(graph, rank, below.1, settled, list, position + 1);
            assert(out == first + rest.0);
            assert(first + rest.0 =~= below.0 + (seq![id] + rest.0));
            assert forall|k: int| 0 <= k < out.len() implies entered_from_list(
                graph,
                done,
                out,
                k,
                list,
                position as int,
            ) || #[trigger] entered_from_node(graph, done, out, k) by {
                if k < below.0.len() {
                    assert(out[k] == below.0[k]);
                    if entered_from_list(graph, done, below.0, k, inner, 0) {
                        let j = choose|j: int|
                            0 <= j < inner.len() && #[trigger] inner[j] == below.0[k] && all_before(
                                graph,
                                done,
                                below.0,
                                k,
                                inner,
                                0,
                                j,
                            );
                        let m = below.0.len() as int;
                        assert(out[m] == id);
                        assert forall|i: int|
                            0 <= i < j && i < inner.len() && graph.dom().contains(
                                #[trigger] inner[i],
                            ) implies before(done, out, k, inner[i]) by {
                            lemma_before_longer(done, below.0, seq![id] + rest.0, k, inner[i]);
                        }
                        assert(graph[out[m]].dependencies()[j] == out[k]);
                        assert(entered_from_node(graph, done, out, k));
                    } else {
                        assert(entered_from_node(graph, done, below.0, k));
                        let (m, p) = choose|m: int, p: int|
                            #![trigger graph[below.0[m]].dependencies()[p]]
                            k < m < below.0.len() && 0 <= p < graph[below.0[m]].dependencies().len()
                                && graph[below.0[m]].dependencies()[p] == below.0[k] && all_before(
                                graph,
                                done,
                                below.0,
                                k,
                                graph[below.0[m]].dependencies(),
                                0,
                                p,
                            );
                        let from = graph[below.0[m]].dependencies();
                        assert(out[m] == below.0[m]);
                        assert forall|i: int|
                            0 <= i < p && i < from.len() && graph.dom().contains(
                                #[trigger] from[i],
                            ) implies before(done, out, k, from[i]) by {
                            lemma_before_longer(done, below.0, seq![id] + rest.0, k, from[i]);
                        }
                        assert(graph[out[m]].dependencies()[p] == out[k]);
                        assert(entered_from_node(graph, done, out, k));
                    }
                } else if k == below.0.len() {
                    assert(out[k] == id);
                    assert(list[position as int] == out[k]);
                    assert(entered_from_list(graph, done, out, k, list, position as int));
                } else {
                    let shifted = k - first.len();
                    assert(out[k] == rest.0[shifted]);
                    if entered_from_list(graph, settled, rest.0, shifted, list, position as int + 1) {
                        let j = choose|j: int|
                            position + 1 <= j < list.len() && #[trigger] list[j] == rest.0[shifted]
                                && all_before(
                                graph,
                                settled,
                                rest.0,
                                shifted,
                                list,
                                position as int + 1,
                                j,
                            );
                        assert forall|i: int|
                            position <= i < j && i < list.len() && graph.dom().contains(
                                #[trigger] list[i],
                            ) implies before(done, out, k, list[i]) by {
                            if i == position {
                                assert(out[below.0.len() as int] == id);
                            } else {
                                lemma_before_shifted(done, settled, first, rest.0, shifted, list[i]);
                            }
                        }
                        assert(entered_from_list(graph, done, out, k, list, position as int));
                    } else {
                        assert(entered_from_node(graph, settled, rest.0, shifted));
                        let (m, p) = choose|m: int, p: int|
                            #![trigger graph[rest.0[m]].dependencies()[p]]
                            shifted < m < rest.0.len() && 0 <= p < graph[rest.0[m]].dependencies().len()
                                && graph[rest.0[m]].dependencies()[p] == rest.0[shifted]
                                && all_before(
                                graph,
                                settled,
                                rest.0,
                                shifted,
                                graph[rest.0[m]].dependencies(),
                                0,
                                p,
                            );
                        let from = graph[rest.0[m]].dependencies();
                        let above = first.len() + m;
                        assert(out[above] == rest.0[m]);
                        assert forall|i: int|
                            0 <= i < p && i < from.len() && graph.dom().contains(
                                #[trigger] from[i],
                            ) implies before(done, out, k, from[i]) by {
                            lemma_before_shifted(done, settled, first, rest.0, shifted, from[i]);
                        }
                        assert(graph[out[above]].dependencies()[p] == out[k]);
                        assert(entered_from_node(graph, done, out, k));
                    }
                }
            }
        } else {
            lemma_walk_cause(graph, rank, seen, done, list, position + 1);
            let rest = walk(graph, seen, list, position + 1);
            assert forall|k: int| 0 <= k < out.len() implies entered_from_list(
                graph,
                done,
                out,
                k,
                list,
                position as int,
            ) || #[trigger] entered_from_node(graph, done, out, k) by {
                if entered_from_list(graph, done, out, k, list, position as int + 1) {
                    let j = choose|j: int|
                        position + 1 <= j < list.len() && #[trigger] list[j] == out[k] && all_before(
                            graph,
                            done,
                            out,
                            k,
                            list,
                            position as int + 1,
                            j,
                        );
                    assert forall|i: int|
                        position <= i < j && i < list.len() && graph.dom().contains(
                            #[trigger] list[i],
                        ) implies before(done, out, k, list[i]) by {
                        if i == position {
                            if !done.contains(id) {
                                assert(seen.contains(id));
                                assert(rank(list[position as int]) < rank(id));
                            }
                        }
                    }
                    assert(entered_from_list(graph, done, out, k, list, position as int));
                }
            }
        }
    }
}

/// Whether the end marker of region `index` of the node `owner` is named by
/// nothing in the graph but that region: no link reads from it, and no
/// other region, of this or another node, ends in it.
pub open spec fn end_owned(graph: Map<Id, Shape>, owner: Id, index: int) -> bool {
    forall|id: Id, p: int|
        #![trigger graph[id].dependencies()[p]]
        graph.dom().contains(id) && 0 <= p < graph[id].dependencies().len()
            && graph[id].dependencies()[p] == graph[owner].regions[index].end ==> id == owner && p
            == graph[owner].links.len() + 2 * index + 1
}

/// In a graph without cycles, a traversal emits the start marker of a
/// region before its end marker, and both before the compound that owns the
/// region, provided that the end marker is not itself a root and is named by
/// nothing but the region.
pub proof fn lemma_region_order(graph: Map<Id, Shape>, roots: Seq<Id>, k: int, index: int)
    requires
        graph.dom().finite(),
        acyclic(graph),
        0 <= k < post_order(graph, roots).len(),
        0 <= index < graph[post_order(graph, roots)[k]].regions.len(),
        graph.dom().contains(graph[post_order(graph, roots)[k]].regions[index].start),
        graph.dom().contains(graph[post_order(graph, roots)[k]].regions[index].end),
        !roots.contains(graph[post_order(graph, roots)[k]].regions[index].end),
        end_owned(graph, post_order(graph, roots)[k], index),
    ensures
        exists|s: int, e: int|
            0 <= s < e < k && post_order(graph, roots)[s] == graph[post_order(
                graph,
                roots,
            )[k]].regions[index].start && post_order(graph, roots)[e] == graph[post_order(
                graph,
                roots,
            )[k]].regions[index].end,
{
    let out = post_order(graph, roots);
    let owner = out[k];
    let region = graph[owner].regions[index];
    let list = graph[owner].dependencies();
    let at = graph[owner].links.len() + 2 * index;
    lemma_walk_facts(graph, Set::empty(), roots, 0);
    assert(list[at] == region.start);
    assert(list[at + 1] == region.end);
    assert(depends(graph, owner, region.end));
    lemma_dependencies_first(graph, roots, k, region.end);
    let e = choose|e: int| 0 <= e < k && out[e] == region.end;
    let rank = choose|rank: spec_fn(Id) -> nat| ranked(graph, rank);
    lemma_walk_cause(graph, rank, Set::empty(), Set::empty(), roots, 0);
    assert(entered_from_list(graph, Set::empty(), out, e, roots, 0) || entered_from_node(
        graph,
        Set::empty(),
        out,
        e,
    ));
    if entered_from_list(graph, Set::empty(), out, e, roots, 0) {
        let j = choose|j: int| 0 <= j < roots.len() && #[trigger] roots[j] == out[e];
        assert(roots.contains(region.end));
    }
    let (m, p) = choose|m: int, p: int|
        #![trigger graph[out[m]].dependencies()[p]]
        e < m < out.len() && 0 <= p < graph[out[m]].dependencies().len()
            && graph[out[m]].dependencies()[p] == out[e] && all_before(
            graph,
            Set::empty(),
            out,
            e,
            graph[out[m]].dependencies(),
            0,
            p,
        );
    assert(graph.dom().contains(out[m]));
    assert(out[m] == owner && p == at + 1);
    assert(graph.dom().contains(list[at]));
    assert(before(Set::empty(), out, e, list[at]));
    let s = choose|s: int| 0 <= s < e && s < out.len() && out[s] == region.start;
    assert(0 <= s < e < k && out[s] == region.start && out[e] == region.end);
}

/// A walk that marks nothing outside `keep` goes the same way in the graph
/// that holds only the nodes of `keep`.
pub proof fn lemma_walk_restrict(
    graph: Map<Id, Shape>,
    keep: Set<Id>,
    seen: Set<Id>,
    list: Seq<Id>,
    position: nat,
)
    requires
        graph.dom().finite(),
        walk(graph, seen, list, position).1.subset_of(seen.union(keep)),
    ensures
        graph.restrict(keep).dom().finite(),
        walk(graph.restrict(keep), seen, list, position) == walk(graph, seen, list, position),
    decreases unvisited(graph, seen), list.len() - position,
{
    let sub = graph.restrict(keep);
    vstd::set_lib::lemma_len_subset(sub.dom(), graph.dom());
    if position < list.len() {
        let id = list[position as int];
        lemma_walk_step(graph, seen, list, position);
        lemma_walk_step(sub, seen, list, position);
        lemma_walk_facts(graph, seen, list, position);
        if graph.dom().contains(id) && !seen.contains(id) {
            let inner = graph[id].dependencies();
            let below = walk(graph, seen.insert(id), inner, 0);
            lemma_unvisited_insert(graph, seen, id);
            lemma_walk_grows(graph, seen.insert(id), inner, 0);
            lemma_unvisited_subset(graph, seen, below.1);
            lemma_walk_grows(graph, below.1, list, position + 1);
            assert(sub.dom().contains(id));
            lemma_walk_restrict(graph, keep, seen.insert(id), inner, 0);
            lemma_walk_restrict(graph, keep, below.1, list, position + 1);
        } else {
            lemma_walk_restrict(graph, keep, seen, list, position + 1);
        }
    }
}

/// The graph that is left when only the nodes that a traversal from `roots`
/// marks are kept.
pub open spec fn swept(graph: Map<Id, Shape>, roots: Seq<Id>) -> Map<Id, Shape> {
    graph.restrict(reached(graph, roots))
}

/// Sweeping is idempotent: in the graph that a sweep leaves, a traversal
/// from the same roots emits the same nodes in the same order, and a second
/// sweep removes nothing.
pub proof fn lemma_sweep_twice(graph: Map<Id, Shape>, roots: Seq<Id>)
    requires
        graph.dom().finite(),
    ensures
        post_order(swept(graph, roots), roots) == post_order(graph, roots),
        reached(swept(graph, roots), roots) == reached(graph, roots),
        swept(swept(graph, roots), roots) == swept(graph, roots),
        swept(graph, roots).dom() == reached(graph, roots),
{
    lemma_walk_restrict(graph, reached(graph, roots), Set::empty(), roots, 0);
    lemma_emits_once(graph, roots);
    assert(swept(swept(graph, roots), roots) =~= swept(graph, roots));
    assert(swept(graph, roots).dom() =~= reached(graph, roots));
}

/// A sweep keeps, with every node, the nodes it depends on: if no link was
/// dangling before the sweep, none is after it. And a sweep makes no cycle.
pub proof fn lemma_sweep_sound(graph: Map<Id, Shape>, roots: Seq<Id>)
    requires
        graph.dom().finite(),
    ensures
        closed(graph) ==> closed(swept(graph, roots)),
        acyclic(graph) ==> acyclic(swept(graph, roots)),
{
    let sub = swept(graph, roots);
    lemma_walk_facts(graph, Set::empty(), roots, 0);
    if closed(graph) {
        assert forall|id: Id, i: int|
            sub.dom().contains(id) && 0 <= i < sub[id].dependencies().len() implies sub.dom().contains(
            #[trigger] sub[id].dependencies()[i],
        ) by {
            let to = graph[id].dependencies()[i];
            assert(graph.dom().contains(to));
            assert(depends(graph, id, to));
        }
    }
    if acyclic(graph) {
        let rank = choose|rank: spec_fn(Id) -> nat| ranked(graph, rank);
        assert forall|from: Id, to: Id| depends(sub, from, to) implies rank(to) < rank(from) by {
            assert(depends(graph, from, to));
        }
        assert(ranked(sub, rank));
    }
}

/// What a node that can be reached depends on can be reached.
pub proof fn lemma_reachable_step(graph: Map<Id, Shape>, roots: Seq<Id>, from: Id, to: Id)
    requires
        reachable(graph, roots, from),
        depends(graph, from, to),
    ensures
        reachable(graph, roots, to),
{
    let path = choose|path: Seq<Id>|
        connects(graph, path) && roots.contains(path[0]) && path.last() == from;
    let longer = path.push(to);
    assert(connects(graph, longer)) by {
        assert forall|i: int| 0 <= i < longer.len() - 1 implies depends(
            graph,
            #[trigger] longer[i],
            longer[i + 1],
        ) by {
            if i < path.len() - 1 {
                assert(depends(graph, path[i], path[i + 1]));
            }
        }
    }
    assert(longer[0] == path[0]);
    assert(longer.last() == to);
}

/// What a chain of dependencies reaches from a node that can be reached can
/// be reached.
pub proof fn lemma_reachable_along(graph: Map<Id, Shape>, roots: Seq<Id>, path: Seq<Id>, upto: int)
    requires
        connects(graph, path),
        reachable(graph, roots, path[0]),
        0 <= upto < path.len(),
    ensures
        reachable(graph, roots, path[upto]),
    decreases upto,
{
    if upto > 0 {
        lemma_reachable_along(graph, roots, path, upto - 1);
        assert(depends(graph, path[upto - 1], path[upto]));
        lemma_reachable_step(graph, roots, path[upto - 1], path[upto]);
    }
}

} // verus!
