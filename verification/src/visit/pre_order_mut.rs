//! The traversal that emits a node when it comes back to it, after it has
//! met what the node names.

use vstd::prelude::*;
use crate::data_flow::link::{Id, Region};
use crate::data_flow::node::{Node, Parameters, Shape};
use crate::data_flow::nodes::{bound, distinct_indices, is_bound, Nodes};
use crate::data_flow::invariants::depends;
use crate::visit::frontier::{
    fresh,
    lemma_neighbors,
    lemma_queued,
    lemma_queued_pairs,
    lemma_step_from,
    neighbors,
    queued,
};
use crate::visit::laws::{
    connects,
    lemma_emits_once,
    lemma_emits_reachable,
    lemma_reachable_along,
    reachable,
};
use crate::visit::order::reached;
use crate::visit::order::unvisited;
use crate::visit::reverse_topological::{flags_within, lemma_flags_mark, marked};

verus! {

/// The number of entries of the stack that are not yet opened.
pub open spec fn waiting(stack: Seq<(Id, bool)>) -> nat
    decreases stack.len(),
{
    if stack.len() == 0 {
        0
    } else if stack.last().1 {
        waiting(stack.drop_last())
    } else {
        waiting(stack.drop_last()) + 1
    }
}

/// Works the stack off from its end: an entry that is not yet opened is
/// opened, and the nodes that its node names are met; an entry that is
/// opened is taken off, and its node is emitted. Returns the nodes emitted,
/// in order, and the marks in the end.
pub open spec fn climbed(graph: Map<Id, Shape>, seen: Set<Id>, stack: Seq<(Id, bool)>) -> (
    Seq<Id>,
    Set<Id>,
)
    decreases unvisited(graph, seen), waiting(stack), stack.len(),
    when graph.dom().finite()
{
    if stack.len() == 0 {
        (Seq::empty(), seen)
    } else if stack.last().1 {
        let rest = climbed(graph, seen, stack.drop_last());
        (seq![stack.last().0] + rest.0, rest.1)
    } else {
        let id = stack.last().0;
        let opened = stack.drop_last().push((id, true));
        let met = queued(graph, seen, opened, neighbors(graph[id]), 0, fresh());
        proof {
            lemma_queued(graph, seen, opened, neighbors(graph[id]), 0, fresh());
            assert(opened.drop_last() =~= stack.drop_last());
        }
        climbed(graph, met.0, met.1)
    }
}

/// The nodes that the traversal emits from `roots`, in order, and the nodes
/// it marks: the roots are met, and the stack is worked off.
pub open spec fn visited(graph: Map<Id, Shape>, roots: Seq<Id>) -> (Seq<Id>, Set<Id>) {
    let met = queued(graph, Set::empty(), Seq::empty(), roots, 0, fresh());
    climbed(graph, met.0, met.1)
}

/// A traversal of the graph from the leaves towards the roots: a node is
/// marked when it is first met, opened when its turn comes, the node met
/// last first, and emitted when the traversal comes back to it.
pub struct PreOrderMut {
    seen: Vec<bool>,
    queue: Vec<(Id, bool)>,
}

impl View for PreOrderMut {
    type V = Seq<bool>;

    /// The marks of the traversal by node index.
    closed spec fn view(&self) -> Seq<bool> {
        self.seen@
    }
}

impl Default for PreOrderMut {
    /// Creates a new, reusable [`PreOrderMut`] instance.
    fn default() -> (traversal: Self)
        ensures
            traversal@ == Seq::<bool>::empty(),
    {
        Self::new()
    }
}

impl PreOrderMut {
    /// Whether the marks fit the graph and the queue holds nodes of it.
    spec fn fits(&self, graph: Map<Id, Shape>) -> bool {
        &&& graph.dom().finite()
        &&& distinct_indices(graph.dom())
        &&& is_bound(graph.dom(), self.seen@.len())
        &&& flags_within(self.seen@, graph.dom())
        &&& forall|k: int|
            0 <= k < self.queue@.len() ==> graph.dom().contains((#[trigger] self.queue@[k]).0)
    }

    /// Creates a new, reusable [`PreOrderMut`] instance.
    pub fn new() -> (traversal: Self)
        ensures
            traversal@ == Seq::<bool>::empty(),
    {
        Self { seen: Vec::new(), queue: Vec::new() }
    }

    /// Returns the nodes that have been seen: by node index, whether the
    /// node was met.
    pub fn seen(&self) -> (seen: &[bool])
        ensures
            seen@ == self@,
    {
        self.seen.as_slice()
    }

    /// Marks the node and puts it on the queue, unless the key names no
    /// node or the node is marked already.
    fn add_guarded<N: Parameters>(
        &mut self,
        nodes: &Nodes<N>,
        id: Id,
        Ghost(list): Ghost<Seq<Id>>,
        Ghost(position): Ghost<nat>,
    )
        requires
            nodes.well_formed(),
            old(self).fits(nodes.graph()),
            position < list.len(),
            list[position as int] == id,
        ensures
            final(self).fits(nodes.graph()),
            final(self).seen@.len() == old(self).seen@.len(),
            queued(
                nodes.graph(),
                marked(nodes.graph(), final(self).seen@),
                final(self).queue@,
                list,
                position + 1,
                fresh(),
            ) == queued(
                nodes.graph(),
                marked(nodes.graph(), old(self).seen@),
                old(self).queue@,
                list,
                position,
                fresh(),
            ),
    {
        proof {
            nodes.lemma_graph();
        }
        let index = id.index();
        if nodes.contains(id) && !self.seen[index] {
            self.seen[index] = true;
            self.queue.push((id, false));
            proof {
                let graph = nodes.graph();
                assert(marked(graph, self.seen@) =~= marked(graph, old(self).seen@).insert(id));
            }
        }
    }

    /// Meets the nodes that the node names.
    fn add_neighbors<N: Parameters>(&mut self, nodes: &Nodes<N>, id: Id)
        requires
            nodes.well_formed(),
            old(self).fits(nodes.graph()),
            nodes@.dom().contains(id),
        ensures
            final(self).fits(nodes.graph()),
            final(self).seen@.len() == old(self).seen@.len(),
            (marked(nodes.graph(), final(self).seen@), final(self).queue@) == queued(
                nodes.graph(),
                marked(nodes.graph(), old(self).seen@),
                old(self).queue@,
                neighbors(nodes.graph()[id]),
                0,
                fresh(),
            ),
    {
        let ghost graph = nodes.graph();
        proof {
            nodes.lemma_graph();
        }
        let node = match nodes.get(id) {
            Some(node) => node,
            None => {
                return ;
            },
        };
        let ghost list = neighbors(graph[id]);
        let ghost goal = queued(graph, marked(graph, self.seen@), self.queue@, list, 0, fresh());
        let regions: &[Region] = match node {
            Node::Compound(compound) => compound.regions(),
            _ => &[],
        };
        let mut i: usize = 0;
        while i < regions.len()
            invariant
                nodes.well_formed(),
                graph == nodes.graph(),
                self.fits(graph),
                self.seen@.len() == old(self).seen@.len(),
                regions@ == graph[id].regions,
                list == neighbors(graph[id]),
                i <= regions@.len(),
                queued(graph, marked(graph, self.seen@), self.queue@, list, (2 * i) as nat, fresh())
                    == goal,
            decreases regions@.len() - i,
        {
            let region = regions[i];
            self.add_guarded(nodes, region.start, Ghost(list), Ghost((2 * i) as nat));
            self.add_guarded(nodes, region.end, Ghost(list), Ghost((2 * i + 1) as nat));
            i += 1;
        }
        let links = node.parameters();
        let ghost base = 2 * regions@.len();
        let mut k: usize = 0;
        while k < links.len()
            invariant
                nodes.well_formed(),
                graph == nodes.graph(),
                self.fits(graph),
                self.seen@.len() == old(self).seen@.len(),
                links@ == graph[id].links,
                base == 2 * graph[id].regions.len(),
                list == neighbors(graph[id]),
                k <= links@.len(),
                queued(graph, marked(graph, self.seen@), self.queue@, list, (base + k) as nat, fresh())
                    == goal,
            decreases links@.len() - k,
        {
            self.add_guarded(nodes, links[k].node, Ghost(list), Ghost((base + k) as nat));
            k += 1;
        }
    }

    /// Walks the graph, starting at the leaves and ending at the roots, and
    /// returns the nodes in the order in which it came back to them.
    ///
    /// The roots are met in their order; then, as long as a node waits, the
    /// node met last is opened, which meets the nodes it names, the markers
    /// of its regions and then the producers of its links, or, if it is
    /// opened already, emitted. A node is met once; a key that names no
    /// node is passed over. What is emitted, and marked, is what a chain of
    /// links and regions reaches from a root.
    pub fn run<N: Parameters>(&mut self, nodes: &Nodes<N>, roots: &[Id]) -> (order: Vec<Id>)
        requires
            nodes.well_formed(),
        ensures
            order@ == visited(nodes.graph(), roots@).0,
            order@.no_duplicates(),
            forall|id: Id| order@.contains(id) <==> reachable(nodes.graph(), roots@, id),
            marked(nodes.graph(), final(self)@) == reached(nodes.graph(), roots@),
            final(self)@.len() == bound(nodes.graph().dom()),
            forall|i: int|
                0 <= i < final(self)@.len() && final(self)@[i] ==> exists|id: Id|
                    reached(nodes.graph(), roots@).contains(id) && id.index == i,
    {
        let ghost graph = nodes.graph();
        proof {
            nodes.lemma_graph();
            lemma_visited(graph, roots@);
        }
        let active = nodes.active();
        self.seen.clear();
        while self.seen.len() < active
            invariant
                self.seen@.len() <= active,
                forall|i: int| 0 <= i < self.seen@.len() ==> !self.seen@[i],
            decreases active - self.seen@.len(),
        {
            self.seen.push(false);
        }
        self.queue.clear();
        proof {
            assert(marked(graph, self.seen@) =~= Set::<Id>::empty());
            assert(self.queue@ =~= Seq::<(Id, bool)>::empty());
        }
        let mut r: usize = 0;
        while r < roots.len()
            invariant
                nodes.well_formed(),
                graph == nodes.graph(),
                self.fits(graph),
                self.seen@.len() == active,
                active == bound(graph.dom()),
                r <= roots@.len(),
                queued(graph, marked(graph, self.seen@), self.queue@, roots@, r as nat, fresh())
                    == queued(graph, Set::empty(), Seq::empty(), roots@, 0, fresh()),
            decreases roots@.len() - r,
        {
            self.add_guarded(nodes, roots[r], Ghost(roots@), Ghost(r as nat));
            r += 1;
        }
        let ghost goal = visited(graph, roots@);
        let mut order: Vec<Id> = Vec::new();
        proof {
            let rest = climbed(graph, marked(graph, self.seen@), self.queue@);
            assert(order@ + rest.0 =~= goal.0);
        }
        loop
            invariant
                nodes.well_formed(),
                graph == nodes.graph(),
                self.fits(graph),
                self.seen@.len() == active,
                active == bound(graph.dom()),
                order@ + climbed(graph, marked(graph, self.seen@), self.queue@).0 == goal.0,
                climbed(graph, marked(graph, self.seen@), self.queue@).1 == goal.1,
            ensures
                order@ == goal.0,
                marked(graph, self.seen@) == goal.1,
                self.fits(graph),
                self.seen@.len() == active,
            decreases
                    unvisited(graph, marked(graph, self.seen@)),
                    waiting(self.queue@),
                    self.queue@.len(),
        {
            let ghost seen = marked(graph, self.seen@);
            let ghost stack = self.queue@;
            let (id, opened) = match self.queue.pop() {
                Some(entry) => entry,
                None => {
                    proof {
                        assert(order@ + Seq::<Id>::empty() =~= order@);
                    }
                    break ;
                },
            };
            proof {
                assert(self.queue@ =~= stack.drop_last());
                assert(stack.last() == (id, opened));
                assert(graph.dom().contains(stack[stack.len() - 1].0));
            }
            if opened {
                order.push(id);
                proof {
                    let rest = climbed(graph, seen, stack.drop_last());
                    assert(order@ + rest.0 =~= order@.drop_last() + (seq![id] + rest.0));
                }
            } else {
                self.queue.push((id, true));
                proof {
                    let turned = stack.drop_last().push((id, true));
                    assert(self.queue@ =~= turned);
                    assert(turned.drop_last() =~= stack.drop_last());
                    lemma_queued(graph, seen, turned, neighbors(graph[id]), 0, fresh());
                }
                self.add_neighbors(nodes, id);
            }
        }
        proof {
            lemma_flags_mark(graph, self.seen@);
        }
        order
    }
}

/// Whether the stack holds marked nodes of the graph, each once, and
/// everything that an opened node depends on is marked.
spec fn settled(graph: Map<Id, Shape>, seen: Set<Id>, stack: Seq<(Id, bool)>) -> bool {
    &&& forall|k: int|
        0 <= k < stack.len() ==> seen.contains((#[trigger] stack[k]).0) && graph.dom().contains(
            stack[k].0,
        )
    &&& forall|a: int, b: int|
        0 <= a < b < stack.len() ==> (#[trigger] stack[a]).0 != (#[trigger] stack[b]).0
    &&& forall|k: int, y: Id|
        0 <= k < stack.len() && (#[trigger] stack[k]).1 && #[trigger] depends(graph, stack[k].0, y)
            ==> seen.contains(y)
}

/// Whether the stack holds an entry for the node.
spec fn holds(stack: Seq<(Id, bool)>, id: Id) -> bool {
    exists|k: int| 0 <= k < stack.len() && (#[trigger] stack[k]).0 == id
}

/// What working a settled stack off comes to: the nodes emitted are those
/// of the stack and those newly marked, each once; what an emitted node
/// depends on is marked in the end; and what is newly marked can be reached
/// from a node of the stack.
proof fn lemma_climbed(graph: Map<Id, Shape>, seen: Set<Id>, stack: Seq<(Id, bool)>)
    requires
        graph.dom().finite(),
        settled(graph, seen, stack),
    ensures
        ({
            let found = climbed(graph, seen, stack);
            &&& seen.subset_of(found.1)
            &&& forall|x: Id| #[trigger]
                found.0.contains(x) <==> holds(stack, x) || (found.1.contains(x) && !seen.contains(x))
            &&& forall|x: Id, y: Id|
                found.0.contains(x) && #[trigger] depends(graph, x, y) ==> found.1.contains(y)
            &&& forall|x: Id| #[trigger]
                found.1.contains(x) && !seen.contains(x) ==> graph.dom().contains(x) && exists|
                    q: Id,
                |
                    holds(stack, q) && #[trigger] reachable(graph, seq![q], x)
            &&& found.0.no_duplicates()
        }),
    decreases unvisited(graph, seen), waiting(stack), stack.len(),
{
    let found = climbed(graph, seen, stack);
    if stack.len() > 0 {
        let id = stack.last().0;
        let lower = stack.drop_last();
        let top = stack.len() - 1;
        assert(stack[top] == stack.last());
        assert forall|x: Id| holds(stack, x) <==> holds(lower, x) || x == id by {
            if holds(stack, x) {
                let k = choose|k: int| 0 <= k < stack.len() && (#[trigger] stack[k]).0 == x;
                if k < top {
                    assert(lower[k].0 == x);
                }
            }
            if holds(lower, x) {
                let k = choose|k: int| 0 <= k < lower.len() && (#[trigger] lower[k]).0 == x;
                assert(stack[k].0 == x);
            }
        }
        assert(!holds(lower, id)) by {
            if holds(lower, id) {
                let k = choose|k: int| 0 <= k < lower.len() && (#[trigger] lower[k]).0 == id;
                assert(stack[k].0 == stack[top].0);
            }
        }
        if stack.last().1 {
            let rest = climbed(graph, seen, lower);
            assert(settled(graph, seen, lower)) by {
                assert forall|k: int| 0 <= k < lower.len() implies seen.contains(
                    (#[trigger] lower[k]).0,
                ) && graph.dom().contains(lower[k].0) by {
                    assert(lower[k] == stack[k]);
                }
                assert forall|a: int, b: int| 0 <= a < b < lower.len() implies (
                #[trigger] lower[a]).0 != (#[trigger] lower[b]).0 by {
                    assert(lower[a] == stack[a] && lower[b] == stack[b]);
                }
                assert forall|k: int, y: Id|
                    0 <= k < lower.len() && (#[trigger] lower[k]).1 && #[trigger] depends(
                        graph,
                        lower[k].0,
                        y,
                    ) implies seen.contains(y) by {
                    assert(lower[k] == stack[k]);
                }
            }
            lemma_climbed(graph, seen, lower);
            assert(found == (seq![id] + rest.0, rest.1));
            assert forall|x: Id| found.0.contains(x) <==> x == id || rest.0.contains(x) by {
                if found.0.contains(x) {
                    let k = choose|k: int| 0 <= k < found.0.len() && found.0[k] == x;
                    if k > 0 {
                        assert(rest.0[k - 1] == x);
                    }
                }
                if rest.0.contains(x) {
                    let k = choose|k: int| 0 <= k < rest.0.len() && rest.0[k] == x;
                    assert(found.0[k + 1] == x);
                }
                assert(found.0[0] == id);
            }
            assert forall|x: Id, y: Id|
                found.0.contains(x) && #[trigger] depends(graph, x, y) implies found.1.contains(
                y,
            ) by {
                if x == id {
                    assert(stack[top].1 && depends(graph, stack[top].0, y));
                }
            }
            assert forall|x: Id| #[trigger]
                found.1.contains(x) && !seen.contains(x) implies graph.dom().contains(x) && exists|
                q: Id,
            |
                holds(stack, q) && #[trigger] reachable(graph, seq![q], x) by {
                let q = choose|q: Id| holds(lower, q) && #[trigger] reachable(graph, seq![q], x);
                assert(holds(stack, q) && reachable(graph, seq![q], x));
            }
            assert(found.0.no_duplicates()) by {
                assert(!rest.0.contains(id));
                assert forall|a: int, b: int|
                    0 <= a < found.0.len() && 0 <= b < found.0.len() && a != b implies found.0[a]
                    != found.0[b] by {
                    if a > 0 {
                        assert(found.0[a] == rest.0[a - 1]);
                        assert(rest.0.contains(rest.0[a - 1]));
                    }
                    if b > 0 {
                        assert(found.0[b] == rest.0[b - 1]);
                        assert(rest.0.contains(rest.0[b - 1]));
                    }
                }
            }
        } else {
            let opened = lower.push((id, true));
            let list = neighbors(graph[id]);
            let met = queued(graph, seen, opened, list, 0, fresh());
            assert(opened.drop_last() =~= lower);
            assert forall|k: int| 0 <= k < opened.len() implies seen.contains(
                (#[trigger] opened[k]).0,
            ) by {
                if k < top {
                    assert(opened[k] == stack[k]);
                }
            }
            assert forall|a: int, b: int| 0 <= a < b < opened.len() implies (#[trigger] opened[a]).0
                != (#[trigger] opened[b]).0 by {
                assert(opened[a].0 == stack[a].0 && opened[b].0 == stack[b].0);
            }
            lemma_queued(graph, seen, opened, list, 0, fresh());
            lemma_queued_pairs(graph, seen, opened, list, 0);
            assert(settled(graph, met.0, met.1)) by {
                assert forall|k: int| 0 <= k < met.1.len() implies met.0.contains(
                    (#[trigger] met.1[k]).0,
                ) && graph.dom().contains(met.1[k].0) by {
                    if k < opened.len() {
                        assert(met.1[k] == opened[k]);
                        assert(opened[k].0 == stack[k].0);
                        assert(seen.contains(stack[k].0));
                    }
                }
                assert forall|k: int, y: Id|
                    0 <= k < met.1.len() && (#[trigger] met.1[k]).1 && #[trigger] depends(
                        graph,
                        met.1[k].0,
                        y,
                    ) implies met.0.contains(y) by {
                    assert(k < opened.len());
                    assert(met.1[k] == opened[k]);
                    if k < top {
                        assert(opened[k] == stack[k]);
                        assert(seen.contains(y));
                    } else {
                        lemma_neighbors(graph, id, y);
                        let j = choose|j: int| 0 <= j < list.len() && list[j] == y;
                        assert(list[j] == y);
                    }
                }
            }
            lemma_climbed(graph, met.0, met.1);
            assert(found == climbed(graph, met.0, met.1));
            assert forall|x: Id| holds(met.1, x) <==> holds(stack, x) || (met.0.contains(x)
                && !seen.contains(x)) by {
                if holds(met.1, x) {
                    let k = choose|k: int| 0 <= k < met.1.len() && (#[trigger] met.1[k]).0 == x;
                    if k < opened.len() {
                        assert(met.1[k] == opened[k]);
                        assert(opened[k].0 == stack[k].0);
                    }
                }
                if holds(stack, x) {
                    let k = choose|k: int| 0 <= k < stack.len() && (#[trigger] stack[k]).0 == x;
                    assert(met.1[k] == opened[k]);
                    assert(opened[k].0 == stack[k].0);
                    assert(seen.contains(stack[k].0));
                }
                if met.0.contains(x) && !seen.contains(x) {
                    let k = choose|k: int|
                        opened.len() <= k < met.1.len() && (#[trigger] met.1[k]).0 == x;
                    assert(met.1[k].0 == x);
                }
            }
            assert forall|x: Id| #[trigger]
                found.0.contains(x) <==> holds(stack, x) || (found.1.contains(x) && !seen.contains(
                    x,
                )) by {}
            assert forall|x: Id| #[trigger]
                found.1.contains(x) && !seen.contains(x) implies graph.dom().contains(x) && exists|
                q: Id,
            |
                holds(stack, q) && #[trigger] reachable(graph, seq![q], x) by {
                if met.0.contains(x) {
                    let j = choose|j: int| 0 <= j < list.len() && #[trigger] list[j] == x;
                    assert(list[j] == x);
                    lemma_step_from(graph, id, x);
                    assert(holds(stack, id) && reachable(graph, seq![id], x));
                } else {
                    let q = choose|q: Id|
                        holds(met.1, q) && #[trigger] reachable(graph, seq![q], x);
                    if holds(stack, q) {
                        assert(holds(stack, q) && reachable(graph, seq![q], x));
                    } else {
                        let j = choose|j: int| 0 <= j < list.len() && #[trigger] list[j] == q;
                        assert(list[j] == q);
                        lemma_step_from(graph, id, q);
                        let path = choose|path: Seq<Id>|
                            connects(graph, path) && seq![q].contains(path[0]) && path.last() == x;
                        lemma_reachable_along(graph, seq![id], path, path.len() - 1);
                        assert(holds(stack, id) && reachable(graph, seq![id], x));
                    }
                }
            }
        }
    } else {
        assert forall|x: Id| !holds(stack, x) by {}
    }
}

/// Every node on a chain of dependencies that starts at a root is emitted.
proof fn lemma_path_visited(graph: Map<Id, Shape>, roots: Seq<Id>, path: Seq<Id>, upto: int)
    requires
        graph.dom().finite(),
        connects(graph, path),
        roots.contains(path[0]),
        0 <= upto < path.len(),
    ensures
        visited(graph, roots).0.contains(path[upto]),
    decreases upto,
{
    let met = queued(graph, Set::empty(), Seq::empty(), roots, 0, fresh());
    lemma_start(graph, roots);
    lemma_climbed(graph, met.0, met.1);
    if upto == 0 {
        assert(met.0.contains(path[0]));
    } else {
        lemma_path_visited(graph, roots, path, upto - 1);
        assert(depends(graph, path[upto - 1], path[upto]));
    }
}

/// Meeting the roots marks the roots that are nodes of the graph and puts
/// each of them on the stack once, not yet opened.
proof fn lemma_start(graph: Map<Id, Shape>, roots: Seq<Id>)
    requires
        graph.dom().finite(),
    ensures
        ({
            let met = queued(graph, Set::empty(), Seq::empty(), roots, 0, fresh());
            &&& settled(graph, met.0, met.1)
            &&& forall|x: Id| #[trigger]
                met.0.contains(x) <==> graph.dom().contains(x) && roots.contains(x)
            &&& forall|x: Id| #[trigger] met.0.contains(x) <==> holds(met.1, x)
        }),
{
    let met = queued(graph, Set::empty(), Seq::empty(), roots, 0, fresh());
    lemma_queued_pairs(graph, Set::empty(), Seq::empty(), roots, 0);
    assert forall|x: Id| #[trigger]
        met.0.contains(x) <==> graph.dom().contains(x) && roots.contains(x) by {
        if met.0.contains(x) {
            let j = choose|j: int| 0 <= j < roots.len() && #[trigger] roots[j] == x;
            assert(roots[j] == x);
        }
        if graph.dom().contains(x) && roots.contains(x) {
            let j = choose|j: int| 0 <= j < roots.len() && roots[j] == x;
            assert(0 <= j < roots.len() && roots[j] == x);
        }
    }
    assert forall|x: Id| #[trigger] met.0.contains(x) <==> holds(met.1, x) by {
        if met.0.contains(x) {
            let k = choose|k: int| 0 <= k < met.1.len() && (#[trigger] met.1[k]).0 == x;
            assert(met.1[k].0 == x);
        }
        if holds(met.1, x) {
            let k = choose|k: int| 0 <= k < met.1.len() && (#[trigger] met.1[k]).0 == x;
            assert(met.0.contains(met.1[k].0));
        }
    }
}

/// The traversal emits the nodes that a chain of dependencies reaches from
/// one of the roots, each once, and no others; and those are the nodes it
/// marks, the same that a reverse topological traversal marks.
pub proof fn lemma_visited(graph: Map<Id, Shape>, roots: Seq<Id>)
    requires
        graph.dom().finite(),
    ensures
        visited(graph, roots).0.no_duplicates(),
        forall|id: Id| #[trigger]
            visited(graph, roots).0.contains(id) <==> reachable(graph, roots, id),
        visited(graph, roots).1 == reached(graph, roots),
{
    let met = queued(graph, Set::empty(), Seq::empty(), roots, 0, fresh());
    let found = visited(graph, roots);
    lemma_start(graph, roots);
    lemma_climbed(graph, met.0, met.1);
    lemma_emits_once(graph, roots);
    assert forall|id: Id| #[trigger] found.0.contains(id) <==> reachable(graph, roots, id) by {
        if found.0.contains(id) {
            if holds(met.1, id) {
                let path = seq![id];
                assert(connects(graph, path));
                assert(roots.contains(path[0]));
                assert(path.last() == id);
            } else {
                let q = choose|q: Id| holds(met.1, q) && #[trigger] reachable(graph, seq![q], id);
                let path = choose|path: Seq<Id>|
                    connects(graph, path) && seq![q].contains(path[0]) && path.last() == id;
                assert(met.0.contains(q));
                assert(roots.contains(path[0]));
            }
        }
        if reachable(graph, roots, id) {
            let path = choose|path: Seq<Id>|
                connects(graph, path) && roots.contains(path[0]) && path.last() == id;
            lemma_path_visited(graph, roots, path, path.len() - 1);
        }
    }
    assert forall|id: Id| found.1.contains(id) <==> reached(graph, roots).contains(id) by {
        lemma_emits_reachable(graph, roots, id);
        assert(found.0.contains(id) <==> reachable(graph, roots, id));
        if found.1.contains(id) {
            assert(found.0.contains(id));
        }
        if found.0.contains(id) {
            assert(found.1.contains(id));
        }
    }
    assert(found.1 =~= reached(graph, roots));
}

} // verus!
