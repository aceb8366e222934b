//! The traversal that emits a node when it takes it off its queue.

use vstd::prelude::*;
use crate::data_flow::link::{Id, Region};
use crate::data_flow::node::{Node, Parameters, Shape};
use crate::data_flow::nodes::{bound, distinct_indices, is_bound, Nodes};
use crate::data_flow::invariants::depends;
use crate::visit::frontier::{
    lemma_neighbors,
    lemma_queued,
    lemma_queued_marks,
    lemma_step_from,
    neighbors,
    plain,
    queued,
};
use crate::visit::laws::{
    connects,
    lemma_emits_once,
    lemma_emits_reachable,
    lemma_reachable_along,
    reachable,
};
use crate::visit::order::reached;
use crate::visit::order::unvisited;
use crate::visit::reverse_topological::{flags_within, lemma_flags_mark, marked};

verus! {

/// Empties the queue from its end: the node taken off is emitted, and the
/// nodes it names are met. Returns the nodes emitted, in order, and the
/// marks in the end.
pub open spec fn drained(graph: Map<Id, Shape>, seen: Set<Id>, queue: Seq<Id>) -> (
    Seq<Id>,
    Set<Id>,
)
    decreases unvisited(graph, seen), queue.len(),
    when graph.dom().finite()
{
    if queue.len() == 0 {
        (Seq::empty(), seen)
    } else {
        let id = queue.last();
        let met = queued(graph, seen, queue.drop_last(), neighbors(graph[id]), 0, plain());
        proof {
            lemma_queued(graph, seen, queue.drop_last(), neighbors(graph[id]), 0, plain());
        }
        let rest = drained(graph, met.0, met.1);
        (seq![id] + rest.0, rest.1)
    }
}

/// The nodes that the traversal emits from `roots`, in order, and the nodes
/// it marks: the roots are met, and the queue is emptied.
pub open spec fn visited(graph: Map<Id, Shape>, roots: Seq<Id>) -> (Seq<Id>, Set<Id>) {
    let met = queued(graph, Set::empty(), Seq::empty(), roots, 0, plain());
    drained(graph, met.0, met.1)
}

/// A traversal of the graph from the roots towards the leaves: a node is
/// marked when it is first met and emitted when it is taken off the queue,
/// the node met last first.
pub struct PostOrder {
    seen: Vec<bool>,
    queue: Vec<Id>,
}

impl View for PostOrder {
    type V = Seq<bool>;

    /// The marks of the traversal by node index.
    closed spec fn view(&self) -> Seq<bool> {
        self.seen@
    }
}

impl Default for PostOrder {
    /// Creates a new, reusable [`PostOrder`] instance.
    fn default() -> (traversal: Self)
        ensures
            traversal@ == Seq::<bool>::empty(),
    {
        Self::new()
    }
}

impl PostOrder {
    /// Whether the marks fit the graph and the queue holds nodes of it.
    spec fn fits(&self, graph: Map<Id, Shape>) -> bool {
        &&& graph.dom().finite()
        &&& distinct_indices(graph.dom())
        &&& is_bound(graph.dom(), self.seen@.len())
        &&& flags_within(self.seen@, graph.dom())
        &&& forall|k: int|
            0 <= k < self.queue@.len() ==> graph.dom().contains(#[trigger] self.queue@[k])
    }

    /// Creates a new, reusable [`PostOrder`] instance.
    pub fn new() -> (traversal: Self)
        ensures
            traversal@ == Seq::<bool>::empty(),
    {
        Self { seen: Vec::new(), queue: Vec::new() }
    }

    /// Returns the nodes that have been seen: by node index, whether the
    /// node was met.
    pub fn seen(&self) -> (seen: &[bool])
        ensures
            seen@ == self@,
    {
        self.seen.as_slice()
    }

    /// Marks the node and puts it on the queue, unless the key names no
    /// node or the node is marked already.
    fn add_guarded<N: Parameters>(
        &mut self,
        nodes: &Nodes<N>,
        id: Id,
        Ghost(list): Ghost<Seq<Id>>,
        Ghost(position): Ghost<nat>,
    )
        requires
            nodes.well_formed(),
            old(self).fits(nodes.graph()),
            position < list.len(),
            list[position as int] == id,
        ensures
            final(self).fits(nodes.graph()),
            final(self).seen@.len() == old(self).seen@.len(),
            queued(
                nodes.graph(),
                marked(nodes.graph(), final(self).seen@),
                final(self).queue@,
                list,
                position + 1,
                plain(),
            ) == queued(
                nodes.graph(),
                marked(nodes.graph(), old(self).seen@),
                old(self).queue@,
                list,
                position,
                plain(),
            ),
    {
        proof {
            nodes.lemma_graph();
        }
        let index = id.index();
        if nodes.contains(id) && !self.seen[index] {
            self.seen[index] = true;
            self.queue.push(id);
            proof {
                let graph = nodes.graph();
                assert(marked(graph, self.seen@) =~= marked(graph, old(self).seen@).insert(id));
            }
        }
    }

    /// Meets the nodes that the node names.
    fn add_neighbors<N: Parameters>(&mut self, nodes: &Nodes<N>, id: Id)
        requires
            nodes.well_formed(),
            old(self).fits(nodes.graph()),
            nodes@.dom().contains(id),
        ensures
            final(self).fits(nodes.graph()),
            final(self).seen@.len() == old(self).seen@.len(),
            (marked(nodes.graph(), final(self).seen@), final(self).queue@) == queued(
                nodes.graph(),
                marked(nodes.graph(), old(self).seen@),
                old(self).queue@,
                neighbors(nodes.graph()[id]),
                0,
                plain(),
            ),
    {
        let ghost graph = nodes.graph();
        proof {
            nodes.lemma_graph();
        }
        let node = match nodes.get(id) {
            Some(node) => node,
            None => {
                return ;
            },
        };
        let ghost list = neighbors(graph[id]);
        let ghost goal = queued(graph, marked(graph, self.seen@), self.queue@, list, 0, plain());
        let regions: &[Region] = match node {
            Node::Compound(compound) => compound.regions(),
            _ => &[],
        };
        let mut i: usize = 0;
        while i < regions.len()
            invariant
                nodes.well_formed(),
                graph == nodes.graph(),
                self.fits(graph),
                self.seen@.len() == old(self).seen@.len(),
                regions@ == graph[id].regions,
                list == neighbors(graph[id]),
                i <= regions@.len(),
                queued(graph, marked(graph, self.seen@), self.queue@, list, (2 * i) as nat, plain())
                    == goal,
            decreases regions@.len() - i,
        {
            let region = regions[i];
            self.add_guarded(nodes, region.start, Ghost(list), Ghost((2 * i) as nat));
            self.add_guarded(nodes, region.end, Ghost(list), Ghost((2 * i + 1) as nat));
            i += 1;
        }
        let links = node.parameters();
        let ghost base = 2 * regions@.len();
        let mut k: usize = 0;
        while k < links.len()
            invariant
                nodes.well_formed(),
                graph == nodes.graph(),
                self.fits(graph),
                self.seen@.len() == old(self).seen@.len(),
                links@ == graph[id].links,
                base == 2 * graph[id].regions.len(),
                list == neighbors(graph[id]),
                k <= links@.len(),
                queued(graph, marked(graph, self.seen@), self.queue@, list, (base + k) as nat, plain())
                    == goal,
            decreases links@.len() - k,
        {
            self.add_guarded(nodes, links[k].node, Ghost(list), Ghost((base + k) as nat));
            k += 1;
        }
    }

    /// Walks the graph, starting at the roots and ending at the leaves, and
    /// returns the nodes in the order in which it came by them.
    ///
    /// The roots are met in their order; then, as long as a node waits, the
    /// node met last is emitted and the nodes it names are met: the markers
    /// of its regions, then the producers of its links. A node is met once;
    /// a key that names no node is passed over. What is emitted, and
    /// marked, is what a chain of links and regions reaches from a root.
    pub fn run<N: Parameters>(&mut self, nodes: &Nodes<N>, roots: &[Id]) -> (order: Vec<Id>)
        requires
            nodes.well_formed(),
        ensures
            order@ == visited(nodes.graph(), roots@).0,
            order@.no_duplicates(),
            forall|id: Id| order@.contains(id) <==> reachable(nodes.graph(), roots@, id),
            marked(nodes.graph(), final(self)@) == reached(nodes.graph(), roots@),
            final(self)@.len() == bound(nodes.graph().dom()),
            forall|i: int|
                0 <= i < final(self)@.len() && final(self)@[i] ==> exists|id: Id|
                    reached(nodes.graph(), roots@).contains(id) && id.index == i,
    {
        let ghost graph = nodes.graph();
        proof {
            nodes.lemma_graph();
            lemma_visited(graph, roots@);
        }
        let active = nodes.active();
        self.seen.clear();
        while self.seen.len() < active
            invariant
                self.seen@.len() <= active,
                forall|i: int| 0 <= i < self.seen@.len() ==> !self.seen@[i],
            decreases active - self.seen@.len(),
        {
            self.seen.push(false);
        }
        self.queue.clear();
        proof {
            assert(marked(graph, self.seen@) =~= Set::<Id>::empty());
            assert(self.queue@ =~= Seq::<Id>::empty());
        }
        let mut r: usize = 0;
        while r < roots.len()
            invariant
                nodes.well_formed(),
                graph == nodes.graph(),
                self.fits(graph),
                self.seen@.len() == active,
                active == bound(graph.dom()),
                r <= roots@.len(),
                queued(graph, marked(graph, self.seen@), self.queue@, roots@, r as nat, plain())
                    == queued(graph, Set::empty(), Seq::empty(), roots@, 0, plain()),
            decreases roots@.len() - r,
        {
            self.add_guarded(nodes, roots[r], Ghost(roots@), Ghost(r as nat));
            r += 1;
        }
        let ghost goal = visited(graph, roots@);
        let mut order: Vec<Id> = Vec::new();
        proof {
            let rest = drained(graph, marked(graph, self.seen@), self.queue@);
            assert(order@ + rest.0 =~= goal.0);
        }
        loop
            invariant
                nodes.well_formed(),
                graph == nodes.graph(),
                self.fits(graph),
                self.seen@.len() == active,
                active == bound(graph.dom()),
                order@ + drained(graph, marked(graph, self.seen@), self.queue@).0 == goal.0,
                drained(graph, marked(graph, self.seen@), self.queue@).1 == goal.1,
            ensures
                order@ == goal.0,
                marked(graph, self.seen@) == goal.1,
                self.fits(graph),
                self.seen@.len() == active,
            decreases unvisited(graph, marked(graph, self.seen@)), self.queue@.len(),
        {
            let ghost seen = marked(graph, self.seen@);
            let ghost queue = self.queue@;
            let id = match self.queue.pop() {
                Some(id) => id,
                None => {
                    proof {
                        assert(order@ + Seq::<Id>::empty() =~= order@);
                    }
                    break ;
                },
            };
            order.push(id);
            proof {
                assert(self.queue@ =~= queue.drop_last());
                lemma_queued(graph, seen, queue.drop_last(), neighbors(graph[id]), 0, plain());
            }
            assert(graph.dom().contains(queue[queue.len() - 1]));
            self.add_neighbors(nodes, id);
            proof {
                let met = queued(graph, seen, queue.drop_last(), neighbors(graph[id]), 0, plain());
                let rest = drained(graph, met.0, met.1);
                assert(order@ + rest.0 =~= order@.drop_last() + (seq![id] + rest.0));
            }
        }
        proof {
            lemma_flags_mark(graph, self.seen@);
        }
        order
    }
}

/// What emptying a queue of marked nodes comes to: the nodes emitted are
/// those of the queue and those newly marked, each once; what an emitted
/// node depends on is marked in the end; and what is newly marked can be
/// reached from a node of the queue.
proof fn lemma_drained(graph: Map<Id, Shape>, seen: Set<Id>, queue: Seq<Id>)
    requires
        graph.dom().finite(),
        queue.no_duplicates(),
        forall|k: int|
            0 <= k < queue.len() ==> seen.contains(#[trigger] queue[k]) && graph.dom().contains(
                queue[k],
            ),
    ensures
        ({
            let found = drained(graph, seen, queue);
            &&& seen.subset_of(found.1)
            &&& forall|x: Id| #[trigger]
                found.0.contains(x) <==> queue.contains(x) || (found.1.contains(x) && !seen.contains(
                    x,
                ))
            &&& forall|x: Id, y: Id|
                found.0.contains(x) && #[trigger] depends(graph, x, y) ==> found.1.contains(y)
            &&& forall|x: Id| #[trigger]
                found.1.contains(x) && !seen.contains(x) ==> graph.dom().contains(x) && exists|
                    q: Id,
                |
                    queue.contains(q) && #[trigger] reachable(graph, seq![q], x)
            &&& found.0.no_duplicates()
        }),
    decreases unvisited(graph, seen), queue.len(),
{
    let found = drained(graph, seen, queue);
    if queue.len() > 0 {
        let id = queue.last();
        let rest = queue.drop_last();
        let list = neighbors(graph[id]);
        let met = queued(graph, seen, rest, list, 0, plain());
        let after = drained(graph, met.0, met.1);
        assert(queue[queue.len() - 1] == id);
        assert(rest.no_duplicates());
        assert forall|k: int| 0 <= k < rest.len() implies seen.contains(#[trigger] rest[k]) by {
            assert(rest[k] == queue[k]);
        }
        lemma_queued(graph, seen, rest, list, 0, plain());
        lemma_queued_marks(graph, seen, rest, list, 0);
        assert forall|k: int| 0 <= k < met.1.len() implies met.0.contains(#[trigger] met.1[k])
            && graph.dom().contains(met.1[k]) by {
            assert(met.1.contains(met.1[k]));
            if rest.contains(met.1[k]) {
                let j = choose|j: int| 0 <= j < rest.len() && rest[j] == met.1[k];
                assert(queue[j] == met.1[k]);
            }
        }
        lemma_drained(graph, met.0, met.1);
        assert(found == (seq![id] + after.0, after.1));
        assert forall|x: Id| queue.contains(x) <==> rest.contains(x) || x == id by {
            if queue.contains(x) {
                let k = choose|k: int| 0 <= k < queue.len() && queue[k] == x;
                if k < rest.len() {
                    assert(rest[k] == x);
                }
            }
            if rest.contains(x) {
                let k = choose|k: int| 0 <= k < rest.len() && rest[k] == x;
                assert(queue[k] == x);
            }
        }
        assert(!rest.contains(id)) by {
            if rest.contains(id) {
                let k = choose|k: int| 0 <= k < rest.len() && rest[k] == id;
                assert(queue[k] == queue[queue.len() - 1]);
            }
        }
        assert forall|x: Id| found.0.contains(x) <==> x == id || after.0.contains(x) by {
            if found.0.contains(x) {
                let k = choose|k: int| 0 <= k < found.0.len() && found.0[k] == x;
                if k > 0 {
                    assert(after.0[k - 1] == x);
                }
            }
            if after.0.contains(x) {
                let k = choose|k: int| 0 <= k < after.0.len() && after.0[k] == x;
                assert(found.0[k + 1] == x);
            }
            assert(found.0[0] == id);
        }
        assert forall|x: Id| #[trigger]
            found.0.contains(x) <==> queue.contains(x) || (found.1.contains(x) && !seen.contains(
                x,
            )) by {}
        assert forall|x: Id, y: Id|
            found.0.contains(x) && #[trigger] depends(graph, x, y) implies found.1.contains(y) by {
            if x == id {
                lemma_neighbors(graph, id, y);
                let j = choose|j: int| 0 <= j < list.len() && list[j] == y;
                assert(list[j] == y);
                assert(met.0.contains(y));
            }
        }
        assert forall|x: Id| #[trigger]
            found.1.contains(x) && !seen.contains(x) implies graph.dom().contains(x) && exists|
            q: Id,
        |
            queue.contains(q) && #[trigger] reachable(graph, seq![q], x) by {
            if met.0.contains(x) {
                lemma_step_from(graph, id, x);
                assert(queue.contains(id) && reachable(graph, seq![id], x));
            } else {
                let q = choose|q: Id| met.1.contains(q) && #[trigger] reachable(graph, seq![q], x);
                if rest.contains(q) {
                    assert(queue.contains(q) && reachable(graph, seq![q], x));
                } else {
                    lemma_step_from(graph, id, q);
                    let path = choose|path: Seq<Id>|
                        connects(graph, path) && seq![q].contains(path[0]) && path.last() == x;
                    lemma_reachable_along(graph, seq![id], path, path.len() - 1);
                    assert(queue.contains(id) && reachable(graph, seq![id], x));
                }
            }
        }
        assert(found.0.no_duplicates()) by {
            assert(!after.0.contains(id));
            assert forall|a: int, b: int|
                0 <= a < found.0.len() && 0 <= b < found.0.len() && a != b implies found.0[a]
                != found.0[b] by {
                if a > 0 {
                    assert(found.0[a] == after.0[a - 1]);
                    assert(after.0.contains(after.0[a - 1]));
                }
                if b > 0 {
                    assert(found.0[b] == after.0[b - 1]);
                    assert(after.0.contains(after.0[b - 1]));
                }
            }
        }
    }
}

/// Every node on a chain of dependencies that starts at a root is emitted.
proof fn lemma_path_visited(graph: Map<Id, Shape>, roots: Seq<Id>, path: Seq<Id>, upto: int)
    requires
        graph.dom().finite(),
        connects(graph, path),
        roots.contains(path[0]),
        0 <= upto < path.len(),
    ensures
        visited(graph, roots).0.contains(path[upto]),
    decreases upto,
{
    let met = queued(graph, Set::empty(), Seq::empty(), roots, 0, plain());
    lemma_start(graph, roots);
    lemma_drained(graph, met.0, met.1);
    if upto == 0 {
        let j = choose|j: int| 0 <= j < roots.len() && roots[j] == path[0];
        assert(met.0.contains(path[0]));
    } else {
        lemma_path_visited(graph, roots, path, upto - 1);
        assert(depends(graph, path[upto - 1], path[upto]));
    }
}

/// Meeting the roots marks the roots that are nodes of the graph and puts
/// each of them on the queue once.
proof fn lemma_start(graph: Map<Id, Shape>, roots: Seq<Id>)
    requires
        graph.dom().finite(),
    ensures
        ({
            let met = queued(graph, Set::empty(), Seq::empty(), roots, 0, plain());
            &&& met.1.no_duplicates()
            &&& forall|k: int|
                0 <= k < met.1.len() ==> met.0.contains(#[trigger] met.1[k]) && graph.dom().contains(
                    met.1[k],
                ) && roots.contains(met.1[k])
            &&& forall|x: Id| #[trigger]
                met.0.contains(x) <==> graph.dom().contains(x) && roots.contains(x)
            &&& forall|x: Id| #[trigger] met.0.contains(x) ==> met.1.contains(x)
        }),
{
    let met = queued(graph, Set::empty(), Seq::empty(), roots, 0, plain());
    lemma_queued_marks(graph, Set::empty(), Seq::empty(), roots, 0);
    assert forall|x: Id| #[trigger]
        met.0.contains(x) <==> graph.dom().contains(x) && roots.contains(x) by {
        if met.0.contains(x) {
            let j = choose|j: int| 0 <= j < roots.len() && #[trigger] roots[j] == x;
            assert(roots[j] == x);
        }
        if graph.dom().contains(x) && roots.contains(x) {
            let j = choose|j: int| 0 <= j < roots.len() && roots[j] == x;
            assert(0 <= j < roots.len() && roots[j] == x);
        }
    }
    assert forall|k: int| 0 <= k < met.1.len() implies met.0.contains(#[trigger] met.1[k])
        && graph.dom().contains(met.1[k]) && roots.contains(met.1[k]) by {
        assert(met.1.contains(met.1[k]));
    }
}

/// The traversal emits the nodes that a chain of dependencies reaches from
/// one of the roots, each once, and no others; and those are the nodes it
/// marks, the same that a reverse topological traversal marks.
pub proof fn lemma_visited(graph: Map<Id, Shape>, roots: Seq<Id>)
    requires
        graph.dom().finite(),
    ensures
        visited(graph, roots).0.no_duplicates(),
        forall|id: Id| #[trigger]
            visited(graph, roots).0.contains(id) <==> reachable(graph, roots, id),
        visited(graph, roots).1 == reached(graph, roots),
{
    let met = queued(graph, Set::empty(), Seq::empty(), roots, 0, plain());
    let found = visited(graph, roots);
    lemma_start(graph, roots);
    lemma_drained(graph, met.0, met.1);
    lemma_emits_once(graph, roots);
    assert forall|id: Id| #[trigger] found.0.contains(id) <==> reachable(graph, roots, id) by {
        if found.0.contains(id) {
            if met.1.contains(id) {
                let path = seq![id];
                assert(connects(graph, path));
                assert(roots.contains(path[0]));
                assert(path.last() == id);
            } else {
                let q = choose|q: Id| met.1.contains(q) && #[trigger] reachable(graph, seq![q], id);
                let path = choose|path: Seq<Id>|
                    connects(graph, path) && seq![q].contains(path[0]) && path.last() == id;
                assert(roots.contains(path[0]));
            }
        }
        if reachable(graph, roots, id) {
            let path = choose|path: Seq<Id>|
                connects(graph, path) && roots.contains(path[0]) && path.last() == id;
            lemma_path_visited(graph, roots, path, path.len() - 1);
        }
    }
    assert forall|id: Id| found.1.contains(id) <==> reached(graph, roots).contains(id) by {
        lemma_emits_reachable(graph, roots, id);
        assert(found.0.contains(id) <==> reachable(graph, roots, id));
        if found.1.contains(id) {
            if met.0.contains(id) {
                assert(met.1.contains(id));
            }
            assert(found.0.contains(id));
        }
        if found.0.contains(id) {
            if met.1.contains(id) {
                let k = choose|k: int| 0 <= k < met.1.len() && met.1[k] == id;
                assert(met.0.contains(met.1[k]));
            }
            assert(found.1.contains(id));
        }
    }
    assert(found.1 =~= reached(graph, roots));
}

} // verus!
