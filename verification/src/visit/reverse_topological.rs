//! The traversal that emits every node after the nodes it depends on.

use vstd::prelude::*;
use crate::data_flow::invariants::{acyclic, depends};
use crate::data_flow::link::Id;
use crate::data_flow::node::{Node, Parameters, Shape};
use crate::data_flow::nodes::{bound, distinct_indices, is_bound, Nodes};
use crate::visit::laws::{
    before,
    lemma_dependencies_first,
    lemma_emits_once,
    lemma_emits_reachable,
    reachable,
};
use crate::visit::order::{
    lemma_unvisited_insert,
    lemma_walk_step,
    post_order,
    reached,
    unvisited,
    walk,
};

verus! {

/// A node whose visit has begun, and how far it has come.
enum Entry {
    /// The next link whose producer is to be visited.
    Predecessors { id: Id, index: usize },
    /// The next region to be visited.
    Regions { id: Id, index: usize },
    /// The region that has been entered: its end marker is to be visited.
    Ends { id: Id, index: usize },
    /// Everything the node depends on has been visited.
    Node { id: Id },
}

impl Entry {
    /// The node that the entry is about.
    spec fn id(self) -> Id {
        match self {
            Entry::Predecessors { id, .. } => id,
            Entry::Regions { id, .. } => id,
            Entry::Ends { id, .. } => id,
            Entry::Node { id } => id,
        }
    }

    /// How many of the dependencies of the node have been visited.
    spec fn position(self, graph: Map<Id, Shape>) -> int {
        match self {
            Entry::Predecessors { id, index } => index as int,
            Entry::Regions { id, index } => graph[id].links.len() + 2 * index,
            Entry::Ends { id, index } => graph[id].links.len() + 2 * index + 1,
            Entry::Node { id } => graph[id].dependencies().len() as int,
        }
    }

    /// Whether the entry is about a node of the graph and stands within its
    /// links or regions.
    spec fn fits(self, graph: Map<Id, Shape>) -> bool {
        &&& graph.dom().contains(self.id())
        &&& match self {
            Entry::Predecessors { id, index } => index <= graph[id].links.len(),
            Entry::Regions { id, index } => index <= graph[id].regions.len(),
            Entry::Ends { id, index } => index < graph[id].regions.len(),
            Entry::Node { id } => true,
        }
    }

    /// A bound on the steps the entry still takes by itself.
    spec fn weight(self, graph: Map<Id, Shape>) -> nat {
        match self {
            Entry::Node { id } => 1,
            _ => (2 * (graph[self.id()].dependencies().len() - self.position(graph)) + 2) as nat,
        }
    }

    /// What is emitted, and what is marked in the end, when the visit of the
    /// node is taken up where the entry stands.
    spec fn resume(self, graph: Map<Id, Shape>, seen: Set<Id>) -> (Seq<Id>, Set<Id>) {
        let rest = walk(
            graph,
            seen,
            graph[self.id()].dependencies(),
            self.position(graph) as nat,
        );
        (rest.0.push(self.id()), rest.1)
    }
}

/// What is emitted, and what is marked in the end, when the entries are taken
/// up one after the other, the last one first.
spec fn drain(graph: Map<Id, Shape>, seen: Set<Id>, stack: Seq<Entry>) -> (Seq<Id>, Set<Id>)
    decreases stack.len(),
{
    if stack.len() == 0 {
        (Seq::empty(), seen)
    } else {
        let top = stack.last().resume(graph, seen);
        let rest = drain(graph, top.1, stack.drop_last());
        (top.0 + rest.0, rest.1)
    }
}

/// A bound on the steps that the entries still take by themselves.
spec fn weigh(graph: Map<Id, Shape>, stack: Seq<Entry>) -> nat
    decreases stack.len(),
{
    if stack.len() == 0 {
        0
    } else {
        stack.last().weight(graph) + weigh(graph, stack.drop_last())
    }
}

/// The entry on top of the stack is taken up first, then those below it.
proof fn lemma_drain_push(graph: Map<Id, Shape>, seen: Set<Id>, stack: Seq<Entry>, entry: Entry)
    ensures
        ({
            let top = entry.resume(graph, seen);
            let rest = drain(graph, top.1, stack);
            drain(graph, seen, stack.push(entry)) == (top.0 + rest.0, rest.1)
        }),
        weigh(graph, stack.push(entry)) == weigh(graph, stack) + entry.weight(graph),
{
    assert(stack.push(entry).drop_last() =~= stack);
}

/// Taking up an entry whose next dependency is `next` comes to visiting
/// `next` and then taking up `after`, which stands one dependency further.
proof fn lemma_drain_visit(
    graph: Map<Id, Shape>,
    seen: Set<Id>,
    stack: Seq<Entry>,
    entry: Entry,
    after: Entry,
    next: Id,
)
    requires
        graph.dom().finite(),
        entry.id() == after.id(),
        0 <= entry.position(graph) < graph[entry.id()].dependencies().len(),
        after.position(graph) == entry.position(graph) + 1,
        next == graph[entry.id()].dependencies()[entry.position(graph)],
    ensures
        graph.dom().contains(next) && !seen.contains(next) ==> drain(
            graph,
            seen,
            stack.push(entry),
        ) == drain(
            graph,
            seen.insert(next),
            stack.push(after).push(Entry::Predecessors { id: next, index: 0 }),
        ),
        !(graph.dom().contains(next) && !seen.contains(next)) ==> drain(
            graph,
            seen,
            stack.push(entry),
        ) == drain(graph, seen, stack.push(after)),
{
    let list = graph[entry.id()].dependencies();
    let position = entry.position(graph) as nat;
    lemma_walk_step(graph, seen, list, position);
    lemma_drain_push(graph, seen, stack, entry);
    if graph.dom().contains(next) && !seen.contains(next) {
        let child = Entry::Predecessors { id: next, index: 0 };
        let below = walk(graph, seen.insert(next), graph[next].dependencies(), 0);
        let rest = walk(graph, below.1, list, position + 1);
        lemma_drain_push(graph, seen.insert(next), stack.push(after), child);
        lemma_drain_push(graph, below.1, stack, after);
        let tail = drain(graph, rest.1, stack);
        assert((below.0.push(next) + rest.0).push(entry.id()) + tail.0 =~= below.0.push(next) + (
        rest.0.push(entry.id()) + tail.0));
    } else {
        lemma_drain_push(graph, seen, stack, after);
    }
}

/// A reverse topological traversal of the graph.
/// It visits nodes starting from the leaves in the order `Predecessors 0 -> N, Regions 0 -> N, Node`.
pub struct ReverseTopological {
    seen: Vec<bool>,
    stack: Vec<Entry>,
    roots: Vec<Id>,
    next: usize,
}

impl View for ReverseTopological {
    type V = Seq<bool>;

    /// The marks of the traversal by node index.
    closed spec fn view(&self) -> Seq<bool> {
        self.seen@
    }
}

impl Default for ReverseTopological {
    /// Creates a new, reusable [`ReverseTopological`] instance.
    fn default() -> (topological: Self)
        ensures
            topological@ == Seq::<bool>::empty(),
    {
        Self::new()
    }
}

/// Whether every flag that is set stands at the index of one of the nodes.
pub open spec fn flags_within(seen: Seq<bool>, nodes: Set<Id>) -> bool {
    forall|i: int|
        0 <= i < seen.len() && seen[i] ==> exists|id: Id| nodes.contains(id) && id.index == i
}

/// The nodes of the graph whose index is marked in `seen`.
pub open spec fn marked(graph: Map<Id, Shape>, seen: Seq<bool>) -> Set<Id> {
    Set::new(|id: Id| graph.dom().contains(id) && id.index < seen.len() && seen[id.index as int])
}

/// A flag that stands at the index of a node marks that node.
pub proof fn lemma_flags_mark(graph: Map<Id, Shape>, seen: Seq<bool>)
    requires
        flags_within(seen, graph.dom()),
    ensures
        flags_within(seen, marked(graph, seen)),
{
    assert forall|i: int| 0 <= i < seen.len() && seen[i] implies exists|id: Id|
        marked(graph, seen).contains(id) && id.index == i by {
        let id = choose|id: Id| graph.dom().contains(id) && id.index == i;
        assert(marked(graph, seen).contains(id));
    }
}

impl ReverseTopological {
    /// Whether the traversal is under way in the given graph.
    pub closed spec fn ready(&self, graph: Map<Id, Shape>) -> bool {
        &&& graph.dom().finite()
        &&& distinct_indices(graph.dom())
        &&& is_bound(graph.dom(), self.seen@.len())
        &&& flags_within(self.seen@, graph.dom())
        &&& self.next <= self.roots@.len()
        &&& forall|k: int| 0 <= k < self.stack@.len() ==> (#[trigger] self.stack@[k]).fits(graph)
    }

    /// What the entries on the stack still emit, and what is marked then.
    spec fn begun(&self, graph: Map<Id, Shape>) -> (Seq<Id>, Set<Id>) {
        drain(graph, marked(graph, self.seen@), self.stack@)
    }

    /// The nodes that the traversal has yet to emit, in order.
    pub closed spec fn pending(&self, graph: Map<Id, Shape>) -> Seq<Id> {
        self.begun(graph).0 + walk(graph, self.begun(graph).1, self.roots@, self.next as nat).0
    }

    /// The nodes that will be marked when the traversal has emitted them all.
    pub closed spec fn goal(&self, graph: Map<Id, Shape>) -> Set<Id> {
        walk(graph, self.begun(graph).1, self.roots@, self.next as nat).1
    }

    /// Whether the traversal is closer to its end than it was with `entry`
    /// on top of the stack `below` and the marks `seen`.
    spec fn advanced(
        &self,
        graph: Map<Id, Shape>,
        seen: Seq<bool>,
        below: Seq<Entry>,
        entry: Entry,
    ) -> bool {
        let before = unvisited(graph, marked(graph, seen));
        let now = unvisited(graph, marked(graph, self.seen@));
        now < before || (now == before && weigh(graph, self.stack@) < weigh(
            graph,
            below.push(entry),
        ))
    }

    /// Creates a new, reusable [`ReverseTopological`] instance.
    pub fn new() -> (topological: Self)
        ensures
            topological@ == Seq::<bool>::empty(),
    {
        Self { seen: Vec::new(), stack: Vec::new(), roots: Vec::new(), next: 0 }
    }

    /// Returns the marks by node index: whether the node with that index
    /// has been seen.
    pub fn seen(&self) -> (seen: &[bool])
        ensures
            seen@ == self@,
    {
        self.seen.as_slice()
    }

    /// Marks the node and begins its visit, unless the key names no node or
    /// the node is marked already.
    fn add_node<N: Parameters>(&mut self, nodes: &Nodes<N>, id: Id)
        requires
            nodes.well_formed(),
            old(self).ready(nodes.graph()),
        ensures
            final(self).ready(nodes.graph()),
            final(self).roots == old(self).roots,
            final(self).next == old(self).next,
            final(self).seen@.len() == old(self).seen@.len(),
            ({
                let graph = nodes.graph();
                let seen = marked(graph, old(self).seen@);
                if graph.dom().contains(id) && !seen.contains(id) {
                    &&& marked(graph, final(self).seen@) == seen.insert(id)
                    &&& final(self).stack@ == old(self).stack@.push(
                        Entry::Predecessors { id, index: 0 },
                    )
                } else {
                    &&& final(self).seen == old(self).seen
                    &&& final(self).stack == old(self).stack
                }
            }),
    {
        proof {
            nodes.lemma_graph();
        }
        let index = id.index as usize;
        if nodes.contains(id) && !self.seen[index] {
            self.seen[index] = true;
            self.stack.push(Entry::Predecessors { id, index: 0 });
            proof {
                let graph = nodes.graph();
                assert(marked(graph, self.seen@) =~= marked(graph, old(self).seen@).insert(id));
            }
        }
    }

    /// Leaves `after` on the stack in place of `entry`, which stood one
    /// dependency before it, and visits that dependency.
    fn descend<N: Parameters>(
        &mut self,
        nodes: &Nodes<N>,
        Ghost(entry): Ghost<Entry>,
        after: Entry,
        next: Id,
    )
        requires
            nodes.well_formed(),
            old(self).ready(nodes.graph()),
            after.fits(nodes.graph()),
            entry.id() == after.id(),
            !(entry is Node),
            !(after is Node),
            0 <= entry.position(nodes.graph()) < nodes.graph()[entry.id()].dependencies().len(),
            after.position(nodes.graph()) == entry.position(nodes.graph()) + 1,
            next == nodes.graph()[entry.id()].dependencies()[entry.position(nodes.graph())],
        ensures
            final(self).ready(nodes.graph()),
            final(self).roots == old(self).roots,
            final(self).next == old(self).next,
            final(self).seen@.len() == old(self).seen@.len(),
            final(self).begun(nodes.graph()) == drain(
                nodes.graph(),
                marked(nodes.graph(), old(self).seen@),
                old(self).stack@.push(entry),
            ),
            final(self).advanced(nodes.graph(), old(self).seen@, old(self).stack@, entry),
    {
        let ghost graph = nodes.graph();
        let ghost seen = marked(graph, self.seen@);
        let ghost rest = self.stack@;
        self.stack.push(after);
        proof {
            lemma_drain_visit(graph, seen, rest, entry, after, next);
            lemma_drain_push(graph, seen, rest, after);
            lemma_drain_push(graph, seen, rest, entry);
            if graph.dom().contains(next) && !seen.contains(next) {
                lemma_unvisited_insert(graph, seen, next);
            }
        }
        self.add_node(nodes, next);
    }

    /// Leaves the node itself on the stack in place of `entry`, which has no
    /// dependency left.
    fn settle(&mut self, Ghost(graph): Ghost<Map<Id, Shape>>, Ghost(entry): Ghost<Entry>, id: Id)
        requires
            old(self).ready(graph),
            entry.fits(graph),
            entry.id() == id,
            !(entry is Node),
            entry.position(graph) == graph[id].dependencies().len(),
        ensures
            final(self).ready(graph),
            final(self).roots == old(self).roots,
            final(self).next == old(self).next,
            final(self).seen@.len() == old(self).seen@.len(),
            final(self).seen == old(self).seen,
            final(self).begun(graph) == drain(
                graph,
                marked(graph, old(self).seen@),
                old(self).stack@.push(entry),
            ),
            final(self).advanced(graph, old(self).seen@, old(self).stack@, entry),
    {
        let ghost seen = marked(graph, self.seen@);
        let ghost rest = self.stack@;
        self.stack.push(Entry::Node { id });
        proof {
            lemma_drain_push(graph, seen, rest, Entry::Node { id });
            lemma_drain_push(graph, seen, rest, entry);
        }
    }

    /// Takes up a node whose links have been followed up to `index`.
    fn handle_predecessor<N: Parameters>(&mut self, nodes: &Nodes<N>, index: usize, id: Id)
        requires
            nodes.well_formed(),
            old(self).ready(nodes.graph()),
            (Entry::Predecessors { id, index }).fits(nodes.graph()),
        ensures
            final(self).ready(nodes.graph()),
            final(self).roots == old(self).roots,
            final(self).next == old(self).next,
            final(self).seen@.len() == old(self).seen@.len(),
            final(self).begun(nodes.graph()) == drain(
                nodes.graph(),
                marked(nodes.graph(), old(self).seen@),
                old(self).stack@.push(Entry::Predecessors { id, index }),
            ),
            final(self).advanced(
                nodes.graph(),
                old(self).seen@,
                old(self).stack@,
                Entry::Predecessors { id, index },
            ),
    {
        let ghost graph = nodes.graph();
        let ghost entry = Entry::Predecessors { id, index };
        let node = match nodes.get(id) {
            Some(node) => node,
            None => {
                proof {
                    nodes.lemma_graph();
                    assert(false);
                }
                return ;
            },
        };
        let parameters = node.parameters();
        if index < parameters.len() {
            let after = Entry::Predecessors { id, index: index + 1 };
            self.descend(nodes, Ghost(entry), after, parameters[index].node);
        } else {
            let regions = match node {
                Node::Compound(compound) => compound.regions(),
                _ => &[],
            };
            if regions.len() > 0 {
                let after = Entry::Ends { id, index: 0 };
                self.descend(nodes, Ghost(entry), after, regions[0].start);
            } else {
                self.settle(Ghost(graph), Ghost(entry), id);
            }
        }
    }

    /// Takes up a compound whose regions have been visited up to `index`.
    fn handle_region<N: Parameters>(&mut self, nodes: &Nodes<N>, index: usize, id: Id)
        requires
            nodes.well_formed(),
            old(self).ready(nodes.graph()),
            (Entry::Regions { id, index }).fits(nodes.graph()),
        ensures
            final(self).ready(nodes.graph()),
            final(self).roots == old(self).roots,
            final(self).next == old(self).next,
            final(self).seen@.len() == old(self).seen@.len(),
            final(self).begun(nodes.graph()) == drain(
                nodes.graph(),
                marked(nodes.graph(), old(self).seen@),
                old(self).stack@.push(Entry::Regions { id, index }),
            ),
            final(self).advanced(
                nodes.graph(),
                old(self).seen@,
                old(self).stack@,
                Entry::Regions { id, index },
            ),
    {
        let ghost graph = nodes.graph();
        let ghost entry = Entry::Regions { id, index };
        let node = match nodes.get(id) {
            Some(node) => node,
            None => {
                proof {
                    nodes.lemma_graph();
                    assert(false);
                }
                return ;
            },
        };
        let regions = match node {
            Node::Compound(compound) => compound.regions(),
            _ => &[],
        };
        if index < regions.len() {
            let after = Entry::Ends { id, index };
            self.descend(nodes, Ghost(entry), after, regions[index].start);
        } else {
            self.settle(Ghost(graph), Ghost(entry), id);
        }
    }

    /// Takes up a compound whose region `index` has been entered.
    fn handle_end<N: Parameters>(&mut self, nodes: &Nodes<N>, index: usize, id: Id)
        requires
            nodes.well_formed(),
            old(self).ready(nodes.graph()),
            (Entry::Ends { id, index }).fits(nodes.graph()),
        ensures
            final(self).ready(nodes.graph()),
            final(self).roots == old(self).roots,
            final(self).next == old(self).next,
            final(self).seen@.len() == old(self).seen@.len(),
            final(self).begun(nodes.graph()) == drain(
                nodes.graph(),
                marked(nodes.graph(), old(self).seen@),
                old(self).stack@.push(Entry::Ends { id, index }),
            ),
            final(self).advanced(
                nodes.graph(),
                old(self).seen@,
                old(self).stack@,
                Entry::Ends { id, index },
            ),
    {
        let ghost entry = Entry::Ends { id, index };
        let node = match nodes.get(id) {
            Some(node) => node,
            None => {
                proof {
                    nodes.lemma_graph();
                    assert(false);
                }
                return ;
            },
        };
        let regions = match node {
            Node::Compound(compound) => compound.regions(),
            _ => &[],
        };
        if index < regions.len() {
            let after = Entry::Regions { id, index: index + 1 };
            self.descend(nodes, Ghost(entry), after, regions[index].end);
        } else {
            assert(false);
        }
    }

    /// Begins the visit of the next root: the stack is empty.
    fn next_root<N: Parameters>(&mut self, nodes: &Nodes<N>)
        requires
            nodes.well_formed(),
            old(self).ready(nodes.graph()),
            old(self).stack@.len() == 0,
            old(self).next < old(self).roots@.len(),
        ensures
            final(self).ready(nodes.graph()),
            final(self).roots == old(self).roots,
            final(self).next == old(self).next + 1,
            final(self).seen@.len() == old(self).seen@.len(),
            final(self).pending(nodes.graph()) == old(self).pending(nodes.graph()),
            final(self).goal(nodes.graph()) == old(self).goal(nodes.graph()),
            unvisited(nodes.graph(), marked(nodes.graph(), final(self).seen@)) < unvisited(
                nodes.graph(),
                marked(nodes.graph(), old(self).seen@),
            ) || (final(self).seen == old(self).seen && final(self).stack@.len() == 0),
    {
        let ghost graph = nodes.graph();
        let ghost seen = marked(graph, self.seen@);
        assert(self.roots@.len() <= usize::MAX) by {
            let _ = self.roots.len();
        }
        let root = self.roots[self.next];
        proof {
            lemma_walk_step(graph, seen, self.roots@, self.next as nat);
            assert(self.begun(graph) == (Seq::<Id>::empty(), seen));
        }
        self.next += 1;
        self.add_node(nodes, root);
        proof {
            if graph.dom().contains(root) && !seen.contains(root) {
                let child = Entry::Predecessors { id: root, index: 0 };
                assert(self.stack@ =~= Seq::<Entry>::empty().push(child));
                lemma_drain_push(graph, seen.insert(root), Seq::<Entry>::empty(), child);
                lemma_unvisited_insert(graph, seen, root);
                let below = walk(graph, seen.insert(root), graph[root].dependencies(), 0);
                let rest = walk(graph, below.1, self.roots@, self.next as nat);
                assert(below.0.push(root) + Seq::<Id>::empty() =~= below.0.push(root));
                assert(Seq::<Id>::empty() + (below.0.push(root) + rest.0) =~= below.0.push(root)
                    + rest.0);
            } else {
                assert(self.begun(graph) == (Seq::<Id>::empty(), seen));
            }
        }
    }

    /// Clears the marks and makes the visitor ready to emit what can be
    /// reached from the roots.
    pub fn set_up_roots<N: Parameters>(&mut self, nodes: &Nodes<N>, roots: &[Id])
        requires
            nodes.well_formed(),
        ensures
            final(self).ready(nodes.graph()),
            final(self).pending(nodes.graph()) == post_order(nodes.graph(), roots@),
            final(self).goal(nodes.graph()) == reached(nodes.graph(), roots@),
            final(self)@.len() == bound(nodes.graph().dom()),
            forall|i: int| 0 <= i < final(self)@.len() ==> !final(self)@[i],
    {
        let ghost graph = nodes.graph();
        proof {
            nodes.lemma_graph();
        }
        let active = nodes.active();
        self.seen.clear();
        while self.seen.len() < active
            invariant
                self.seen@.len() <= active,
                forall|i: int| 0 <= i < self.seen@.len() ==> !self.seen@[i],
            decreases active - self.seen@.len(),
        {
            self.seen.push(false);
        }
        self.stack.clear();
        self.roots.clear();
        let mut i: usize = 0;
        while i < roots.len()
            invariant
                i <= roots@.len(),
                self.roots@ == roots@.take(i as int),
                self.stack@.len() == 0,
                self.seen@.len() == active,
                forall|i: int| 0 <= i < self.seen@.len() ==> !self.seen@[i],
            decreases roots@.len() - i,
        {
            self.roots.push(roots[i]);
            i += 1;
            proof {
                assert(roots@.take(i as int) =~= roots@.take(i - 1).push(roots@[i - 1]));
            }
        }
        self.next = 0;
        proof {
            assert(roots@.take(i as int) =~= roots@);
            assert(marked(graph, self.seen@) =~= Set::<Id>::empty());
            let rest = walk(graph, Set::<Id>::empty(), roots@, 0);
            assert(Seq::<Id>::empty() + rest.0 =~= rest.0);
        }
    }

    /// Returns the nodes that can be reached from the roots in reverse
    /// topological order: each node after the producers of its links, in
    /// port order, and after the markers of its regions, in declaration
    /// order, the start of a region before its end. A root that is not in
    /// the store is passed over. The marks are those of the nodes returned.
    ///
    /// Every node that a chain of links and regions reaches from a root is
    /// returned, once, and no other node; unless the graph has a cycle, every
    /// node is returned after all that it depends on.
    pub fn iter<N: Parameters>(&mut self, nodes: &Nodes<N>, roots: &[Id]) -> (order: Vec<Id>)
        requires
            nodes.well_formed(),
        ensures
            order@ == post_order(nodes.graph(), roots@),
            order@.no_duplicates(),
            forall|id: Id| order@.contains(id) <==> reachable(nodes.graph(), roots@, id),
            acyclic(nodes.graph()) ==> forall|k: int, to: Id|
                0 <= k < order@.len() && #[trigger] depends(nodes.graph(), order@[k], to) ==> before(
                    Set::empty(),
                    order@,
                    k,
                    to,
                ),
            final(self)@.len() == bound(nodes.graph().dom()),
            marked(nodes.graph(), final(self)@) == reached(nodes.graph(), roots@),
            forall|i: int|
                0 <= i < final(self)@.len() && final(self)@[i] ==> exists|id: Id|
                    reached(nodes.graph(), roots@).contains(id) && id.index == i,
            final(self).ready(nodes.graph()),
            final(self).pending(nodes.graph()) == Seq::<Id>::empty(),
    {
        let ghost graph = nodes.graph();
        proof {
            nodes.lemma_graph();
            lemma_emits_once(graph, roots@);
            assert forall|id: Id|
                post_order(graph, roots@).contains(id) <==> reachable(graph, roots@, id) by {
                lemma_emits_reachable(graph, roots@, id);
            }
            if acyclic(graph) {
                let goal = post_order(graph, roots@);
                assert forall|k: int, to: Id|
                    0 <= k < goal.len() && #[trigger] depends(graph, goal[k], to) implies before(
                    Set::empty(),
                    goal,
                    k,
                    to,
                ) by {
                    lemma_dependencies_first(graph, roots@, k, to);
                }
            }
        }
        self.set_up_roots(nodes, roots);
        let mut order: Vec<Id> = Vec::new();
        loop
            invariant
                nodes.well_formed(),
                graph == nodes.graph(),
                self.ready(graph),
                self@.len() == bound(graph.dom()),
                self.goal(graph) == reached(graph, roots@),
                order@ + self.pending(graph) == post_order(graph, roots@),
            ensures
                order@ == post_order(graph, roots@),
                self@.len() == bound(graph.dom()),
                marked(graph, self@) == reached(graph, roots@),
                flags_within(self@, marked(graph, self@)),
                self.ready(graph),
                self.pending(graph) == Seq::<Id>::empty(),
            decreases self.pending(graph).len(),
        {
            let ghost before = self.pending(graph);
            match self.next_in(nodes) {
                Some(id) => {
                    order.push(id);
                    proof {
                        assert(order@ + self.pending(graph) =~= order@.drop_last() + before);
                    }
                },
                None => {
                    proof {
                        assert(order@ + Seq::<Id>::empty() =~= order@);
                    }
                    break ;
                },
            }
        }
        order
    }

    /// Takes the traversal one node further: returns the next node in order,
    /// or nothing when every node that can be reached has been returned.
    pub fn next_in<N: Parameters>(&mut self, nodes: &Nodes<N>) -> (node: Option<Id>)
        requires
            nodes.well_formed(),
            old(self).ready(nodes.graph()),
        ensures
            final(self).ready(nodes.graph()),
            final(self).goal(nodes.graph()) == old(self).goal(nodes.graph()),
            final(self)@.len() == old(self)@.len(),
            forall|i: int|
                0 <= i < final(self)@.len() && final(self)@[i] ==> exists|id: Id|
                    marked(nodes.graph(), final(self)@).contains(id) && id.index == i,
            match node {
                Some(id) => old(self).pending(nodes.graph()) == seq![id] + final(self).pending(
                    nodes.graph(),
                ),
                None => old(self).pending(nodes.graph()) == Seq::<Id>::empty() && final(self).pending(nodes.graph()) == Seq::<Id>::empty() && marked(
                    nodes.graph(),
                    final(self)@,
                ) == final(self).goal(nodes.graph()),
            },
    {
        let ghost graph = nodes.graph();
        loop
            invariant
                nodes.well_formed(),
                graph == nodes.graph(),
                self.ready(graph),
                self.pending(graph) == old(self).pending(graph),
                self.goal(graph) == old(self).goal(graph),
                self.seen@.len() == old(self).seen@.len(),
            decreases
                    unvisited(graph, marked(graph, self.seen@)),
                    weigh(graph, self.stack@),
                    self.roots@.len() - self.next,
        {
            let ghost seen = marked(graph, self.seen@);
            let ghost stack = self.stack@;
            let popped = self.stack.pop();
            proof {
                if stack.len() > 0 {
                    assert(stack =~= stack.drop_last().push(stack.last()));
                    assert(stack[stack.len() - 1].fits(graph));
                    lemma_drain_push(graph, seen, stack.drop_last(), stack.last());
                }
            }
            match popped {
                None => {
                    if self.next >= self.roots.len() {
                        proof {
                            assert(self.pending(graph) =~= Seq::<Id>::empty());
                            lemma_flags_mark(graph, self.seen@);
                        }
                        return None;
                    }
                    self.next_root(nodes);
                },
                Some(Entry::Node { id }) => {
                    proof {
                        let tail = drain(graph, seen, self.stack@);
                        let roots = walk(graph, tail.1, self.roots@, self.next as nat);
                        assert((Seq::<Id>::empty().push(id) + tail.0) + roots.0 =~= seq![id] + (tail.0
                            + roots.0));
                        lemma_flags_mark(graph, self.seen@);
                    }
                    return Some(id);
                },
                Some(Entry::Predecessors { id, index }) => {
                    self.handle_predecessor(nodes, index, id);
                },
                Some(Entry::Regions { id, index }) => {
                    self.handle_region(nodes, index, id);
                },
                Some(Entry::Ends { id, index }) => {
                    self.handle_end(nodes, index, id);
                },
            }
        }
    }
}

} // verus!
