//! The depth-first search that reports when it arrives at a node or a
//! region and when it is done with it.

use vstd::prelude::*;
use crate::data_flow::link::{Id, Link};
use crate::data_flow::node::{Node, Parameters};
use crate::data_flow::nodes::Nodes;
use crate::visit::events::{
    events,
    explore,
    lemma_explore_joined,
    lemma_explore_shifted,
    lemma_explore_step,
    lemma_open_remove,
    open_nodes,
    region_tasks,
    regions_tasks,
    results,
    tasks,
    visits,
    Event,
    Task,
};
use crate::visit::reverse_topological::marked;

verus! {

/// An event that is due, and the part of the buffer that holds the nodes to
/// be searched before it is reported, the first of them last.
struct Visit {
    event: Event,
    start: usize,
    end: usize,
}

/// The nodes that are searched before the event of the visit is reported.
spec fn pending(buffer: Seq<Id>, visit: Visit) -> Seq<Task> {
    Seq::new((visit.end - visit.start) as nat, |i: int| Task::Visit(buffer[visit.end - 1 - i]))
}

/// The steps of one visit.
spec fn visit_tasks(buffer: Seq<Id>, visit: Visit) -> Seq<Task> {
    pending(buffer, visit).push(Task::Emit(visit.event))
}

/// The steps of the visits on the stack, the last visit first.
spec fn stack_tasks(buffer: Seq<Id>, stack: Seq<Visit>) -> Seq<Task>
    decreases stack.len(),
{
    if stack.len() == 0 {
        Seq::empty()
    } else {
        visit_tasks(buffer, stack.last()) + stack_tasks(buffer, stack.drop_last())
    }
}

/// The number of steps of the visits on the stack.
spec fn work(stack: Seq<Visit>) -> nat
    decreases stack.len(),
{
    if stack.len() == 0 {
        0
    } else {
        (stack.last().end - stack.last().start + 1 + work(stack.drop_last())) as nat
    }
}

/// Whether the visits hold parts of the buffer, one behind the other.
spec fn ranged(length: int, stack: Seq<Visit>) -> bool {
    &&& forall|k: int|
        0 <= k < stack.len() ==> (#[trigger] stack[k]).start <= stack[k].end <= length
    &&& forall|j: int, k: int|
        0 <= j < k < stack.len() ==> (#[trigger] stack[j]).end <= (#[trigger] stack[k]).start
}

/// The steps of the visits depend on the buffer only as far as the visits
/// reach.
proof fn lemma_frame(before: Seq<Id>, after: Seq<Id>, stack: Seq<Visit>, upto: int)
    requires
        upto <= before.len(),
        upto <= after.len(),
        forall|i: int| 0 <= i < upto ==> before[i] == after[i],
        forall|k: int|
            0 <= k < stack.len() ==> (#[trigger] stack[k]).start <= stack[k].end <= upto,
    ensures
        stack_tasks(before, stack) == stack_tasks(after, stack),
    decreases stack.len(),
{
    if stack.len() > 0 {
        lemma_frame(before, after, stack.drop_last(), upto);
        assert(stack[stack.len() - 1].end <= upto);
        assert(pending(before, stack.last()) =~= pending(after, stack.last()));
    }
}

proof fn lemma_push(buffer: Seq<Id>, stack: Seq<Visit>, visit: Visit)
    ensures
        stack_tasks(buffer, stack.push(visit)) == visit_tasks(buffer, visit) + stack_tasks(
            buffer,
            stack,
        ),
        visit.start <= visit.end ==> work(stack.push(visit)) == work(stack) + (visit.end
            - visit.start) + 1,
{
    assert(stack.push(visit).drop_last() =~= stack);
}

/// A depth-first search of the graph among the nodes that are marked open.
pub struct DepthFirstSearcher {
    visits: Vec<Visit>,
    nodes: Vec<bool>,
    parameters: Vec<Id>,
}

impl View for DepthFirstSearcher {
    type V = Seq<bool>;

    /// By node index, whether the node is open to the search.
    closed spec fn view(&self) -> Seq<bool> {
        self.nodes@
    }
}

impl DepthFirstSearcher {
    /// What is left of the search: the steps of the visits on the stack.
    spec fn rest(&self) -> Seq<Task> {
        stack_tasks(self.parameters@, self.visits@)
    }

    /// Creates a new, reusable [`DepthFirstSearcher`] with no node open.
    pub fn new() -> (searcher: Self)
        ensures
            searcher@ == Seq::<bool>::empty(),
    {
        Self { visits: Vec::new(), nodes: Vec::new(), parameters: Vec::new() }
    }

    /// Returns, by node index, whether the node is open to the search.
    pub fn nodes(&self) -> (open: &Vec<bool>)
        ensures
            open@ == self@,
    {
        &self.nodes
    }

    /// Returns the marks of the open nodes for writing.
    pub fn nodes_mut(&mut self) -> (open: &mut Vec<bool>)
        ensures
            open@ == old(self)@,
            final(self)@ == final(open)@,
    {
        &mut self.nodes
    }

    /// Appends the producers of the links to the buffer, the first of them
    /// last, and returns the part of the buffer that holds them.
    fn store(&mut self, links: &[Link]) -> (range: (usize, usize))
        ensures
            final(self).nodes == old(self).nodes,
            final(self).visits == old(self).visits,
            range.0 == old(self).parameters@.len(),
            range.1 == final(self).parameters@.len(),
            range.1 == range.0 + links@.len(),
            forall|i: int|
                0 <= i < range.0 ==> final(self).parameters@[i] == old(self).parameters@[i],
            forall|event: Event|
                pending(final(self).parameters@, Visit { event, start: range.0, end: range.1 })
                    == visits(links@),
    {
        let start = self.parameters.len();
        let mut i: usize = links.len();
        while i > 0
            invariant
                i <= links@.len(),
                start == old(self).parameters@.len(),
                self.nodes == old(self).nodes,
                self.visits == old(self).visits,
                self.parameters@.len() == start + (links@.len() - i),
                forall|k: int| 0 <= k < start ==> self.parameters@[k] == old(self).parameters@[k],
                forall|k: int|
                    i <= k < links@.len() ==> self.parameters@[start + (links@.len() - 1 - k)]
                        == links@[k].node,
            decreases i,
        {
            i -= 1;
            self.parameters.push(links[i].node);
        }
        let end = self.parameters.len();
        proof {
            assert forall|event: Event|
                pending(self.parameters@, Visit { event, start, end }) == visits(links@) by {
                assert(pending(self.parameters@, Visit { event, start, end }) =~= visits(links@));
            }
        }
        (start, end)
    }

    /// Puts the visits of the node on the stack and closes the node, unless
    /// the key names no node or the node is not open.
    fn queue_node<N: Parameters>(&mut self, nodes: &Nodes<N>, id: Id)
        requires
            nodes.well_formed(),
            ranged(old(self).parameters@.len() as int, old(self).visits@),
        ensures
            ranged(final(self).parameters@.len() as int, final(self).visits@),
            final(self).nodes@.len() == old(self).nodes@.len(),
            ({
                let graph = nodes.graph();
                let open = marked(graph, old(self).nodes@);
                if graph.dom().contains(id) && open.contains(id) {
                    &&& marked(graph, final(self).nodes@) == open.remove(id)
                    &&& final(self).rest() == seq![Task::Emit(Event::PreNode { id })] + tasks(
                        graph,
                        id,
                    ) + old(self).rest()
                } else {
                    &&& final(self).nodes == old(self).nodes
                    &&& final(self).visits == old(self).visits
                    &&& final(self).parameters == old(self).parameters
                }
            }),
    {
        let ghost graph = nodes.graph();
        proof {
            nodes.lemma_graph();
        }
        let index = id.index();
        if !(index < self.nodes.len() && self.nodes[index] && nodes.contains(id)) {
            return ;
        }
        let node = match nodes.get(id) {
            Some(node) => node,
            None => {
                return ;
            },
        };
        self.nodes[index] = false;
        proof {
            assert(marked(graph, self.nodes@) =~= marked(graph, old(self).nodes@).remove(id));
        }
        let regions = match node {
            Node::Compound(compound) => compound.regions(),
            _ => &[],
        };
        let ghost below = old(self).rest();
        let mut region: usize = regions.len();
        proof {
            assert(regions@ == graph[id].regions);
            assert(regions_tasks(graph, id, region as int) + below =~= below);
        }
        while region > 0
            invariant
                nodes.well_formed(),
                graph == nodes.graph(),
                graph.dom().contains(id),
                regions@ == graph[id].regions,
                region <= regions@.len(),
                self.nodes@ == old(self).nodes@.update(index as int, false),
                ranged(self.parameters@.len() as int, self.visits@),
                self.rest() == regions_tasks(graph, id, region as int) + below,
            decreases region,
        {
            region -= 1;
            let list = match nodes.get(regions[region].end) {
                Some(end) => end.parameters(),
                None => &[],
            };
            assert(list@ == results(graph, graph[id].regions[region as int].end));
            let ghost buffer = self.parameters@;
            let ghost stack = self.visits@;
            let ghost before = self.rest();
            let (start, end) = self.store(list);
            let post = Visit { event: Event::PostRegion { id, region }, start, end };
            self.visits.push(post);
            let at = self.parameters.len();
            let pre = Visit { event: Event::PreRegion { id, region }, start: at, end: at };
            self.visits.push(pre);
            proof {
                lemma_frame(buffer, self.parameters@, stack, buffer.len() as int);
                lemma_push(self.parameters@, stack, post);
                lemma_push(self.parameters@, stack.push(post), pre);
                assert(pending(self.parameters@, pre) =~= Seq::<Task>::empty());
                assert(visit_tasks(self.parameters@, pre) + (visit_tasks(self.parameters@, post)
                    + before) =~= region_tasks(graph, id, region as int) + before);
                assert(region_tasks(graph, id, region as int) + (regions_tasks(
                    graph,
                    id,
                    region + 1,
                ) + below) =~= regions_tasks(graph, id, region as int) + below);
            }
        }
        let ghost buffer = self.parameters@;
        let ghost stack = self.visits@;
        let ghost before = self.rest();
        let (start, end) = self.store(node.parameters());
        let post = Visit { event: Event::PostNode { id }, start, end };
        self.visits.push(post);
        let at = self.parameters.len();
        let pre = Visit { event: Event::PreNode { id }, start: at, end: at };
        self.visits.push(pre);
        proof {
            lemma_frame(buffer, self.parameters@, stack, buffer.len() as int);
            lemma_push(self.parameters@, stack, post);
            lemma_push(self.parameters@, stack.push(post), pre);
            assert(pending(self.parameters@, pre) =~= Seq::<Task>::empty());
            assert(visit_tasks(self.parameters@, pre) + (visit_tasks(self.parameters@, post) + (
            regions_tasks(graph, id, 0) + below)) =~= seq![Task::Emit(Event::PreNode { id })]
                + tasks(graph, id) + below);
        }
    }

    /// Searches the graph from `start` and returns the events in the order
    /// in which they occur.
    ///
    /// Only nodes that are open are entered, and a node that is entered is
    /// closed. At a node, its arrival is reported, then the producers of its
    /// links are searched in port order, then that is reported; then each of
    /// its regions is entered in declaration order, the producers of its
    /// results are searched, and the region is left.
    pub fn run<N: Parameters>(&mut self, nodes: &Nodes<N>, start: Id) -> (found: Vec<Event>)
        requires
            nodes.well_formed(),
        ensures
            found@ == events(
                nodes.graph(),
                marked(nodes.graph(), old(self)@),
                start,
            ),
            marked(nodes.graph(), final(self)@) == explore(
                nodes.graph(),
                marked(nodes.graph(), old(self)@),
                seq![Task::Visit(start)],
                0,
            ).1,
            final(self)@.len() == old(self)@.len(),
    {
        let ghost graph = nodes.graph();
        let ghost open = marked(graph, self.nodes@);
        let ghost goal = explore(graph, open, seq![Task::Visit(start)], 0);
        proof {
            nodes.lemma_graph();
        }
        self.visits.clear();
        self.parameters.clear();
        let mut found: Vec<Event> = Vec::new();
        assert(self.rest() =~= Seq::<Task>::empty());
        self.queue_node(nodes, start);
        proof {
            let first = seq![Task::Visit(start)];
            lemma_explore_step(graph, open, first, 0);
            assert(explore(graph, open, first, 1) == (Seq::<Event>::empty(), open));
            if graph.dom().contains(start) && open.contains(start) {
                let own = tasks(graph, start);
                let arrival = seq![Task::Emit(Event::PreNode { id: start })];
                let inner = explore(graph, open.remove(start), own, 0);
                assert(explore(graph, inner.1, first, 1) == (Seq::<Event>::empty(), inner.1));
                assert(arrival + own + Seq::<Task>::empty() =~= arrival + own);
                lemma_explore_step(graph, open.remove(start), arrival + own, 0);
                lemma_explore_shifted(graph, open.remove(start), arrival, own, 0);
                assert(seq![Event::PreNode { id: start }] + inner.0 + Seq::<Event>::empty()
                    =~= seq![Event::PreNode { id: start }] + inner.0);
            }
            assert(Seq::<Event>::empty() + explore(graph, marked(graph, self.nodes@), self.rest(), 0).0
                =~= goal.0);
        }
        loop
            invariant
                nodes.well_formed(),
                graph == nodes.graph(),
                graph.dom().finite(),
                self.nodes@.len() == old(self).nodes@.len(),
                ranged(self.parameters@.len() as int, self.visits@),
                found@ + explore(graph, marked(graph, self.nodes@), self.rest(), 0).0 == goal.0,
                explore(graph, marked(graph, self.nodes@), self.rest(), 0).1 == goal.1,
            ensures
                found@ == goal.0,
                marked(graph, self.nodes@) == goal.1,
                self.nodes@.len() == old(self).nodes@.len(),
            decreases open_nodes(graph, marked(graph, self.nodes@)), work(self.visits@),
        {
            let ghost active = marked(graph, self.nodes@);
            let ghost buffer = self.parameters@;
            let ghost stack = self.visits@;
            let ghost before = self.rest();
            let visit = match self.visits.pop() {
                Some(visit) => visit,
                None => {
                    proof {
                        assert(found@ + Seq::<Event>::empty() =~= found@);
                    }
                    break ;
                },
            };
            let ghost lower = stack.drop_last();
            proof {
                assert(stack =~= lower.push(visit));
                assert(self.visits@ =~= lower);
                assert(stack[stack.len() - 1] == visit);
                lemma_push(buffer, lower, visit);
                lemma_explore_step(graph, active, before, 0);
            }
            if visit.start < visit.end {
                let parameter = self.parameters[visit.end - 1];
                let shorter = Visit { event: visit.event, start: visit.start, end: visit.end - 1 };
                self.visits.push(shorter);
                proof {
                    lemma_push(buffer, lower, shorter);
                    let middle = self.rest();
                    let first = seq![Task::Visit(parameter)];
                    assert(visit_tasks(buffer, visit) =~= first + visit_tasks(buffer, shorter));
                    assert(before =~= first + middle);
                    lemma_explore_shifted(graph, active, first, middle, 0);
                    if graph.dom().contains(parameter) && active.contains(parameter) {
                        let own = tasks(graph, parameter);
                        let arrival = seq![Task::Emit(Event::PreNode { id: parameter })];
                        let closed = active.remove(parameter);
                        let inner = explore(graph, closed, own, 0);
                        lemma_explore_shifted(graph, inner.1, first, middle, 0);
                        lemma_explore_joined(graph, closed, own, middle, 0);
                        lemma_explore_step(graph, closed, arrival + own + middle, 0);
                        assert(arrival + own + middle =~= arrival + (own + middle));
                        lemma_explore_shifted(graph, closed, arrival, own + middle, 0);
                        lemma_open_remove(graph, active, parameter);
                        let after = explore(graph, inner.1, middle, 0);
                        assert(seq![Event::PreNode { id: parameter }] + (inner.0 + after.0)
                            =~= seq![Event::PreNode { id: parameter }] + inner.0 + after.0);
                    }
                }
                self.queue_node(nodes, parameter);
            } else {
                found.push(visit.event);
                self.parameters.truncate(visit.start);
                proof {
                    let first = seq![Task::Emit(visit.event)];
                    assert(pending(buffer, visit) =~= Seq::<Task>::empty());
                    assert(visit_tasks(buffer, visit) =~= first);
                    lemma_frame(buffer, self.parameters@, lower, visit.start as int);
                    let middle = self.rest();
                    assert(before =~= first + middle);
                    lemma_explore_shifted(graph, active, first, middle, 0);
                    let rest = explore(graph, active, middle, 0);
                    assert(found@ + rest.0 =~= found@.drop_last() + (seq![visit.event] + rest.0));
                }
            }
        }
        found
    }
}

impl Default for DepthFirstSearcher {
    /// Creates a new, reusable [`DepthFirstSearcher`] with no node open.
    fn default() -> (searcher: Self)
        ensures
            searcher@ == Seq::<bool>::empty(),
    {
        Self::new()
    }
}

} // verus!
