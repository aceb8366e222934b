//! The successors of each node: the nodes that read from it.

use vstd::prelude::*;
use tinyvec::TinyVec;
use crate::data_flow::link::Id;
use crate::data_flow::node::{Parameters, Shape};
use crate::data_flow::nodes::{bound, distinct_indices, Nodes};
use crate::visit::depth_first_searcher::DepthFirstSearcher;
use crate::visit::events::{
    arrives,
    entered,
    events,
    explore,
    lemma_entered_joined,
    lemma_entered_once,
    Event,
    Task,
};
use crate::visit::laws::{lemma_emits_once, lemma_walk_facts};
use crate::visit::order::{post_order, reached};
use crate::visit::reverse_topological::{flags_within, marked, ReverseTopological};

verus! {

/// The successors of one node, kept inline while there are no more than two.
#[verifier::external_body]
pub struct SuccessorList {
    items: TinyVec<[Id; 2]>,
}

/// The keys that a list holds, in order.
pub uninterp spec fn successor_items(list: SuccessorList) -> Seq<Id>;

impl View for SuccessorList {
    type V = Seq<Id>;

    open spec fn view(&self) -> Seq<Id> {
        successor_items(*self)
    }
}

/// `TinyVec::new`: a list that holds nothing.
#[verifier::external_body]
fn successors_new() -> (list: SuccessorList)
    ensures
        successor_items(list) == Seq::<Id>::empty(),
{
    SuccessorList { items: TinyVec::new() }
}

/// `TinyVec::clear`: removes every item from the list.
#[verifier::external_body]
fn successors_clear(list: &mut SuccessorList)
    ensures
        successor_items(*final(list)) == Seq::<Id>::empty(),
{
    list.items.clear()
}

/// `TinyVec::push`: appends one item at the end and keeps the others in place.
#[verifier::external_body]
fn successors_push(list: &mut SuccessorList, id: Id)
    ensures
        successor_items(*final(list)) == successor_items(*old(list)).push(id),
{
    list.items.push(id)
}

/// `TinyVec::as_slice`: the items of the list, in order.
#[verifier::external_body]
fn successors_as_slice(list: &SuccessorList) -> (items: &[Id])
    ensures
        items@ == successor_items(*list),
{
    list.items.as_slice()
}

impl SuccessorList {
    /// The keys of the list, in order.
    pub fn as_slice(&self) -> (items: &[Id])
        ensures
            items@ == self@,
    {
        successors_as_slice(self)
    }

    /// Whether the list holds the key.
    pub fn contains(&self, id: Id) -> (found: bool)
        ensures
            found == self@.contains(id),
    {
        let items = successors_as_slice(self);
        let mut i: usize = 0;
        while i < items.len()
            invariant
                i <= items@.len(),
                items@ == self@,
                forall|k: int| 0 <= k < i ==> items@[k] != id,
            decreases items@.len() - i,
        {
            if items[i] == id {
                return true;
            }
            i += 1;
        }
        false
    }
}

/// Whether the node reads from `producer` at some port.
pub open spec fn reads(shape: Shape, producer: Id) -> bool {
    exists|i: int| 0 <= i < shape.links.len() && (#[trigger] shape.links[i]).node == producer
}

/// The nodes of `order` that read from `producer`, in the order of `order`.
pub open spec fn successors_of(graph: Map<Id, Shape>, order: Seq<Id>, producer: Id) -> Seq<Id>
    decreases order.len(),
{
    if order.len() == 0 {
        Seq::empty()
    } else if reads(graph[order.last()], producer) {
        successors_of(graph, order.drop_last(), producer).push(order.last())
    } else {
        successors_of(graph, order.drop_last(), producer)
    }
}

/// A successor is one of the nodes of the order, and reads from the producer.
pub proof fn lemma_successors_of(graph: Map<Id, Shape>, order: Seq<Id>, producer: Id, id: Id)
    ensures
        successors_of(graph, order, producer).contains(id) <==> order.contains(id) && reads(
            graph[id],
            producer,
        ),
    decreases order.len(),
{
    if order.len() > 0 {
        let shorter = order.drop_last();
        let before = successors_of(graph, shorter, producer);
        lemma_successors_of(graph, shorter, producer, id);
        if order.contains(id) {
            let k = choose|k: int| 0 <= k < order.len() && order[k] == id;
            if k < shorter.len() {
                assert(shorter[k] == id);
            }
        }
        if shorter.contains(id) {
            let k = choose|k: int| 0 <= k < shorter.len() && shorter[k] == id;
            assert(order[k] == id);
        }
        assert(order[order.len() - 1] == order.last());
        if reads(graph[order.last()], producer) {
            let after = before.push(order.last());
            if after.contains(id) {
                let k = choose|k: int| 0 <= k < after.len() && after[k] == id;
                if k < before.len() {
                    assert(before[k] == id);
                }
            }
            if before.contains(id) {
                let k = choose|k: int| 0 <= k < before.len() && before[k] == id;
                assert(after[k] == id);
            }
            if id == order.last() {
                assert(after[before.len() as int] == id);
            }
        }
    }
}

/// The successors found along an order that names no node twice name no
/// node twice.
pub proof fn lemma_successors_once(graph: Map<Id, Shape>, order: Seq<Id>, producer: Id)
    requires
        order.no_duplicates(),
    ensures
        successors_of(graph, order, producer).no_duplicates(),
    decreases order.len(),
{
    if order.len() > 0 {
        let shorter = order.drop_last();
        let before = successors_of(graph, shorter, producer);
        lemma_successors_once(graph, shorter, producer);
        lemma_successors_of(graph, shorter, producer, order.last());
        if shorter.contains(order.last()) {
            let k = choose|k: int| 0 <= k < shorter.len() && shorter[k] == order.last();
            assert(order[k] == order[order.len() - 1]);
        }
        if reads(graph[order.last()], producer) {
            let after = before.push(order.last());
            assert forall|i: int, j: int|
                0 <= i < after.len() && 0 <= j < after.len() && i != j implies after[i]
                != after[j] by {
                if i < before.len() && j < before.len() {
                } else if i < before.len() {
                    assert(before.contains(before[i]));
                } else {
                    assert(before.contains(before[j]));
                }
            }
        }
    }
}

/// A node successor finder.
/// It caches the successors for each node after a traversal.
pub struct Successors {
    cache: Vec<SuccessorList>,
}

impl View for Successors {
    type V = Seq<Seq<Id>>;

    /// The cached successors by the index of the node they read from.
    closed spec fn view(&self) -> Seq<Seq<Id>> {
        Seq::new(self.cache@.len(), |i: int| self.cache@[i]@)
    }
}

impl Default for Successors {
    /// Creates a new, reusable [`Successors`] instance.
    fn default() -> (successors: Self)
        ensures
            successors@ == Seq::<Seq<Id>>::empty(),
    {
        Self::new()
    }
}

impl Successors {
    /// Creates a new, reusable [`Successors`] instance.
    pub fn new() -> (successors: Self)
        ensures
            successors@ == Seq::<Seq<Id>>::empty(),
    {
        let successors = Self { cache: Vec::new() };
        assert(successors@ =~= Seq::<Seq<Id>>::empty());
        successors
    }

    /// Returns the cached successors.
    pub fn cache(&self) -> (cache: &[SuccessorList])
        ensures
            cache@.len() == self@.len(),
            forall|i: int| 0 <= i < cache@.len() ==> (#[trigger] cache@[i])@ == self@[i],
    {
        self.cache.as_slice()
    }

    /// Clears the cache.
    pub fn clear(&mut self)
        ensures
            final(self)@ == Seq::<Seq<Id>>::empty(),
    {
        self.cache.clear();
        assert(self@ =~= Seq::<Seq<Id>>::empty());
    }

    /// Empties every list of the cache and makes the cache long enough for
    /// the indices below `active`.
    fn reset(&mut self, active: usize)
        ensures
            final(self).cache@.len() == if old(self).cache@.len() < active {
                active as nat
            } else {
                old(self).cache@.len()
            },
            forall|i: int|
                0 <= i < final(self).cache@.len() ==> (#[trigger] final(self).cache@[i])@
                    == Seq::<Id>::empty(),
    {
        let mut i: usize = 0;
        while i < self.cache.len()
            invariant
                i <= self.cache@.len(),
                self.cache@.len() == old(self).cache@.len(),
                forall|k: int| 0 <= k < i ==> (#[trigger] self.cache@[k])@ == Seq::<Id>::empty(),
            decreases self.cache@.len() - i,
        {
            successors_clear(&mut self.cache[i]);
            i += 1;
        }
        while self.cache.len() < active
            invariant
                self.cache@.len() >= old(self).cache@.len(),
                self.cache@.len() <= active || self.cache@.len() == old(self).cache@.len(),
                forall|k: int|
                    0 <= k < self.cache@.len() ==> (#[trigger] self.cache@[k])@ == Seq::<
                        Id,
                    >::empty(),
            decreases active - self.cache@.len(),
        {
            self.cache.push(successors_new());
        }
    }

    /// Notes `id` as a successor of the producer of each of its links that
    /// is in the store.
    fn note<N: Parameters>(&mut self, nodes: &Nodes<N>, id: Id, Ghost(order): Ghost<Seq<Id>>)
        requires
            nodes.well_formed(),
            nodes@.dom().contains(id),
            !order.contains(id),
            forall|p: Id| nodes@.dom().contains(p) ==> p.index < old(self).cache@.len(),
            forall|i: int| 0 <= i < old(self).cache@.len() ==> old(self).holds(nodes.graph(), order, i),
        ensures
            final(self).cache@.len() == old(self).cache@.len(),
            forall|i: int|
                0 <= i < final(self).cache@.len() ==> final(self).holds(
                    nodes.graph(),
                    order.push(id),
                    i,
                ),
    {
        let ghost graph = nodes.graph();
        proof {
            nodes.lemma_graph();
        }
        let node = match nodes.get(id) {
            Some(node) => node,
            None => {
                return ;
            },
        };
        let links = node.parameters();
        proof {
            assert(links@ == graph[id].links);
            assert forall|p: Id| graph.dom().contains(p) implies (#[trigger] self.cache@[p.index as int])@
                == successors_of(graph, order, p) by {
                assert(self.holds(graph, order, p.index as int));
            }
            assert forall|i: int|
                0 <= i < self.cache@.len() && !(exists|p: Id|
                    graph.dom().contains(p) && p.index == i) implies (#[trigger] self.cache@[i])@
                == Seq::<Id>::empty() by {
                assert(self.holds(graph, order, i));
            }
        }
        let mut j: usize = 0;
        while j < links.len()
            invariant
                nodes.well_formed(),
                graph == nodes.graph(),
                graph.dom() == nodes@.dom(),
                distinct_indices(graph.dom()),
                forall|p: Id| graph.dom().contains(p) ==> p.index < self.cache@.len(),
                !order.contains(id),
                j <= links@.len(),
                links@ == graph[id].links,
                self.cache@.len() == old(self).cache@.len(),
                forall|i: int|
                    0 <= i < self.cache@.len() && !(exists|p: Id|
                        graph.dom().contains(p) && p.index == i) ==> (#[trigger] self.cache@[i])@
                        == Seq::<Id>::empty(),
                forall|p: Id|
                    graph.dom().contains(p) ==> (#[trigger] self.cache@[p.index as int])@ == if exists|
                        k: int,
                    |
                        0 <= k < j && (#[trigger] links@[k]).node == p {
                        successors_of(graph, order, p).push(id)
                    } else {
                        successors_of(graph, order, p)
                    },
            decreases links@.len() - j,
        {
            let producer = links[j].node;
            if nodes.contains(producer) {
                let index = producer.index as usize;
                proof {
                    lemma_successors_of(graph, order, producer, id);
                    let before = successors_of(graph, order, producer);
                    if exists|k: int| 0 <= k < j && (#[trigger] links@[k]).node == producer {
                        assert(before.push(id)[before.len() as int] == id);
                    } else {
                        assert(!before.contains(id));
                    }
                }
                if !self.cache[index].contains(id) {
                    successors_push(&mut self.cache[index], id);
                }
                proof {
                    assert(links@[j as int].node == producer);
                }
            }
            j += 1;
        }
        proof {
            assert(order.push(id).drop_last() =~= order);
            assert forall|i: int| 0 <= i < self.cache@.len() implies self.holds(
                graph,
                order.push(id),
                i,
            ) by {
                if exists|p: Id| graph.dom().contains(p) && p.index == i {
                    let p = choose|p: Id| graph.dom().contains(p) && p.index == i;
                    assert(self.cache@[p.index as int]@ == successors_of(graph, order.push(id), p));
                }
            }
        }
    }

    /// Finds and caches all successors coming back from the roots: for each
    /// node of the store, the nodes that the traversal from the roots emits
    /// and that read from it, in the order of the traversal, each once. The
    /// cache grows to the length that the indices of the store need, and
    /// never shrinks.
    pub fn run<N: Parameters>(
        &mut self,
        nodes: &Nodes<N>,
        roots: &[Id],
        topological: &mut ReverseTopological,
    )
        requires
            nodes.well_formed(),
        ensures
            final(self)@.len() == if old(self)@.len() < bound(nodes.graph().dom()) {
                bound(nodes.graph().dom())
            } else {
                old(self)@.len()
            },
            forall|p: Id|
                nodes.graph().dom().contains(p) ==> p.index < final(self)@.len() && (
                #[trigger] final(self)@[p.index as int]) == successors_of(
                    nodes.graph(),
                    post_order(nodes.graph(), roots@),
                    p,
                ),
            forall|i: int| 0 <= i < final(self)@.len() ==> (#[trigger] final(self)@[i]).no_duplicates(),
            forall|i: int|
                0 <= i < final(self)@.len() && !(exists|p: Id|
                    nodes.graph().dom().contains(p) && p.index == i) ==> (#[trigger] final(self)@[i]) == Seq::<Id>::empty(),
            final(topological)@.len() == bound(nodes.graph().dom()),
            marked(nodes.graph(), final(topological)@) == reached(nodes.graph(), roots@),
            forall|i: int|
                0 <= i < final(topological)@.len() && final(topological)@[i] ==> exists|id: Id|
                    reached(nodes.graph(), roots@).contains(id) && id.index == i,
    {
        let ghost graph = nodes.graph();
        let ghost goal = post_order(graph, roots@);
        proof {
            nodes.lemma_graph();
            lemma_emits_once(graph, roots@);
            lemma_walk_facts(graph, Set::empty(), roots@, 0);
        }
        let active = nodes.active();
        self.reset(active);
        topological.set_up_roots(nodes, roots);
        let ghost mut order = Seq::<Id>::empty();
        proof {
            assert(order + topological.pending(graph) =~= goal);
        }
        loop
            invariant
                nodes.well_formed(),
                graph == nodes.graph(),
                graph.dom() == nodes@.dom(),
                goal == post_order(graph, roots@),
                goal.no_duplicates(),
                forall|k: int| 0 <= k < goal.len() ==> graph.dom().contains(#[trigger] goal[k]),
                topological.ready(graph),
                topological@.len() == bound(graph.dom()),
                topological.goal(graph) == reached(graph, roots@),
                order + topological.pending(graph) == goal,
                self.cache@.len() == if old(self)@.len() < bound(graph.dom()) {
                    bound(graph.dom())
                } else {
                    old(self)@.len()
                },
                forall|p: Id| graph.dom().contains(p) ==> p.index < self.cache@.len(),
                forall|i: int| 0 <= i < self.cache@.len() ==> self.holds(graph, order, i),
            ensures
                order == goal,
                topological@.len() == bound(graph.dom()),
                marked(graph, topological@) == reached(graph, roots@),
                flags_within(topological@, marked(graph, topological@)),
                self.cache@.len() == if old(self)@.len() < bound(graph.dom()) {
                    bound(graph.dom())
                } else {
                    old(self)@.len()
                },
                forall|p: Id| graph.dom().contains(p) ==> p.index < self.cache@.len(),
                forall|i: int| 0 <= i < self.cache@.len() ==> self.holds(graph, order, i),
            decreases topological.pending(graph).len(),
        {
            match topological.next_in(nodes) {
                Some(id) => {
                    proof {
                        let at = order.len() as int;
                        assert(goal[at] == id);
                        if order.contains(id) {
                            let k = choose|k: int| 0 <= k < order.len() && order[k] == id;
                            assert(goal[k] == id);
                        }
                    }
                    self.note(nodes, id, Ghost(order));
                    proof {
                        order = order.push(id);
                        assert(order + topological.pending(graph) =~= goal);
                    }
                },
                None => {
                    proof {
                        assert(order + Seq::<Id>::empty() =~= order);
                    }
                    break ;
                },
            }
        }
        proof {
            assert forall|p: Id| graph.dom().contains(p) implies p.index < self@.len() && (
            #[trigger] self@[p.index as int]) == successors_of(graph, goal, p) by {
                assert(self.holds(graph, order, p.index as int));
            }
            assert forall|i: int|
                0 <= i < self@.len() && !(exists|p: Id|
                    graph.dom().contains(p) && p.index == i) implies (#[trigger] self@[i]) == Seq::<
                Id,
            >::empty() by {
                assert(self.holds(graph, order, i));
            }
            assert forall|i: int| 0 <= i < self@.len() implies (#[trigger] self@[i]).no_duplicates() by {
                assert(self.holds(graph, order, i));
                if exists|p: Id| graph.dom().contains(p) && p.index == i {
                    let p = choose|p: Id| graph.dom().contains(p) && p.index == i;
                    lemma_successors_once(graph, goal, p);
                }
            }
        }
    }

    /// Whether the list at `index` holds the successors, among `order`, of
    /// the node with that index, or nothing if there is no such node.
    spec fn holds(&self, graph: Map<Id, Shape>, order: Seq<Id>, index: int) -> bool {
        &&& forall|p: Id|
            graph.dom().contains(p) && p.index == index ==> self.cache@[index]@ == successors_of(
                graph,
                order,
                p,
            )
        &&& !(exists|p: Id| graph.dom().contains(p) && p.index == index) ==> self.cache@[index]@
            == Seq::<Id>::empty()
    }
}

/// A node successor finder that searches depth first from one node.
/// It caches the successors for each node after a traversal.
pub struct SuccessorFinder {
    successors: Successors,
}

impl View for SuccessorFinder {
    type V = Seq<Seq<Id>>;

    /// The cached successors by the index of the node they read from.
    closed spec fn view(&self) -> Seq<Seq<Id>> {
        self.successors@
    }
}

impl Default for SuccessorFinder {
    /// Creates a new, reusable [`SuccessorFinder`] instance.
    fn default() -> (finder: Self)
        ensures
            finder@ == Seq::<Seq<Id>>::empty(),
    {
        Self::new()
    }
}

impl SuccessorFinder {
    /// Creates a new, reusable [`SuccessorFinder`] instance.
    pub fn new() -> (finder: Self)
        ensures
            finder@ == Seq::<Seq<Id>>::empty(),
    {
        Self { successors: Successors::new() }
    }

    /// Returns the cached successors.
    pub fn cache(&self) -> (cache: &[SuccessorList])
        ensures
            cache@.len() == self@.len(),
            forall|i: int| 0 <= i < cache@.len() ==> (#[trigger] cache@[i])@ == self@[i],
    {
        self.successors.cache()
    }

    /// Clears the cache.
    pub fn clear(&mut self)
        ensures
            final(self)@ == Seq::<Seq<Id>>::empty(),
    {
        self.successors.clear();
    }

    /// Finds and caches all successors coming back from the start: for each
    /// node of the store, the nodes at which a depth-first search from
    /// `start` arrives and that read from it, in the order of arrival, each
    /// once. Every node is open to the search. The cache grows to the length
    /// that the indices of the store need, and never shrinks.
    pub fn run<N: Parameters>(
        &mut self,
        nodes: &Nodes<N>,
        start: Id,
        searcher: &mut DepthFirstSearcher,
    )
        requires
            nodes.well_formed(),
        ensures
            final(self)@.len() == if old(self)@.len() < bound(nodes.graph().dom()) {
                bound(nodes.graph().dom())
            } else {
                old(self)@.len()
            },
            forall|p: Id|
                nodes.graph().dom().contains(p) ==> p.index < final(self)@.len() && (
                #[trigger] final(self)@[p.index as int]) == successors_of(
                    nodes.graph(),
                    entered(events(nodes.graph(), nodes.graph().dom(), start)),
                    p,
                ),
            forall|i: int|
                0 <= i < final(self)@.len() && !(exists|p: Id|
                    nodes.graph().dom().contains(p) && p.index == i) ==> (#[trigger] final(self)@[i]) == Seq::<Id>::empty(),
            final(searcher)@.len() == bound(nodes.graph().dom()),
            marked(nodes.graph(), final(searcher)@) == explore(
                nodes.graph(),
                nodes.graph().dom(),
                seq![Task::Visit(start)],
                0,
            ).1,
    {
        let ghost graph = nodes.graph();
        proof {
            nodes.lemma_graph();
        }
        let needed = nodes.active();
        self.successors.reset(needed);
        let active = searcher.nodes_mut();
        active.clear();
        while active.len() < needed
            invariant
                active@.len() <= needed,
                forall|i: int| 0 <= i < active@.len() ==> active@[i],
            decreases needed - active@.len(),
        {
            active.push(true);
        }
        assert(marked(graph, searcher@) =~= graph.dom());
        let found = searcher.run(nodes, start);
        let ghost arrivals = entered(found@);
        proof {
            let first = seq![Task::Visit(start)];
            assert forall|k: int| 0 <= k < first.len() implies !arrives(
                #[trigger] first[k],
            ) by {}
            lemma_entered_once(graph, graph.dom(), first, 0);
            assert(found@.take(0) =~= Seq::<Event>::empty());
        }
        let mut k: usize = 0;
        while k < found.len()
            invariant
                nodes.well_formed(),
                graph == nodes.graph(),
                graph.dom() == nodes@.dom(),
                k <= found@.len(),
                arrivals == entered(found@),
                arrivals.no_duplicates(),
                forall|id: Id| arrivals.contains(id) ==> graph.dom().contains(id),
                self.successors.cache@.len() == if old(self)@.len() < bound(graph.dom()) {
                    bound(graph.dom())
                } else {
                    old(self)@.len()
                },
                forall|p: Id| graph.dom().contains(p) ==> p.index < self.successors.cache@.len(),
                forall|i: int|
                    0 <= i < self.successors.cache@.len() ==> self.successors.holds(
                        graph,
                        entered(found@.take(k as int)),
                        i,
                    ),
            decreases found@.len() - k,
        {
            let ghost shorter = found@.take(k as int);
            let ghost longer = found@.take(k + 1);
            proof {
                assert(longer.drop_last() =~= shorter);
                assert(longer.last() == found@[k as int]);
                assert(found@ =~= longer + found@.skip(k + 1));
                lemma_entered_joined(longer, found@.skip(k + 1));
            }
            if let Event::PreNode { id } = found[k] {
                proof {
                    let order = entered(shorter);
                    let more = entered(longer);
                    let rest = entered(found@.skip(k + 1));
                    assert(more == order.push(id));
                    assert(arrivals[order.len() as int] == id);
                    assert(arrivals.contains(id));
                    if order.contains(id) {
                        let j = choose|j: int| 0 <= j < order.len() && order[j] == id;
                        assert(arrivals[j] == id);
                    }
                }
                self.successors.note(nodes, id, Ghost(entered(shorter)));
                assert(entered(longer) == entered(shorter).push(id));
            } else {
                assert(entered(longer) == entered(shorter));
            }
            k += 1;
        }
        proof {
            assert(found@.take(k as int) =~= found@);
            assert forall|p: Id| graph.dom().contains(p) implies p.index < self@.len() && (
            #[trigger] self@[p.index as int]) == successors_of(graph, arrivals, p) by {
                assert(self.successors.holds(graph, arrivals, p.index as int));
            }
            assert forall|i: int|
                0 <= i < self@.len() && !(exists|p: Id|
                    graph.dom().contains(p) && p.index == i) implies (#[trigger] self@[i]) == Seq::<
                Id,
            >::empty() by {
                assert(self.successors.holds(graph, arrivals, i));
            }
        }
    }
}

} // verus!
