//! The events of a depth-first search, as a mathematical function of the
//! graph.

use vstd::prelude::*;
use crate::data_flow::link::{Id, Link};
use crate::data_flow::node::Shape;

verus! {

/// What a depth-first search reports.
#[derive(Clone, Copy, Debug, Hash, PartialEq, Eq, Structural)]
pub enum Event {
    /// The search has arrived at the node.
    PreNode { id: Id },
    /// The producers of the links of the node have been searched.
    PostNode { id: Id },
    /// The search enters the region of the node.
    PreRegion { id: Id, region: usize },
    /// The producers of the results of the region have been searched.
    PostRegion { id: Id, region: usize },
}

/// One step of a search: a node to search, or an event to report.
pub enum Task {
    Visit(Id),
    Emit(Event),
}

/// The search of the producer of each link, in port order.
pub open spec fn visits(links: Seq<Link>) -> Seq<Task> {
    Seq::new(links.len(), |i: int| Task::Visit(links[i].node))
}

/// The results of a region: the links that its end marker reads, or none if
/// the marker is not in the graph.
pub open spec fn results(graph: Map<Id, Shape>, end: Id) -> Seq<Link> {
    if graph.dom().contains(end) {
        graph[end].links
    } else {
        Seq::empty()
    }
}

/// The steps for one region of a node: the region is entered, the producers
/// of its results are searched, and the region is left.
pub open spec fn region_tasks(graph: Map<Id, Shape>, id: Id, region: int) -> Seq<Task> {
    seq![Task::Emit(Event::PreRegion { id, region: region as usize })] + visits(
        results(graph, graph[id].regions[region].end),
    ) + seq![Task::Emit(Event::PostRegion { id, region: region as usize })]
}

/// The steps for the regions of a node from `from` on, in declaration order.
pub open spec fn regions_tasks(graph: Map<Id, Shape>, id: Id, from: int) -> Seq<Task>
    decreases graph[id].regions.len() - from,
{
    if 0 <= from < graph[id].regions.len() {
        region_tasks(graph, id, from) + regions_tasks(graph, id, from + 1)
    } else {
        Seq::empty()
    }
}

/// The steps for a node at which the search has arrived: the producers of
/// its links are searched, that is reported, and then its regions are taken
/// one by one.
pub open spec fn tasks(graph: Map<Id, Shape>, id: Id) -> Seq<Task> {
    visits(graph[id].links) + seq![Task::Emit(Event::PostNode { id })] + regions_tasks(
        graph,
        id,
        0,
    )
}

/// Whether the step reports an arrival.
pub open spec fn arrives(task: Task) -> bool {
    task is Emit && task->Emit_0 is PreNode
}

/// The number of nodes of the graph that the search may still enter.
pub open spec fn open_nodes(graph: Map<Id, Shape>, active: Set<Id>) -> nat {
    graph.dom().intersect(active).len()
}

/// Closing a node of the graph that was open leaves one open node less.
pub proof fn lemma_open_remove(graph: Map<Id, Shape>, active: Set<Id>, id: Id)
    requires
        graph.dom().finite(),
        graph.dom().contains(id),
        active.contains(id),
    ensures
        open_nodes(graph, active.remove(id)) + 1 == open_nodes(graph, active),
{
    let before = graph.dom().intersect(active);
    assert(graph.dom().intersect(active.remove(id)) =~= before.remove(id));
    vstd::set_lib::lemma_len_subset(before, graph.dom());
}

/// The fewer nodes are open, the fewer may still be entered.
pub proof fn lemma_open_subset(graph: Map<Id, Shape>, fewer: Set<Id>, more: Set<Id>)
    requires
        graph.dom().finite(),
        fewer.subset_of(more),
    ensures
        open_nodes(graph, fewer) <= open_nodes(graph, more),
{
    vstd::set_lib::lemma_len_subset(graph.dom().intersect(more), graph.dom());
    vstd::set_lib::lemma_len_subset(graph.dom().intersect(fewer), graph.dom().intersect(more));
}

/// Takes the steps of `list` from `position` on and returns the events
/// reported and the nodes that are open in the end.
///
/// An event is reported as it stands. A node is entered only if it is a
/// node of the graph and open: it is closed, the arrival is reported, and
/// its own steps are taken.
///
/// The test that nodes are only ever closed never fails
/// (`lemma_explore_closes`); it stands here because the definition has to
/// terminate before anything can be proved of it.
pub open spec fn explore(
    graph: Map<Id, Shape>,
    active: Set<Id>,
    list: Seq<Task>,
    position: nat,
) -> (Seq<Event>, Set<Id>)
    decreases open_nodes(graph, active), list.len() - position,
    when graph.dom().finite()
{
    if position >= list.len() {
        (Seq::empty(), active)
    } else {
        match list[position as int] {
            Task::Emit(event) => {
                let rest = explore(graph, active, list, position + 1);
                (seq![event] + rest.0, rest.1)
            },
            Task::Visit(id) => {
                let first = if graph.dom().contains(id) && active.contains(id) {
                    proof {
                        lemma_open_remove(graph, active, id);
                    }
                    let below = explore(graph, active.remove(id), tasks(graph, id), 0);
                    (seq![Event::PreNode { id }] + below.0, below.1)
                } else {
                    (Seq::empty(), active)
                };
                if first.1.subset_of(active) {
                    proof {
                        lemma_open_subset(graph, first.1, active);
                    }
                    let rest = explore(graph, first.1, list, position + 1);
                    (first.0 + rest.0, rest.1)
                } else {
                    first
                }
            },
        }
    }
}

/// The events of a depth-first search from `start` among the open nodes.
pub open spec fn events(graph: Map<Id, Shape>, active: Set<Id>, start: Id) -> Seq<Event> {
    explore(graph, active, seq![Task::Visit(start)], 0).0
}

/// A search only closes nodes.
pub proof fn lemma_explore_closes(
    graph: Map<Id, Shape>,
    active: Set<Id>,
    list: Seq<Task>,
    position: nat,
)
    requires
        graph.dom().finite(),
    ensures
        explore(graph, active, list, position).1.subset_of(active),
    decreases open_nodes(graph, active), list.len() - position,
{
    if position < list.len() {
        match list[position as int] {
            Task::Emit(event) => {
                lemma_explore_closes(graph, active, list, position + 1);
            },
            Task::Visit(id) => {
                if graph.dom().contains(id) && active.contains(id) {
                    lemma_open_remove(graph, active, id);
                    lemma_explore_closes(graph, active.remove(id), tasks(graph, id), 0);
                    let first = explore(graph, active.remove(id), tasks(graph, id), 0);
                    lemma_open_subset(graph, first.1, active);
                    lemma_explore_closes(graph, first.1, list, position + 1);
                } else {
                    lemma_explore_closes(graph, active, list, position + 1);
                }
            },
        }
    }
}

/// One step of a search: the step at `position` is taken, then the rest of
/// the list.
pub proof fn lemma_explore_step(
    graph: Map<Id, Shape>,
    active: Set<Id>,
    list: Seq<Task>,
    position: nat,
)
    requires
        graph.dom().finite(),
        position < list.len(),
    ensures
        ({
            let rest = explore(graph, active, list, position + 1);
            match list[position as int] {
                Task::Emit(event) => explore(graph, active, list, position) == (
                    seq![event] + rest.0,
                    rest.1,
                ),
                Task::Visit(id) => if graph.dom().contains(id) && active.contains(id) {
                    let first = explore(graph, active.remove(id), tasks(graph, id), 0);
                    let after = explore(graph, first.1, list, position + 1);
                    explore(graph, active, list, position) == (
                        seq![Event::PreNode { id }] + first.0 + after.0,
                        after.1,
                    )
                } else {
                    explore(graph, active, list, position) == rest
                },
            }
        }),
{
    match list[position as int] {
        Task::Emit(event) => {},
        Task::Visit(id) => {
            if graph.dom().contains(id) && active.contains(id) {
                lemma_explore_closes(graph, active.remove(id), tasks(graph, id), 0);
            } else {
                let rest = explore(graph, active, list, position + 1);
                assert(Seq::<Event>::empty() + rest.0 =~= rest.0);
            }
        },
    }
}

/// Taking the steps of one list and then those of another comes to taking
/// the steps of the two lists joined.
pub proof fn lemma_explore_joined(
    graph: Map<Id, Shape>,
    active: Set<Id>,
    first: Seq<Task>,
    second: Seq<Task>,
    position: nat,
)
    requires
        graph.dom().finite(),
        position <= first.len(),
    ensures
        ({
            let head = explore(graph, active, first, position);
            let tail = explore(graph, head.1, second, 0);
            explore(graph, active, first + second, position) == (head.0 + tail.0, tail.1)
        }),
    decreases open_nodes(graph, active), first.len() - position,
{
    let joined = first + second;
    if position < first.len() {
        assert(joined[position as int] == first[position as int]);
        lemma_explore_step(graph, active, first, position);
        lemma_explore_step(graph, active, joined, position);
        match first[position as int] {
            Task::Emit(event) => {
                lemma_explore_joined(graph, active, first, second, position + 1);
                let rest = explore(graph, active, first, position + 1);
                let tail = explore(graph, rest.1, second, 0);
                assert(seq![event] + (rest.0 + tail.0) =~= (seq![event] + rest.0) + tail.0);
            },
            Task::Visit(id) => {
                if graph.dom().contains(id) && active.contains(id) {
                    let inner = explore(graph, active.remove(id), tasks(graph, id), 0);
                    lemma_open_remove(graph, active, id);
                    lemma_explore_closes(graph, active.remove(id), tasks(graph, id), 0);
                    lemma_open_subset(graph, inner.1, active);
                    lemma_explore_joined(graph, inner.1, first, second, position + 1);
                    let rest = explore(graph, inner.1, first, position + 1);
                    let tail = explore(graph, rest.1, second, 0);
                    let arrival = seq![Event::PreNode { id }];
                    assert(arrival + inner.0 + (rest.0 + tail.0) =~= (arrival + inner.0 + rest.0)
                        + tail.0);
                } else {
                    lemma_explore_joined(graph, active, first, second, position + 1);
                }
            },
        }
    } else {
        lemma_explore_shifted(graph, active, first, second, 0);
        let tail = explore(graph, active, second, 0);
        assert(Seq::<Event>::empty() + tail.0 =~= tail.0);
    }
}

/// The steps of a list that stands behind another are taken as if the list
/// stood alone.
pub proof fn lemma_explore_shifted(
    graph: Map<Id, Shape>,
    active: Set<Id>,
    first: Seq<Task>,
    second: Seq<Task>,
    position: nat,
)
    requires
        graph.dom().finite(),
        position <= second.len(),
    ensures
        explore(graph, active, first + second, first.len() + position) == explore(
            graph,
            active,
            second,
            position,
        ),
    decreases open_nodes(graph, active), second.len() - position,
{
    let joined = first + second;
    let at = first.len() + position;
    if position < second.len() {
        assert(joined[at as int] == second[position as int]);
        lemma_explore_step(graph, active, second, position);
        lemma_explore_step(graph, active, joined, at);
        match second[position as int] {
            Task::Emit(event) => {
                lemma_explore_shifted(graph, active, first, second, position + 1);
            },
            Task::Visit(id) => {
                if graph.dom().contains(id) && active.contains(id) {
                    let inner = explore(graph, active.remove(id), tasks(graph, id), 0);
                    lemma_open_remove(graph, active, id);
                    lemma_explore_closes(graph, active.remove(id), tasks(graph, id), 0);
                    lemma_open_subset(graph, inner.1, active);
                    lemma_explore_shifted(graph, inner.1, first, second, position + 1);
                } else {
                    lemma_explore_shifted(graph, active, first, second, position + 1);
                }
            },
        }
    }
}

/// The nodes at which the events say that the search arrived, in order.
pub open spec fn entered(events: Seq<Event>) -> Seq<Id>
    decreases events.len(),
{
    if events.len() == 0 {
        Seq::empty()
    } else {
        match events.last() {
            Event::PreNode { id } => entered(events.drop_last()).push(id),
            _ => entered(events.drop_last()),
        }
    }
}

/// The arrivals of two runs of events, one after the other.
pub proof fn lemma_entered_joined(first: Seq<Event>, second: Seq<Event>)
    ensures
        entered(first + second) == entered(first) + entered(second),
    decreases second.len(),
{
    if second.len() == 0 {
        assert(first + second =~= first);
        assert(entered(first) + Seq::<Id>::empty() =~= entered(first));
    } else {
        let all = first + second;
        assert(all.drop_last() =~= first + second.drop_last());
        assert(all.last() == second.last());
        lemma_entered_joined(first, second.drop_last());
        match second.last() {
            Event::PreNode { id } => {
                assert((entered(first) + entered(second.drop_last())).push(id) =~= entered(first)
                    + entered(second.drop_last()).push(id));
            },
            _ => {},
        }
    }
}

/// A search arrives only at nodes of the graph that were open, arrives at
/// each of them once, and leaves them closed, provided that the list itself
/// is not made to report an arrival.
pub proof fn lemma_entered_once(
    graph: Map<Id, Shape>,
    active: Set<Id>,
    list: Seq<Task>,
    position: nat,
)
    requires
        graph.dom().finite(),
        forall|k: int| position <= k < list.len() ==> !arrives(#[trigger] list[k]),
    ensures
        ({
            let found = explore(graph, active, list, position);
            &&& entered(found.0).no_duplicates()
            &&& forall|id: Id| #[trigger]
                entered(found.0).contains(id) ==> graph.dom().contains(id) && active.contains(id)
                    && !found.1.contains(id)
        }),
    decreases open_nodes(graph, active), list.len() - position,
{
    let found = explore(graph, active, list, position);
    if position < list.len() {
        lemma_explore_step(graph, active, list, position);
        reveal_with_fuel(entered, 2);
        match list[position as int] {
            Task::Emit(event) => {
                let rest = explore(graph, active, list, position + 1);
                lemma_entered_once(graph, active, list, position + 1);
                lemma_entered_joined(seq![event], rest.0);
                assert(seq![event].drop_last() =~= Seq::<Event>::empty());
                assert(!arrives(list[position as int]));
                assert(entered(seq![event]) =~= Seq::<Id>::empty());
                assert(Seq::<Id>::empty() + entered(rest.0) =~= entered(rest.0));
            },
            Task::Visit(id) => {
                if graph.dom().contains(id) && active.contains(id) {
                    let own = tasks(graph, id);
                    let inner = explore(graph, active.remove(id), own, 0);
                    let rest = explore(graph, inner.1, list, position + 1);
                    let arrival = seq![Event::PreNode { id }];
                    lemma_open_remove(graph, active, id);
                    lemma_explore_closes(graph, active.remove(id), own, 0);
                    lemma_open_subset(graph, inner.1, active);
                    lemma_explore_closes(graph, inner.1, list, position + 1);
                    assert forall|k: int| 0 <= k < own.len() implies !arrives(#[trigger] own[k]) by {
                        lemma_tasks_quiet(graph, id, k);
                    }
                    lemma_entered_once(graph, active.remove(id), own, 0);
                    lemma_entered_once(graph, inner.1, list, position + 1);
                    lemma_entered_joined(arrival + inner.0, rest.0);
                    lemma_entered_joined(arrival, inner.0);
                    assert(arrival.drop_last() =~= Seq::<Event>::empty());
                    assert(entered(arrival) =~= seq![id]);
                    let all = seq![id] + entered(inner.0) + entered(rest.0);
                    assert(entered(found.0) == all);
                    assert forall|x: Id| all.contains(x) implies x == id || entered(
                        inner.0,
                    ).contains(x) || entered(rest.0).contains(x) by {
                        let k = choose|k: int| 0 <= k < all.len() && all[k] == x;
                        if k == 0 {
                        } else if k < 1 + entered(inner.0).len() {
                            assert(entered(inner.0)[k - 1] == x);
                        } else {
                            assert(entered(rest.0)[k - 1 - entered(inner.0).len()] == x);
                        }
                    }
                    let first = entered(inner.0);
                    let second = entered(rest.0);
                    assert forall|k: int| 0 <= k < first.len() implies first[k] != id
                        && !inner.1.contains(#[trigger] first[k]) by {
                        assert(first.contains(first[k]));
                    }
                    assert forall|k: int| 0 <= k < second.len() implies second[k] != id
                        && inner.1.contains(#[trigger] second[k]) by {
                        assert(second.contains(second[k]));
                    }
                    assert(all.no_duplicates()) by {
                        assert forall|a: int, b: int|
                            0 <= a < all.len() && 0 <= b < all.len() && a != b implies all[a]
                            != all[b] by {
                            if 1 <= a < 1 + first.len() {
                                assert(all[a] == first[a - 1]);
                            } else if a >= 1 + first.len() {
                                assert(all[a] == second[a - 1 - first.len()]);
                            }
                            if 1 <= b < 1 + first.len() {
                                assert(all[b] == first[b - 1]);
                            } else if b >= 1 + first.len() {
                                assert(all[b] == second[b - 1 - first.len()]);
                            }
                        }
                    }
                    assert forall|x: Id| entered(found.0).contains(x) implies graph.dom().contains(
                        x,
                    ) && active.contains(x) && !found.1.contains(x) by {
                        if x == id {
                        } else if first.contains(x) {
                        } else {
                            assert(second.contains(x));
                        }
                    }
                } else {
                    lemma_entered_once(graph, active, list, position + 1);
                }
            },
        }
    } else {
        assert(entered(found.0) =~= Seq::<Id>::empty());
    }
}

/// The steps of a node report no arrival.
pub proof fn lemma_tasks_quiet(graph: Map<Id, Shape>, id: Id, k: int)
    requires
        0 <= k < tasks(graph, id).len(),
    ensures
        !arrives(tasks(graph, id)[k]),
{
    let links = visits(graph[id].links);
    if k > links.len() {
        lemma_regions_quiet(graph, id, 0, k - links.len() - 1);
    }
}

/// The steps of the regions of a node report no arrival.
pub proof fn lemma_regions_quiet(graph: Map<Id, Shape>, id: Id, from: int, k: int)
    requires
        0 <= from,
        0 <= k < regions_tasks(graph, id, from).len(),
    ensures
        !arrives(regions_tasks(graph, id, from)[k]),
    decreases graph[id].regions.len() - from,
{
    if from < graph[id].regions.len() {
        let own = region_tasks(graph, id, from);
        if k >= own.len() {
            lemma_regions_quiet(graph, id, from + 1, k - own.len());
        }
    }
}

} // verus!
