//! What the constructors of the store do to the graph, and that they keep
//! it in order.

use vstd::prelude::*;
use crate::data_flow::invariants::{acyclic, apart, closed, lemma_extend, named, regions_apart};
use crate::data_flow::link::{Id, Link, Region};
use crate::data_flow::node::{Kind, Node, Parameters, Shape};
use crate::data_flow::nodes::{fresh_compound, fresh_region, graph_of, live_links, Nodes};

verus! {

/// The graph with a fresh region: a `Start` marker and an `End` marker that
/// collects nothing.
pub open spec fn with_region(graph: Map<Id, Shape>, region: Region) -> Map<Id, Shape> {
    graph.insert(region.start, Shape::start()).insert(region.end, Shape::end(Seq::empty()))
}

/// Whether a graph is in order: no link or region names a node that is not
/// there, no chain of dependencies leads back to where it began, and no two
/// regions share a marker.
pub open spec fn sound(graph: Map<Id, Shape>) -> bool {
    closed(graph) && acyclic(graph) && regions_apart(graph)
}

/// Whether all the links read from nodes of the graph.
pub open spec fn links_in(graph: Map<Id, Shape>, links: Seq<Link>) -> bool {
    forall|i: int| 0 <= i < links.len() ==> graph.dom().contains((#[trigger] links[i]).node)
}

/// What `add_region` does to the graph: it adds the two markers.
pub proof fn lemma_added_region<N: Parameters>(
    before: Map<Id, Node<N>>,
    after: Map<Id, Node<N>>,
    region: Region,
)
    requires
        fresh_region(before, after, region),
        after.dom() == before.dom().insert(region.start).insert(region.end),
    ensures
        graph_of(after) == with_region(graph_of(before), region),
{
    assert(graph_of(after) =~= with_region(graph_of(before), region));
}

/// What `add_compound`, `add_theta`, `add_lambda` and `add_phi` do to the
/// graph: they add a region and then the compound that owns it.
pub proof fn lemma_added_compound<N: Parameters>(
    before: Map<Id, Node<N>>,
    after: Map<Id, Node<N>>,
    id: Id,
    region: Region,
    kind: Kind,
    parameters: Seq<Link>,
)
    requires
        fresh_region(before, after, region),
        fresh_compound(before, after, id, kind, parameters, seq![region]),
        id != region.start,
        id != region.end,
        after.dom() == before.dom().insert(region.start).insert(region.end).insert(id),
    ensures
        graph_of(after) == with_region(graph_of(before), region).insert(
            id,
            Shape { kind, links: parameters, regions: seq![region] },
        ),
{
    assert(graph_of(after) =~= with_region(graph_of(before), region).insert(
        id,
        Shape { kind, links: parameters, regions: seq![region] },
    ));
}

/// What `add_gamma` and `add_gamma_unchecked` do to the graph: they add the
/// compound.
pub proof fn lemma_added_gamma<N: Parameters>(
    before: Map<Id, Node<N>>,
    after: Map<Id, Node<N>>,
    id: Id,
    parameters: Seq<Link>,
    regions: Seq<Region>,
)
    requires
        fresh_compound(before, after, id, Kind::Gamma, parameters, regions),
        after.dom() == before.dom().insert(id),
    ensures
        graph_of(after) == graph_of(before).insert(
            id,
            Shape { kind: Kind::Gamma, links: parameters, regions },
        ),
{
    assert(graph_of(after) =~= graph_of(before).insert(
        id,
        Shape { kind: Kind::Gamma, links: parameters, regions },
    ));
}

/// A node without regions whose links read from nodes of the graph can be
/// added under a new key to a graph in order: a simple node, or a marker.
pub proof fn lemma_sound_with_node(graph: Map<Id, Shape>, id: Id, shape: Shape)
    requires
        sound(graph),
        !graph.dom().contains(id),
        shape.regions.len() == 0,
        links_in(graph, shape.links),
    ensures
        sound(graph.insert(id, shape)),
{
    assert forall|i: int| 0 <= i < shape.dependencies().len() implies graph.dom().contains(
        #[trigger] shape.dependencies()[i],
    ) by {
        assert(graph.dom().contains(shape.links[i].node));
    }
    lemma_extend(graph, id, shape);
    let alone = Map::<Id, Shape>::empty().insert(id, shape);
    assert(regions_apart(alone));
}

/// A fresh region can be added to a graph in order.
pub proof fn lemma_sound_with_region(graph: Map<Id, Shape>, region: Region)
    requires
        sound(graph),
        region.start != region.end,
        !graph.dom().contains(region.start),
        !graph.dom().contains(region.end),
    ensures
        sound(with_region(graph, region)),
{
    lemma_sound_with_node(graph, region.start, Shape::start());
    lemma_sound_with_node(
        graph.insert(region.start, Shape::start()),
        region.end,
        Shape::end(Seq::empty()),
    );
}

/// A compound with a fresh region of its own, whose links read from nodes
/// of the graph, can be added to a graph in order.
pub proof fn lemma_sound_with_compound(
    graph: Map<Id, Shape>,
    id: Id,
    region: Region,
    kind: Kind,
    parameters: Seq<Link>,
)
    requires
        sound(graph),
        region.start != region.end,
        id != region.start,
        id != region.end,
        !graph.dom().contains(region.start),
        !graph.dom().contains(region.end),
        !graph.dom().contains(id),
        links_in(graph, parameters),
    ensures
        sound(
            with_region(graph, region).insert(
                id,
                Shape { kind, links: parameters, regions: seq![region] },
            ),
        ),
{
    let middle = with_region(graph, region);
    let shape = Shape { kind, links: parameters, regions: seq![region] };
    lemma_sound_with_region(graph, region);
    assert forall|i: int| 0 <= i < shape.dependencies().len() implies middle.dom().contains(
        #[trigger] shape.dependencies()[i],
    ) by {
        if i < parameters.len() {
            assert(graph.dom().contains(parameters[i].node));
        }
    }
    lemma_extend(middle, id, shape);
    let alone = Map::<Id, Shape>::empty().insert(id, shape);
    assert(regions_apart(alone));
    assert forall|i: int, b: Id, j: int|
        #![trigger shape.regions[i], middle[b].regions[j]]
        0 <= i < shape.regions.len() && middle.dom().contains(b) && 0 <= j
            < middle[b].regions.len() implies apart(shape.regions[i], middle[b].regions[j]) by {
        let other = graph[b].regions[j];
        let at = graph[b].links.len() + 2 * j;
        assert(graph[b].dependencies()[at] == other.start);
        assert(graph[b].dependencies()[at + 1] == other.end);
        assert(graph.dom().contains(graph[b].dependencies()[at]));
        assert(graph.dom().contains(graph[b].dependencies()[at + 1]));
    }
}

/// A `Gamma` can be added to a graph in order if its links read from nodes
/// of the graph, its regions are delimited by nodes of the graph, and its
/// regions share no marker with each other or with a region of another
/// node.
pub proof fn lemma_sound_with_gamma(
    graph: Map<Id, Shape>,
    id: Id,
    parameters: Seq<Link>,
    regions: Seq<Region>,
)
    requires
        sound(graph),
        !graph.dom().contains(id),
        links_in(graph, parameters),
        forall|i: int|
            0 <= i < regions.len() ==> graph.dom().contains((#[trigger] regions[i]).start)
                && graph.dom().contains(regions[i].end) && regions[i].start != regions[i].end,
        forall|i: int, j: int|
            0 <= i < regions.len() && 0 <= j < regions.len() && i != j ==> apart(
                regions[i],
                regions[j],
            ),
        forall|i: int, b: Id, j: int|
            #![trigger regions[i], graph[b].regions[j]]
            0 <= i < regions.len() && graph.dom().contains(b) && 0 <= j < graph[b].regions.len()
                ==> apart(regions[i], graph[b].regions[j]),
    ensures
        sound(graph.insert(id, Shape { kind: Kind::Gamma, links: parameters, regions })),
{
    let shape = Shape { kind: Kind::Gamma, links: parameters, regions };
    assert forall|i: int| 0 <= i < shape.dependencies().len() implies graph.dom().contains(
        #[trigger] shape.dependencies()[i],
    ) by {
        if i < parameters.len() {
            assert(graph.dom().contains(parameters[i].node));
        } else {
            let region = regions[(i - parameters.len()) / 2];
            assert(graph.dom().contains(region.start));
        }
    }
    lemma_extend(graph, id, shape);
    let alone = Map::<Id, Shape>::empty().insert(id, shape);
    assert(regions_apart(alone)) by {
        assert forall|a: Id, i: int, b: Id, j: int|
            #![trigger alone[a].regions[i], alone[b].regions[j]]
            alone.dom().contains(a) && alone.dom().contains(b) && 0 <= i < alone[a].regions.len()
                && 0 <= j < alone[b].regions.len() implies alone[a].regions[i].start
            != alone[a].regions[i].end && ((a != b || i != j) ==> apart(
            alone[a].regions[i],
            alone[b].regions[j],
        )) by {
            assert(regions[i].start != regions[i].end);
        }
    }
}

/// Whether every key that a link or a region of the store names is a key
/// that the store has handed out: nothing reads from a node that is yet to
/// come.
pub open spec fn tidy<N: Parameters>(nodes: Nodes<N>) -> bool {
    forall|id: Id| named(nodes.graph(), id) ==> nodes.issued(id)
}

/// A store that holds nothing is tidy.
pub proof fn lemma_tidy_empty<N: Parameters>(nodes: Nodes<N>)
    requires
        nodes@ == Map::<Id, Node<N>>::empty(),
    ensures
        tidy(nodes),
        sound(nodes.graph()),
{
    let graph = nodes.graph();
    assert(graph.dom() =~= Set::<Id>::empty());
    let rank = |id: Id| 0nat;
    assert(crate::data_flow::invariants::ranked(graph, rank));
}

/// What one node added under a new key does to a tidy store, as `insert`,
/// `add_simple` and `add_gamma` add it: if everything that the node names
/// is in the store, the store stays tidy, no link dangles if none did, and
/// there is no cycle if there was none.
pub proof fn lemma_inserted<N: Parameters>(before: Nodes<N>, after: Nodes<N>, id: Id, node: Node<N>)
    requires
        before.well_formed(),
        tidy(before),
        !before.issued(id),
        after@ == before@.insert(id, node),
        forall|key: Id| after.issued(key) == (before.issued(key) || key == id),
        forall|i: int|
            0 <= i < node.shape().dependencies().len() ==> before@.dom().contains(
                #[trigger] node.shape().dependencies()[i],
            ),
    ensures
        tidy(after),
        closed(before.graph()) ==> closed(after.graph()),
        acyclic(before.graph()) ==> acyclic(after.graph()),
{
    let graph = before.graph();
    before.lemma_keys();
    crate::data_flow::nodes::lemma_graph_of(before@, id, node, Set::empty());
    lemma_extend(graph, id, node.shape());
    assert forall|key: Id| named(after.graph(), key) implies after.issued(key) by {
        if !named(graph, key) {
            let list = node.shape().dependencies();
            let i = choose|i: int| 0 <= i < list.len() && list[i] == key;
            assert(before@.dom().contains(list[i]));
        }
    }
}

/// What `add_region` does to a tidy store: the store stays tidy, no link
/// dangles if none did, and there is no cycle if there was none.
pub proof fn lemma_region_grown<N: Parameters>(before: Nodes<N>, after: Nodes<N>, region: Region)
    requires
        before.well_formed(),
        tidy(before),
        fresh_region(before@, after@, region),
        after@.dom() == before@.dom().insert(region.start).insert(region.end),
        !before.issued(region.start),
        !before.issued(region.end),
        forall|key: Id|
            after.issued(key) == (before.issued(key) || key == region.start || key == region.end),
    ensures
        tidy(after),
        closed(before.graph()) ==> closed(after.graph()),
        acyclic(before.graph()) ==> acyclic(after.graph()),
{
    let graph = before.graph();
    let middle = graph.insert(region.start, Shape::start());
    lemma_added_region(before@, after@, region);
    lemma_extend(graph, region.start, Shape::start());
    lemma_extend(middle, region.end, Shape::end(Seq::empty()));
    assert(Shape::start().dependencies() =~= Seq::<Id>::empty());
    assert(Shape::end(Seq::empty()).dependencies() =~= Seq::<Id>::empty());
}

/// What `add_compound`, `add_theta`, `add_lambda` and `add_phi` do to a
/// tidy store: the store stays tidy, no link dangles if none did, and there
/// is no cycle if there was none. The keys of the compound and of its
/// markers are new, so that nothing in a tidy store names them, and no chain
/// of dependencies leads back to them.
pub proof fn lemma_grown<N: Parameters>(
    before: Nodes<N>,
    after: Nodes<N>,
    id: Id,
    region: Region,
    kind: Kind,
    parameters: Seq<Link>,
)
    requires
        before.well_formed(),
        tidy(before),
        live_links(before@.dom(), parameters),
        Nodes::grown(before, after, id, region, kind, parameters),
    ensures
        tidy(after),
        closed(before.graph()) ==> closed(after.graph()),
        acyclic(before.graph()) ==> acyclic(after.graph()),
        regions_apart(before.graph()) ==> regions_apart(after.graph()),
{
    let graph = before.graph();
    let first = graph.insert(region.start, Shape::start());
    let second = with_region(graph, region);
    let shape = Shape { kind, links: parameters, regions: seq![region] };
    before.lemma_keys();
    lemma_added_compound(before@, after@, id, region, kind, parameters);
    assert(Shape::start().dependencies() =~= Seq::<Id>::empty());
    assert(Shape::end(Seq::empty()).dependencies() =~= Seq::<Id>::empty());
    lemma_extend(graph, region.start, Shape::start());
    lemma_extend(first, region.end, Shape::end(Seq::empty()));
    assert forall|i: int| 0 <= i < shape.dependencies().len() implies second.dom().contains(
        #[trigger] shape.dependencies()[i],
    ) by {
        if i < parameters.len() {
            assert(before@.dom().contains(parameters[i].node));
        }
    }
    lemma_extend(second, id, shape);
    if regions_apart(graph) {
        lemma_sound_regions(graph, region.start, Shape::start());
        lemma_sound_regions(first, region.end, Shape::end(Seq::empty()));
        let alone = Map::<Id, Shape>::empty().insert(id, shape);
        assert(regions_apart(alone));
        assert forall|i: int, b: Id, j: int|
            #![trigger shape.regions[i], second[b].regions[j]]
            0 <= i < shape.regions.len() && second.dom().contains(b) && 0 <= j
                < second[b].regions.len() implies apart(shape.regions[i], second[b].regions[j]) by {
            let other = graph[b].regions[j];
            let at = graph[b].links.len() + 2 * j;
            assert(graph[b].dependencies()[at] == other.start);
            assert(graph[b].dependencies()[at + 1] == other.end);
            assert(named(graph, other.start));
            assert(named(graph, other.end));
        }
    }
    assert forall|key: Id| named(after.graph(), key) implies after.issued(key) by {
        if !named(graph, key) {
            let list = shape.dependencies();
            let i = choose|i: int| 0 <= i < list.len() && list[i] == key;
            if i < parameters.len() {
                assert(before@.dom().contains(parameters[i].node));
            }
        }
    }
}

/// A store from which nodes were removed, by `remove`, `remove_region`,
/// `remove_compound`, `retain_seen` or a sweep, stays tidy.
pub proof fn lemma_tidy_shrunk<N: Parameters>(before: Nodes<N>, after: Nodes<N>, keep: Set<Id>)
    requires
        tidy(before),
        after.graph() == before.graph().restrict(keep),
        forall|key: Id| before.issued(key) ==> after.issued(key),
    ensures
        tidy(after),
{
    assert forall|key: Id| named(after.graph(), key) implies after.issued(key) by {
        let (from, i) = choose|from: Id, i: int|
            after.graph().dom().contains(from) && 0 <= i < after.graph()[from].dependencies().len()
                && #[trigger] after.graph()[from].dependencies()[i] == key;
        assert(before.graph()[from].dependencies()[i] == key);
        assert(named(before.graph(), key));
    }
}

/// A node without regions brings no regions together.
pub proof fn lemma_sound_regions(graph: Map<Id, Shape>, id: Id, shape: Shape)
    requires
        regions_apart(graph),
        !graph.dom().contains(id),
        shape.regions.len() == 0,
    ensures
        regions_apart(graph.insert(id, shape)),
{
    let after = graph.insert(id, shape);
    assert forall|a: Id, i: int, b: Id, j: int|
        #![trigger after[a].regions[i], after[b].regions[j]]
        after.dom().contains(a) && after.dom().contains(b) && 0 <= i < after[a].regions.len() && 0
            <= j < after[b].regions.len() implies after[a].regions[i].start
        != after[a].regions[i].end && ((a != b || i != j) ==> apart(
        after[a].regions[i],
        after[b].regions[j],
    )) by {
        let _ = (graph[a].regions[i], graph[b].regions[j]);
    }
}

} // verus!
