//! Relaxation of the outputs of a `Gamma` or `Theta` that only pass a
//! parameter through: their readers can read the parameter itself.

use vstd::prelude::*;
use crate::data_flow::laws::sound;
use crate::data_flow::link::{Id, Link, Region};
use crate::data_flow::node::{Compound, Node, Parameters, ParametersMut, Shape};
use crate::data_flow::nodes::Nodes;
use crate::transform::laws::lemma_relax_sound;
use crate::transform::revise::{answers, cached, capped, redo_ports, redone};
use crate::visit::successors::Successors;

verus! {

/// What a result of a region passes through: the parameter behind the port
/// of the start marker that the result reads, if it reads from the start
/// marker at a port that has a parameter behind it.
pub open spec fn passthrough(parameters: Seq<Link>, start: Id, end: Link) -> Option<Link> {
    if end.node == start && end.port < parameters.len() {
        Some(parameters[end.port as int])
    } else {
        None
    }
}

/// The links that the node reads, or none if it is not in the graph.
pub open spec fn results(graph: Map<Id, Shape>, id: Id) -> Seq<Link> {
    if graph.dom().contains(id) {
        graph[id].links
    } else {
        Seq::empty()
    }
}

/// For each result of the region, what it passes through.
pub open spec fn region_maps(graph: Map<Id, Shape>, parameters: Seq<Link>, region: Region) -> Seq<
    Option<Link>,
> {
    Seq::new(
        results(graph, region.end).len(),
        |i: int| passthrough(parameters, region.start, results(graph, region.end)[i]),
    )
}

/// Whether every region after the first that has a result `i` passes the
/// same through it as the first.
pub open spec fn agree(graph: Map<Id, Shape>, parameters: Seq<Link>, regions: Seq<Region>, i: int) -> bool {
    forall|j: int|
        1 <= j < regions.len() && i < results(graph, (#[trigger] regions[j]).end).len()
            ==> region_maps(graph, parameters, regions[j])[i] == region_maps(
            graph,
            parameters,
            regions[0],
        )[i]
}

/// For each output of a `Gamma`, the parameter that every branch passes
/// through to it, if there is one.
pub open spec fn gamma_maps(graph: Map<Id, Shape>, parameters: Seq<Link>, regions: Seq<Region>) -> Seq<
    Option<Link>,
> {
    if regions.len() == 0 {
        Seq::empty()
    } else {
        Seq::new(
            results(graph, regions[0].end).len(),
            |i: int|
                if agree(graph, parameters, regions, i) {
                    region_maps(graph, parameters, regions[0])[i]
                } else {
                    None
                },
        )
    }
}

/// For each result of the region of a `Theta`, the parameter that the loop
/// hands on unchanged, if the result is the start marker's output of the
/// same position.
pub open spec fn theta_maps(graph: Map<Id, Shape>, parameters: Seq<Link>, region: Region) -> Seq<
    Option<Link>,
> {
    Seq::new(
        results(graph, region.end).len(),
        |i: int|
            if i <= u16::MAX && results(graph, region.end)[i] == (Link {
                node: region.start,
                port: i as u16,
            }) {
                passthrough(parameters, region.start, results(graph, region.end)[i])
            } else {
                None
            },
    )
}

/// The relaxation that applies to the node: that of a `Gamma`, that of a
/// `Theta`, or none.
pub open spec fn maps_of(graph: Map<Id, Shape>, id: Id) -> Option<Seq<Option<Link>>> {
    if !graph.dom().contains(id) {
        None
    } else if graph[id].kind is Gamma {
        Some(gamma_maps(graph, graph[id].links, graph[id].regions))
    } else if graph[id].kind is Theta && graph[id].regions.len() == 1 {
        Some(theta_maps(graph, graph[id].links, graph[id].regions[0]))
    } else {
        None
    }
}

/// The answer that a table of replacements gives for a port.
pub open spec fn lookup(maps: Seq<Option<Link>>) -> spec_fn(u16) -> Option<Link> {
    |port: u16|
        if port < maps.len() {
            maps[port as int]
        } else {
            None
        }
}

fn load_passthrough(parameters: &[Link], start: Id, end: Link) -> (link: Option<Link>)
    ensures
        link == passthrough(parameters@, start, end),
{
    let port = end.port as usize;
    if start == end.node && port < parameters.len() {
        Some(parameters[port])
    } else {
        None
    }
}

/// Whether the two are the same link, or both none.
fn same(left: Option<Link>, right: Option<Link>) -> (equal: bool)
    ensures
        equal == (left == right),
{
    match (left, right) {
        (Some(a), Some(b)) => a == b,
        (None, None) => true,
        _ => false,
    }
}

/// The links that the node reads, or none if it is not in the store.
fn load_results<N: Parameters>(nodes: &Nodes<N>, id: Id) -> (list: &[Link])
    requires
        nodes.well_formed(),
    ensures
        list@ == results(nodes.graph(), id),
{
    proof {
        nodes.lemma_graph();
    }
    match nodes.get(id) {
        Some(node) => node.parameters(),
        None => &[],
    }
}

/// A reusable pass that relaxes the outputs of one node.
pub struct RelaxDependencies {
    maps: Vec<Option<Link>>,
}

impl View for RelaxDependencies {
    type V = Seq<Option<Link>>;

    /// The replacements of the last run by output port.
    closed spec fn view(&self) -> Seq<Option<Link>> {
        self.maps@
    }
}

impl Default for RelaxDependencies {
    /// Creates a new, reusable [`RelaxDependencies`] instance.
    fn default() -> (pass: Self)
        ensures
            pass@ == Seq::<Option<Link>>::empty(),
    {
        Self::new()
    }
}

impl RelaxDependencies {
    /// Creates a new, reusable [`RelaxDependencies`] instance.
    pub fn new() -> (pass: Self)
        ensures
            pass@ == Seq::<Option<Link>>::empty(),
    {
        Self { maps: Vec::new() }
    }

    /// Returns the replacements of the last run by output port.
    pub fn maps(&self) -> (maps: &[Option<Link>])
        ensures
            maps@ == self@,
    {
        self.maps.as_slice()
    }

    fn add_map_results<N: Parameters>(&mut self, nodes: &Nodes<N>, parameters: &[Link], region: Region)
        requires
            nodes.well_formed(),
        ensures
            final(self).maps@ == region_maps(nodes.graph(), parameters@, region),
    {
        let list = load_results(nodes, region.end);
        self.maps.clear();
        let mut i: usize = 0;
        while i < list.len()
            invariant
                i <= list@.len(),
                list@ == results(nodes.graph(), region.end),
                self.maps@ == region_maps(nodes.graph(), parameters@, region).take(i as int),
            decreases list@.len() - i,
        {
            self.maps.push(load_passthrough(parameters, region.start, list[i]));
            i += 1;
            proof {
                let all = region_maps(nodes.graph(), parameters@, region);
                assert(all.take(i as int) =~= all.take(i - 1).push(all[i - 1]));
            }
        }
        proof {
            let all = region_maps(nodes.graph(), parameters@, region);
            assert(all.take(i as int) =~= all);
        }
    }

    fn run_gamma<N: Parameters>(&mut self, nodes: &Nodes<N>, parameters: &[Link], regions: &[Region])
        requires
            nodes.well_formed(),
        ensures
            final(self).maps@ == gamma_maps(nodes.graph(), parameters@, regions@),
    {
        let ghost graph = nodes.graph();
        if regions.len() == 0 {
            self.maps.clear();
            return ;
        }
        self.add_map_results(nodes, parameters, regions[0]);
        let ghost first = region_maps(graph, parameters@, regions@[0]);
        let mut j: usize = 1;
        while j < regions.len()
            invariant
                nodes.well_formed(),
                graph == nodes.graph(),
                1 <= j <= regions@.len(),
                first == region_maps(graph, parameters@, regions@[0]),
                self.maps@.len() == first.len(),
                forall|i: int|
                    0 <= i < first.len() ==> (#[trigger] self.maps@[i]) == if agree(
                        graph,
                        parameters@,
                        regions@.take(j as int),
                        i,
                    ) {
                        first[i]
                    } else {
                        None
                    },
            decreases regions@.len() - j,
        {
            let region = regions[j];
            let list = load_results(nodes, region.end);
            let ghost shorter = regions@.take(j as int);
            let ghost longer = regions@.take(j + 1);
            let mut i: usize = 0;
            while i < list.len() && i < self.maps.len()
                invariant
                    i <= list@.len(),
                    i <= self.maps@.len(),
                    1 <= j < regions@.len(),
                    region == regions@[j as int],
                    list@ == results(graph, region.end),
                    first == region_maps(graph, parameters@, regions@[0]),
                    shorter == regions@.take(j as int),
                    longer == regions@.take(j + 1),
                    self.maps@.len() == first.len(),
                    forall|k: int|
                        i <= k < first.len() ==> (#[trigger] self.maps@[k]) == if agree(
                            graph,
                            parameters@,
                            shorter,
                            k,
                        ) {
                            first[k]
                        } else {
                            None
                        },
                    forall|k: int|
                        0 <= k < i ==> (#[trigger] self.maps@[k]) == if agree(
                            graph,
                            parameters@,
                            longer,
                            k,
                        ) {
                            first[k]
                        } else {
                            None
                        },
                decreases list@.len() - i,
            {
                let passed = load_passthrough(parameters, region.start, list[i]);
                proof {
                    let at = i as int;
                    assert(longer[j as int] == region);
                    assert(region_maps(graph, parameters@, region)[at] == passed);
                    assert(longer[0] == regions@[0] && shorter[0] == regions@[0]);
                    if agree(graph, parameters@, longer, at) {
                        assert forall|x: int|
                            1 <= x < shorter.len() && at < results(
                                graph,
                                (#[trigger] shorter[x]).end,
                            ).len() implies region_maps(graph, parameters@, shorter[x])[at]
                            == region_maps(graph, parameters@, shorter[0])[at] by {
                            assert(longer[x] == shorter[x]);
                        }
                        assert(passed == first[at]);
                    }
                    if agree(graph, parameters@, shorter, at) && passed == first[at] {
                        assert forall|x: int|
                            1 <= x < longer.len() && at < results(
                                graph,
                                (#[trigger] longer[x]).end,
                            ).len() implies region_maps(graph, parameters@, longer[x])[at]
                            == region_maps(graph, parameters@, longer[0])[at] by {
                            if x < j {
                                assert(longer[x] == shorter[x]);
                            }
                        }
                    }
                }
                if !same(passed, self.maps[i]) {
                    self.maps[i] = None;
                }
                i += 1;
            }
            proof {
                assert forall|k: int| 0 <= k < first.len() implies (#[trigger] self.maps@[k])
                    == if agree(graph, parameters@, longer, k) {
                    first[k]
                } else {
                    None
                } by {
                    if k >= i {
                        assert(longer[j as int] == region);
                        assert(longer[0] == regions@[0] && shorter[0] == regions@[0]);
                        if agree(graph, parameters@, longer, k) {
                            assert forall|x: int|
                                1 <= x < shorter.len() && k < results(
                                    graph,
                                    (#[trigger] shorter[x]).end,
                                ).len() implies region_maps(graph, parameters@, shorter[x])[k]
                                == region_maps(graph, parameters@, shorter[0])[k] by {
                                assert(longer[x] == shorter[x]);
                            }
                        }
                        if agree(graph, parameters@, shorter, k) {
                            assert forall|x: int|
                                1 <= x < longer.len() && k < results(
                                    graph,
                                    (#[trigger] longer[x]).end,
                                ).len() implies region_maps(graph, parameters@, longer[x])[k]
                                == region_maps(graph, parameters@, longer[0])[k] by {
                                if x < j {
                                    assert(longer[x] == shorter[x]);
                                }
                            }
                        }
                    }
                }
            }
            j += 1;
        }
        proof {
            assert(regions@.take(j as int) =~= regions@);
            assert(self.maps@ =~= gamma_maps(graph, parameters@, regions@));
        }
    }

    fn run_theta<N: Parameters>(&mut self, nodes: &Nodes<N>, parameters: &[Link], region: Region)
        requires
            nodes.well_formed(),
        ensures
            final(self).maps@ == theta_maps(nodes.graph(), parameters@, region),
    {
        // This will technically include the `Theta` condition, but
        // it won't be used anyway as it's not output.
        self.add_map_results(nodes, parameters, region);
        let ghost graph = nodes.graph();
        let list = load_results(nodes, region.end);
        let mut i: usize = 0;
        while i < list.len()
            invariant
                i <= list@.len(),
                list@ == results(graph, region.end),
                self.maps@.len() == list@.len(),
                forall|k: int|
                    i <= k < list@.len() ==> (#[trigger] self.maps@[k]) == region_maps(
                        graph,
                        parameters@,
                        region,
                    )[k],
                forall|k: int|
                    0 <= k < i ==> (#[trigger] self.maps@[k]) == theta_maps(
                        graph,
                        parameters@,
                        region,
                    )[k],
            decreases list@.len() - i,
        {
            let result = list[i];
            let unchanged = i <= u16::MAX as usize && result.node == region.start && result.port as usize
                == i;
            if !unchanged {
                self.maps[i] = None;
            }
            i += 1;
        }
        proof {
            assert(self.maps@ =~= theta_maps(graph, parameters@, region));
        }
    }

    /// Computes the replacements for the node, if it is a `Gamma` or a
    /// `Theta` of the store.
    fn load_maps<N: Parameters>(&mut self, nodes: &Nodes<N>, id: Id) -> (found: bool)
        requires
            nodes.well_formed(),
        ensures
            found == maps_of(nodes.graph(), id) is Some,
            found ==> final(self).maps@ == maps_of(nodes.graph(), id)->0,
            !found ==> final(self).maps@ == old(self).maps@,
    {
        proof {
            nodes.lemma_graph();
        }
        match nodes.get(id) {
            Some(Node::Compound(Compound::Gamma { parameters, regions })) => {
                self.run_gamma(nodes, parameters.as_slice(), regions.as_slice());
                true
            },
            Some(Node::Compound(Compound::Theta { parameters, region })) => {
                self.run_theta(nodes, parameters.as_slice(), *region);
                true
            },
            _ => false,
        }
    }

    /// Relaxes the outputs of the node `id`.
    ///
    /// For a `Gamma`, an output is relaxed if every branch passes the same
    /// parameter through to it; for a `Theta`, if the body hands the
    /// parameter of the same position on unchanged. Every link of a cached
    /// successor that reads a relaxed output is made to read the parameter
    /// instead. Returns the number of links replaced, as far as a `usize` can
    /// hold it, or nothing, with the store unchanged, if the node is not a
    /// `Gamma` or a `Theta` of the store. No node is removed, no link of a
    /// node that is not among the successors changes, and a graph that was
    /// in order stays in order.
    pub fn run<N: ParametersMut>(
        &mut self,
        nodes: &mut Nodes<N>,
        id: Id,
        successors: &Successors,
    ) -> (applied: Option<usize>)
        requires
            old(nodes).well_formed(),
        ensures
            final(nodes).well_formed(),
            final(nodes)@.dom() == old(nodes)@.dom(),
            final(nodes).room() == old(nodes).room(),
            forall|key: Id| final(nodes).issued(key) == old(nodes).issued(key),
            forall|key: Id|
                old(nodes)@.dom().contains(key) && !cached(successors@, id).contains(key)
                    ==> final(nodes)@[key] == old(nodes)@[key],
            sound(old(nodes).graph()) ==> sound(final(nodes).graph()),
            match applied {
                Some(applied) => {
                    &&& maps_of(old(nodes).graph(), id) is Some
                    &&& final(self)@ == maps_of(old(nodes).graph(), id)->0
                    &&& final(nodes).graph() == redone(
                        old(nodes).graph(),
                        cached(successors@, id),
                        id,
                        lookup(final(self)@),
                    ).0
                    &&& applied == capped(
                        redone(old(nodes).graph(), cached(successors@, id), id, lookup(final(self)@)).1,
                    )
                },
                None => {
                    &&& maps_of(old(nodes).graph(), id) is None
                    &&& final(self)@ == old(self)@
                    &&& final(nodes)@ == old(nodes)@
                },
            },
    {
        let ghost graph = nodes.graph();
        if !self.load_maps(nodes, id) {
            return None;
        }
        proof {
            if sound(graph) {
                lemma_relax_sound(graph, cached(successors@, id), id);
            }
        }
        let maps = &self.maps;
        let redo = |port: u16| -> (link: Option<Link>)
            ensures
                link == lookup(maps@)(port),
            {
                if (port as usize) < maps.len() {
                    maps[port as usize]
                } else {
                    None
                }
            };
        assert(answers(redo, lookup(maps@)));
        let applied = redo_ports(nodes, successors, id, redo);
        Some(applied)
    }
}

} // verus!
