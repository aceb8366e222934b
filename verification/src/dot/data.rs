//! The whole graph as a text in the DOT language.

use vstd::prelude::*;
use crate::data_flow::link::{Id, Link, Region};
use crate::data_flow::node::{Compound, Marker, Node, Parameters};
use crate::data_flow::nodes::{bound, distinct_indices, graph_of, is_bound, Nodes};
use crate::dot::description::Description;
use crate::dot::owners::Owners;
use crate::dot::template::{Anchor, Group, PortCounts};
use crate::dot::text::{decimal, write_decimal};
use crate::visit::order::{post_order, reached};
use crate::visit::reverse_topological::{marked, ReverseTopological};

verus! {

/// The region that stands for the node in the picture: that of a `Theta`,
/// a `Lambda` or a `Phi`.
pub open spec fn region_of_node<N>(node: Node<N>) -> Option<Region> {
    match node {
        Node::Compound(Compound::Theta { region, .. }) => Some(region),
        Node::Compound(Compound::Lambda { region, .. }) => Some(region),
        Node::Compound(Compound::Phi { region, .. }) => Some(region),
        _ => None,
    }
}

/// The node at which links into `id` arrive in the picture: the start
/// marker of its region if it stands for one, else the node itself.
pub open spec fn start_face<N>(nodes: Map<Id, Node<N>>, id: Id) -> Id {
    if nodes.dom().contains(id) && region_of_node(nodes[id]) is Some {
        region_of_node(nodes[id])->0.start
    } else {
        id
    }
}

/// The node at which links out of `id` leave in the picture: the end marker
/// of its region if it stands for one, else the node itself.
pub open spec fn end_face<N>(nodes: Map<Id, Node<N>>, id: Id) -> Id {
    if nodes.dom().contains(id) && region_of_node(nodes[id]) is Some {
        region_of_node(nodes[id])->0.end
    } else {
        id
    }
}

/// Whether `most` is the largest of the values, or zero if there are none.
pub open spec fn is_most(values: Set<nat>, most: nat) -> bool {
    &&& forall|value: nat| values.contains(value) ==> value <= most
    &&& most == 0 || values.contains(most)
}

/// The numbers of links that arrive at the node with the given index,
/// taken over the nodes whose index is below `upto`.
pub open spec fn inward_values<N: Parameters>(nodes: Map<Id, Node<N>>, index: int, upto: int) -> Set<nat> {
    Set::new(
        |value: nat|
            exists|id: Id|
                nodes.dom().contains(id) && id.index < upto && start_face(nodes, id).index == index
                    && #[trigger] nodes[id].links().len() == value,
    )
}

/// Whether link `k` of the node `id` leaves the node with the given index
/// and needs `value` output ports there.
pub open spec fn leaves<N: Parameters>(
    nodes: Map<Id, Node<N>>,
    index: int,
    id: Id,
    k: int,
    value: nat,
) -> bool {
    &&& nodes.dom().contains(id)
    &&& 0 <= k < nodes[id].links().len()
    &&& end_face(nodes, nodes[id].links()[k].node).index == index
    &&& value == nodes[id].links()[k].port + 1
}

/// The numbers of output ports that the links need which leave the node
/// with the given index, taken over the nodes whose index is below `upto`
/// and the first `within` links of the node whose index is `upto`.
pub open spec fn outward_values<N: Parameters>(
    nodes: Map<Id, Node<N>>,
    index: int,
    upto: int,
    within: int,
) -> Set<nat> {
    Set::new(
        |value: nat|
            exists|id: Id, k: int|
                #[trigger] leaves(nodes, index, id, k, value) && (id.index < upto || (id.index
                    == upto && k < within)),
    )
}

/// Whether the table holds, for every index, the largest number of links
/// that arrive at the node with that index and the largest number of output
/// ports that are read of it.
pub open spec fn counted<N: Parameters>(nodes: Map<Id, Node<N>>, table: Seq<PortCounts>) -> bool {
    &&& is_bound(nodes.dom(), table.len())
    &&& forall|index: int|
        0 <= index < table.len() ==> is_most(
            inward_values(nodes, index, table.len() as int),
            (#[trigger] table[index]).inward() as nat,
        ) && is_most(
            outward_values(nodes, index, table.len() as int, 0),
            table[index].outward() as nat,
        )
}

fn region_of<N>(node: &Node<N>) -> (region: Option<Region>)
    ensures
        region == region_of_node(*node),
{
    match node {
        Node::Compound(Compound::Theta { region, .. }) => Some(*region),
        Node::Compound(Compound::Lambda { region, .. }) => Some(*region),
        Node::Compound(Compound::Phi { region, .. }) => Some(*region),
        _ => None,
    }
}

/// Returns the node at which links into `id` arrive in the picture.
pub fn region_start_of<N>(nodes: &Nodes<N>, id: Id) -> (face: Id)
    ensures
        face == start_face(nodes@, id),
{
    match nodes.get(id) {
        Some(node) => match region_of(node) {
            Some(region) => region.start,
            None => id,
        },
        None => id,
    }
}

/// Returns the node at which links out of `id` leave in the picture.
pub fn region_end_of<N>(nodes: &Nodes<N>, id: Id) -> (face: Id)
    ensures
        face == end_face(nodes@, id),
{
    match nodes.get(id) {
        Some(node) => match region_of(node) {
            Some(region) => region.end,
            None => id,
        },
        None => id,
    }
}

/// Counts, for one node, the links that arrive, and for each of its links
/// the output ports that it needs where it leaves.
fn count_node<N: Parameters>(table: &mut Vec<PortCounts>, nodes: &Nodes<N>, id: Id)
    requires
        nodes.well_formed(),
        nodes@.dom().contains(id),
        forall|index: int|
            0 <= index < old(table)@.len() ==> is_most(
                inward_values(nodes@, index, id.index as int),
                (#[trigger] old(table)@[index]).inward() as nat,
            ) && is_most(
                outward_values(nodes@, index, id.index as int, 0),
                old(table)@[index].outward() as nat,
            ),
    ensures
        final(table)@.len() == old(table)@.len(),
        forall|index: int|
            0 <= index < final(table)@.len() ==> is_most(
                inward_values(nodes@, index, id.index + 1),
                (#[trigger] final(table)@[index]).inward() as nat,
            ) && is_most(
                outward_values(nodes@, index, id.index + 1, 0),
                final(table)@[index].outward() as nat,
            ),
{
    proof {
        nodes.lemma_keys();
    }
    let node = match nodes.get(id) {
        Some(node) => node,
        None => {
            return ;
        },
    };
    let links = node.parameters();
    let start = region_start_of(nodes, id);
    let ghost at = id.index as int;
    if start.index() < table.len() {
        table[start.index()].set_inward(links.len());
    }
    proof {
        assert forall|index: int| 0 <= index < table@.len() implies is_most(
            inward_values(nodes@, index, at + 1),
            (#[trigger] table@[index]).inward() as nat,
        ) by {
            let before = inward_values(nodes@, index, at);
            let after = inward_values(nodes@, index, at + 1);
            let most = old(table)@[index].inward() as nat;
            assert(is_most(before, most));
            assert forall|value: nat| after.contains(value) implies before.contains(value) || (
            start.index == index && value == links@.len()) by {
                let other = choose|other: Id|
                    nodes@.dom().contains(other) && other.index < at + 1 && start_face(
                        nodes@,
                        other,
                    ).index == index && #[trigger] nodes@[other].links().len() == value;
                if other.index < at {
                    assert(nodes@[other].links().len() == value);
                }
            }
            assert forall|value: nat| before.contains(value) implies after.contains(value) by {
                let other = choose|other: Id|
                    nodes@.dom().contains(other) && other.index < at && start_face(
                        nodes@,
                        other,
                    ).index == index && #[trigger] nodes@[other].links().len() == value;
                assert(nodes@[other].links().len() == value);
            }
            if start.index == index {
                assert(nodes@[id].links().len() == links@.len());
                assert(after.contains(links@.len()));
            }
        }
    }
    let mut k: usize = 0;
    while k < links.len()
        invariant
            nodes.well_formed(),
            nodes@.dom().contains(id),
            distinct_indices(nodes@.dom()),
            at == id.index,
            links@ == nodes@[id].links(),
            k <= links@.len(),
            table@.len() == old(table)@.len(),
            forall|index: int|
                0 <= index < table@.len() ==> is_most(
                    inward_values(nodes@, index, at + 1),
                    (#[trigger] table@[index]).inward() as nat,
                ) && is_most(
                    outward_values(nodes@, index, at, k as int),
                    table@[index].outward() as nat,
                ),
        decreases links@.len() - k,
    {
        let link = links[k];
        let end = region_end_of(nodes, link.node);
        let ghost earlier = table@;
        if end.index() < table.len() {
            table[end.index()].set_outward(link.port as usize + 1);
        }
        proof {
            let needed = (link.port + 1) as nat;
            assert(leaves(nodes@, end.index as int, id, k as int, needed));
            assert forall|index: int| 0 <= index < table@.len() implies is_most(
                inward_values(nodes@, index, at + 1),
                (#[trigger] table@[index]).inward() as nat,
            ) && is_most(
                outward_values(nodes@, index, at, k + 1),
                table@[index].outward() as nat,
            ) by {
                let before = outward_values(nodes@, index, at, k as int);
                let after = outward_values(nodes@, index, at, k + 1);
                assert(is_most(before, earlier[index].outward() as nat));
                assert(is_most(
                    inward_values(nodes@, index, at + 1),
                    earlier[index].inward() as nat,
                ));
                assert forall|value: nat| after.contains(value) implies before.contains(value)
                    || (end.index == index && value == needed) by {
                    let (other, j) = choose|other: Id, j: int|
                        #[trigger] leaves(nodes@, index, other, j, value) && (other.index < at || (
                        other.index == at && j < k + 1));
                    if other.index < at || j < k {
                        assert(leaves(nodes@, index, other, j, value));
                    }
                }
                assert forall|value: nat| before.contains(value) implies after.contains(value) by {
                    let (other, j) = choose|other: Id, j: int|
                        #[trigger] leaves(nodes@, index, other, j, value) && (other.index < at || (
                        other.index == at && j < k));
                    assert(leaves(nodes@, index, other, j, value));
                }
                if end.index == index {
                    assert(after.contains(needed));
                }
            }
        }
        k += 1;
    }
    proof {
        assert forall|index: int| 0 <= index < table@.len() implies is_most(
            outward_values(nodes@, index, at + 1, 0),
            (#[trigger] table@[index]).outward() as nat,
        ) by {
            let before = outward_values(nodes@, index, at, k as int);
            let after = outward_values(nodes@, index, at + 1, 0);
            assert(is_most(before, table@[index].outward() as nat));
            assert forall|value: nat| after.contains(value) implies before.contains(value) by {
                let (other, j) = choose|other: Id, j: int|
                    #[trigger] leaves(nodes@, index, other, j, value) && (other.index < at + 1 || (
                    other.index == at + 1 && j < 0));
                assert(leaves(nodes@, index, other, j, value));
            }
            assert forall|value: nat| before.contains(value) implies after.contains(value) by {
                let (other, j) = choose|other: Id, j: int|
                    #[trigger] leaves(nodes@, index, other, j, value) && (other.index < at || (
                    other.index == at && j < k));
                assert(leaves(nodes@, index, other, j, value));
            }
        }
    }
}

/// Counts the ports of every node: for each index, the largest number of
/// links that arrive at the node with that index and the largest number of
/// output ports that are read of it.
pub fn count_ports<N: Parameters>(nodes: &Nodes<N>) -> (table: Vec<PortCounts>)
    requires
        nodes.well_formed(),
    ensures
        counted(nodes@, table@),
{
    let active = nodes.active();
    let mut table: Vec<PortCounts> = Vec::new();
    while table.len() < active
        invariant
            table@.len() <= active,
            forall|index: int|
                0 <= index < table@.len() ==> (#[trigger] table@[index]).inward() == 0
                    && table@[index].outward() == 0,
        decreases active - table@.len(),
    {
        table.push(PortCounts::new());
    }
    let mut i: usize = 0;
    while i < active
        invariant
            nodes.well_formed(),
            i <= active,
            table@.len() == active,
            is_bound(nodes@.dom(), active as nat),
            forall|index: int|
                0 <= index < table@.len() ==> is_most(
                    inward_values(nodes@, index, i as int),
                    (#[trigger] table@[index]).inward() as nat,
                ) && is_most(
                    outward_values(nodes@, index, i as int, 0),
                    table@[index].outward() as nat,
                ),
        decreases active - i,
    {
        match nodes.key_at(i) {
            Some(id) => {
                count_node(&mut table, nodes, id);
            },
            None => {
                proof {
                    assert forall|index: int| 0 <= index < table@.len() implies is_most(
                        inward_values(nodes@, index, i + 1),
                        (#[trigger] table@[index]).inward() as nat,
                    ) && is_most(
                        outward_values(nodes@, index, i + 1, 0),
                        table@[index].outward() as nat,
                    ) by {
                        assert(is_most(
                            inward_values(nodes@, index, i as int),
                            table@[index].inward() as nat,
                        ));
                        assert(is_most(
                            outward_values(nodes@, index, i as int, 0),
                            table@[index].outward() as nat,
                        ));
                        assert(inward_values(nodes@, index, i + 1) =~= inward_values(
                            nodes@,
                            index,
                            i as int,
                        ));
                        assert(outward_values(nodes@, index, i + 1, 0) =~= outward_values(
                            nodes@,
                            index,
                            i as int,
                            0,
                        ));
                    }
                }
            },
        }
        i += 1;
    }
    table
}

/// The name of a node in the picture: its index.
pub open spec fn name_text(id: Id) -> Seq<char> {
    decimal(id.index as nat)
}

/// The links that the node reads, or none if it is not among the nodes.
pub open spec fn links_of<N: Parameters>(nodes: Map<Id, Node<N>>, id: Id) -> Seq<Link> {
    if nodes.dom().contains(id) {
        nodes[id].links()
    } else {
        Seq::empty()
    }
}

/// The statement that draws a link: from the face at which links leave its
/// producer to the face at which links arrive at its reader.
pub open spec fn link_text<N>(nodes: Map<Id, Node<N>>, from: Link, to: Link) -> Seq<char> {
    Anchor::Out.link_text(name_text(end_face(nodes, from.node)), from.port) + " -> "@
        + Anchor::In.link_text(name_text(start_face(nodes, to.node)), to.port) + ";\n"@
}

/// The statements that draw the first `count` links of the node `place` as
/// links into the node `id`, each into the port of its position.
pub open spec fn links_text<N: Parameters>(
    nodes: Map<Id, Node<N>>,
    id: Id,
    place: Id,
    count: nat,
) -> Seq<char>
    decreases count,
{
    if count == 0 {
        Seq::empty()
    } else {
        links_text(nodes, id, place, (count - 1) as nat) + link_text(
            nodes,
            links_of(nodes, place)[count - 1],
            Link { node: id, port: (count - 1) as u16 },
        )
    }
}

/// The number of links of a node that can be drawn: a port has a number
/// of sixteen bits.
pub open spec fn drawn(count: nat) -> nat {
    if count <= 0x1_0000 {
        count
    } else {
        0x1_0000
    }
}

/// The statements that declare the node `id` with its label and draw the
/// links of the node `place` into it; nothing if the node is not among the
/// nodes or has no entry in the table.
pub open spec fn simple_text<N: Parameters + Description>(
    nodes: Map<Id, Node<N>>,
    table: Seq<PortCounts>,
    id: Id,
    place: Id,
) -> Seq<char> {
    if nodes.dom().contains(id) && id.index < table.len() {
        name_text(id) + " "@ + table[id.index as int].text(&nodes[id]) + links_text(
            nodes,
            id,
            place,
            drawn(links_of(nodes, place).len()),
        )
    } else {
        Seq::empty()
    }
}

/// The line that opens the cluster of a node.
pub open spec fn open_text(id: Id) -> Seq<char> {
    "subgraph cluster_"@ + name_text(id) + " {\n"@
}

/// What a start marker writes: the opening of the cluster of the compound
/// that owns it, if any, and the opening of its own.
pub open spec fn marker_start_text(owners: Owners, id: Id) -> Seq<char> {
    (match owners.owner(id) {
        Some(parent) => open_text(parent),
        None => Seq::empty(),
    }) + open_text(id)
}

/// What an end marker writes: the closing of its cluster and, if a compound
/// owns it, the closing of that of the compound.
pub open spec fn marker_end_text(owners: Owners, id: Id) -> Seq<char> {
    "}\n"@ + (match owners.owner(id) {
        Some(parent) => "} // "@ + name_text(parent) + "\n"@,
        None => Seq::empty(),
    })
}

/// The cluster of branch `index` of a `Gamma`: its number as its label, and
/// its two markers.
pub open spec fn branch_text<N: Parameters + Description>(
    nodes: Map<Id, Node<N>>,
    table: Seq<PortCounts>,
    region: Region,
    index: nat,
) -> Seq<char> {
    open_text(region.start) + "label = \""@ + decimal(index) + "\";\n"@ + simple_text(
        nodes,
        table,
        region.start,
        region.start,
    ) + simple_text(nodes, table, region.end, region.end) + "}\n"@
}

/// The clusters of the first `count` branches of a `Gamma`.
pub open spec fn gamma_text<N: Parameters + Description>(
    nodes: Map<Id, Node<N>>,
    table: Seq<PortCounts>,
    regions: Seq<Region>,
    count: nat,
) -> Seq<char>
    decreases count,
{
    if count == 0 {
        Seq::empty()
    } else {
        gamma_text(nodes, table, regions, (count - 1) as nat) + branch_text(
            nodes,
            table,
            regions[count - 1],
            (count - 1) as nat,
        )
    }
}

/// What stands inside the cluster of a compound: for a `Gamma` the node
/// itself and its branches, for another the two markers of its region, the
/// links of the compound drawn into the start marker.
pub open spec fn inside_text<N: Parameters + Description>(
    nodes: Map<Id, Node<N>>,
    table: Seq<PortCounts>,
    id: Id,
    compound: Compound,
) -> Seq<char> {
    match compound {
        Compound::Gamma { regions, .. } => simple_text(nodes, table, id, id) + gamma_text(
            nodes,
            table,
            regions@,
            regions@.len(),
        ),
        Compound::Theta { region, .. } => simple_text(nodes, table, region.start, id)
            + simple_text(nodes, table, region.end, region.end),
        Compound::Lambda { region, .. } => simple_text(nodes, table, region.start, id)
            + simple_text(nodes, table, region.end, region.end),
        Compound::Phi { region, .. } => simple_text(nodes, table, region.start, id)
            + simple_text(nodes, table, region.end, region.end),
    }
}

/// The cluster of a compound.
pub open spec fn compound_text<N: Parameters + Description>(
    nodes: Map<Id, Node<N>>,
    table: Seq<PortCounts>,
    id: Id,
    compound: Compound,
) -> Seq<char> {
    open_text(id) + Group::of(compound).text() + inside_text(nodes, table, id, compound) + "}\n"@
}

/// What a node that the traversal emits writes.
pub open spec fn node_text<N: Parameters + Description>(
    nodes: Map<Id, Node<N>>,
    table: Seq<PortCounts>,
    owners: Owners,
    id: Id,
) -> Seq<char> {
    if !nodes.dom().contains(id) {
        Seq::empty()
    } else {
        match nodes[id] {
            Node::Simple(_) => simple_text(nodes, table, id, id),
            Node::Marker(Marker::Start) => marker_start_text(owners, id),
            Node::Marker(Marker::End { .. }) => marker_end_text(owners, id),
            Node::Compound(compound) => compound_text(nodes, table, id, compound),
        }
    }
}

/// What the nodes of `order` write, one after the other.
pub open spec fn insiders_text<N: Parameters + Description>(
    nodes: Map<Id, Node<N>>,
    table: Seq<PortCounts>,
    owners: Owners,
    order: Seq<Id>,
) -> Seq<char>
    decreases order.len(),
{
    if order.len() == 0 {
        Seq::empty()
    } else {
        insiders_text(nodes, table, owners, order.drop_last()) + node_text(
            nodes,
            table,
            owners,
            order.last(),
        )
    }
}

/// The node with the given index, if there is one.
pub open spec fn node_at<N>(nodes: Map<Id, Node<N>>, index: int) -> Option<Id> {
    if exists|id: Id| nodes.dom().contains(id) && id.index == index {
        Some(choose|id: Id| nodes.dom().contains(id) && id.index == index)
    } else {
        None
    }
}

/// What the nodes that the traversal did not mark write: each, by rising
/// index below `upto`, as a node by itself.
pub open spec fn outsiders_text<N: Parameters + Description>(
    nodes: Map<Id, Node<N>>,
    table: Seq<PortCounts>,
    seen: Set<Id>,
    upto: nat,
) -> Seq<char>
    decreases upto,
{
    if upto == 0 {
        Seq::empty()
    } else {
        outsiders_text(nodes, table, seen, (upto - 1) as nat) + (match node_at(nodes, upto - 1) {
            Some(id) => if seen.contains(id) {
                Seq::empty()
            } else {
                simple_text(nodes, table, id, id)
            },
            None => Seq::empty(),
        })
    }
}

/// The lines that open the picture.
pub open spec fn head_text() -> Seq<char> {
    "digraph {\n"@ + "node [shape = plain, style = filled, fillcolor = \"#DDDDFF\"];\n"@
        + "style = filled;\n"@
}

/// The picture of the graph: the opening lines, what the nodes write that
/// a traversal from the roots emits, in its order, then what the other
/// nodes write, and the closing line.
pub open spec fn dot_text<N: Parameters + Description>(
    nodes: Map<Id, Node<N>>,
    table: Seq<PortCounts>,
    owners: Owners,
    roots: Seq<Id>,
) -> Seq<char> {
    head_text() + insiders_text(nodes, table, owners, post_order(graph_of(nodes), roots))
        + outsiders_text(nodes, table, reached(graph_of(nodes), roots), bound(nodes.dom())) + "}\n"@
}

fn write_name(w: &mut String, id: Id)
    ensures
        final(w)@ == old(w)@ + name_text(id),
{
    write_decimal(w, id.index());
}

fn write_open(w: &mut String, id: Id)
    ensures
        final(w)@ == old(w)@ + open_text(id),
{
    w.append("subgraph cluster_");
    write_name(w, id);
    w.append(" {\n");
    assert(w@ =~= old(w)@ + open_text(id));
}

fn write_link_between<N>(w: &mut String, nodes: &Nodes<N>, from: Link, to: Link)
    ensures
        final(w)@ == old(w)@ + link_text(nodes@, from, to),
{
    let mut source = String::new();
    write_name(&mut source, region_end_of(nodes, from.node));
    let mut target = String::new();
    write_name(&mut target, region_start_of(nodes, to.node));
    assert(source@ =~= name_text(end_face(nodes@, from.node)));
    assert(target@ =~= name_text(start_face(nodes@, to.node)));
    Anchor::Out.write(w, source.as_str(), from.port);
    w.append(" -> ");
    Anchor::In.write(w, target.as_str(), to.port);
    w.append(";\n");
    assert(w@ =~= old(w)@ + link_text(nodes@, from, to));
}

fn write_links_in_place<N: Parameters>(w: &mut String, nodes: &Nodes<N>, id: Id, place: Id)
    ensures
        final(w)@ == old(w)@ + links_text(
            nodes@,
            id,
            place,
            drawn(links_of(nodes@, place).len()),
        ),
{
    let links = match nodes.get(place) {
        Some(node) => node.parameters(),
        None => &[],
    };
    assert(links@ == links_of(nodes@, place));
    let mut i: usize = 0;
    while i < links.len() && i <= u16::MAX as usize
        invariant
            i <= links@.len(),
            i <= 0x1_0000,
            links@ == links_of(nodes@, place),
            w@ == old(w)@ + links_text(nodes@, id, place, i as nat),
        decreases links@.len() - i,
    {
        let to = Link { node: id, port: i as u16 };
        write_link_between(w, nodes, links[i], to);
        proof {
            let step = link_text(nodes@, links@[i as int], to);
            assert(old(w)@ + links_text(nodes@, id, place, i as nat) + step =~= old(w)@ + (
            links_text(nodes@, id, place, i as nat) + step));
        }
        i += 1;
    }
}

fn write_simple<N: Parameters + Description>(
    w: &mut String,
    nodes: &Nodes<N>,
    table: &Vec<PortCounts>,
    id: Id,
    place: Id,
)
    ensures
        final(w)@ == old(w)@ + simple_text(nodes@, table@, id, place),
{
    let node = match nodes.get(id) {
        Some(node) => node,
        None => {
            assert(w@ =~= old(w)@ + Seq::<char>::empty());
            return ;
        },
    };
    if id.index() >= table.len() {
        assert(w@ =~= old(w)@ + Seq::<char>::empty());
        return ;
    }
    write_name(w, id);
    w.append(" ");
    table[id.index()].write(w, node);
    write_links_in_place(w, nodes, id, place);
    assert(w@ =~= old(w)@ + simple_text(nodes@, table@, id, place));
}

fn write_marker_start(w: &mut String, owners: &Owners, id: Id)
    ensures
        final(w)@ == old(w)@ + marker_start_text(*owners, id),
{
    if let Some(parent) = owners.get(id) {
        write_open(w, parent);
    }
    write_open(w, id);
    assert(w@ =~= old(w)@ + marker_start_text(*owners, id));
}

fn write_marker_end(w: &mut String, owners: &Owners, id: Id)
    ensures
        final(w)@ == old(w)@ + marker_end_text(*owners, id),
{
    w.append("}\n");
    if let Some(parent) = owners.get(id) {
        w.append("} // ");
        write_name(w, parent);
        w.append("\n");
    }
    assert(w@ =~= old(w)@ + marker_end_text(*owners, id));
}

fn write_branch<N: Parameters + Description>(
    w: &mut String,
    nodes: &Nodes<N>,
    table: &Vec<PortCounts>,
    region: Region,
    index: usize,
)
    ensures
        final(w)@ == old(w)@ + branch_text(nodes@, table@, region, index as nat),
{
    write_open(w, region.start);
    let ghost opened = w@;
    w.append("label = \"");
    write_decimal(w, index);
    w.append("\";\n");
    assert(w@ =~= opened + "label = \""@ + decimal(index as nat) + "\";\n"@);
    let ghost labelled = w@;
    write_simple(w, nodes, table, region.start, region.start);
    write_simple(w, nodes, table, region.end, region.end);
    w.append("}\n");
    assert(w@ =~= labelled + simple_text(nodes@, table@, region.start, region.start)
        + simple_text(nodes@, table@, region.end, region.end) + "}\n"@);
    assert(w@ =~= old(w)@ + branch_text(nodes@, table@, region, index as nat));
}

fn write_gamma<N: Parameters + Description>(
    w: &mut String,
    nodes: &Nodes<N>,
    table: &Vec<PortCounts>,
    regions: &[Region],
)
    ensures
        final(w)@ == old(w)@ + gamma_text(nodes@, table@, regions@, regions@.len()),
{
    let mut i: usize = 0;
    while i < regions.len()
        invariant
            i <= regions@.len(),
            w@ == old(w)@ + gamma_text(nodes@, table@, regions@, i as nat),
        decreases regions@.len() - i,
    {
        write_branch(w, nodes, table, regions[i], i);
        proof {
            let step = branch_text(nodes@, table@, regions@[i as int], i as nat);
            assert(old(w)@ + gamma_text(nodes@, table@, regions@, i as nat) + step =~= old(w)@ + (
            gamma_text(nodes@, table@, regions@, i as nat) + step));
        }
        i += 1;
    }
}

fn write_inside<N: Parameters + Description>(
    w: &mut String,
    nodes: &Nodes<N>,
    table: &Vec<PortCounts>,
    id: Id,
    compound: &Compound,
)
    ensures
        final(w)@ == old(w)@ + inside_text(nodes@, table@, id, *compound),
{
    match compound {
        Compound::Gamma { regions, .. } => {
            write_simple(w, nodes, table, id, id);
            write_gamma(w, nodes, table, regions.as_slice());
            assert(w@ =~= old(w)@ + (simple_text(nodes@, table@, id, id) + gamma_text(
                nodes@,
                table@,
                regions@,
                regions@.len(),
            )));
        },
        Compound::Theta { region, .. } => {
            write_simple(w, nodes, table, region.start, id);
            write_simple(w, nodes, table, region.end, region.end);
            assert(w@ =~= old(w)@ + (simple_text(nodes@, table@, region.start, id) + simple_text(
                nodes@,
                table@,
                region.end,
                region.end,
            )));
        },
        Compound::Lambda { region, .. } => {
            write_simple(w, nodes, table, region.start, id);
            write_simple(w, nodes, table, region.end, region.end);
            assert(w@ =~= old(w)@ + (simple_text(nodes@, table@, region.start, id) + simple_text(
                nodes@,
                table@,
                region.end,
                region.end,
            )));
        },
        Compound::Phi { region, .. } => {
            write_simple(w, nodes, table, region.start, id);
            write_simple(w, nodes, table, region.end, region.end);
            assert(w@ =~= old(w)@ + (simple_text(nodes@, table@, region.start, id) + simple_text(
                nodes@,
                table@,
                region.end,
                region.end,
            )));
        },
    }
}

fn write_compound<N: Parameters + Description>(
    w: &mut String,
    nodes: &Nodes<N>,
    table: &Vec<PortCounts>,
    id: Id,
    compound: &Compound,
)
    ensures
        final(w)@ == old(w)@ + compound_text(nodes@, table@, id, *compound),
{
    write_open(w, id);
    Group::from_compound(compound).write(w);
    write_inside(w, nodes, table, id, compound);
    w.append("}\n");
    assert(w@ =~= old(w)@ + compound_text(nodes@, table@, id, *compound));
}

fn write_node<N: Parameters + Description>(
    w: &mut String,
    nodes: &Nodes<N>,
    table: &Vec<PortCounts>,
    owners: &Owners,
    id: Id,
)
    ensures
        final(w)@ == old(w)@ + node_text(nodes@, table@, *owners, id),
{
    match nodes.get(id) {
        Some(Node::Simple(_)) => write_simple(w, nodes, table, id, id),
        Some(Node::Marker(Marker::Start)) => write_marker_start(w, owners, id),
        Some(Node::Marker(Marker::End { .. })) => write_marker_end(w, owners, id),
        Some(Node::Compound(compound)) => write_compound(w, nodes, table, id, compound),
        None => {
            assert(w@ =~= old(w)@ + Seq::<char>::empty());
        },
    }
}

/// A reusable writer of graphs in the DOT language.
pub struct Dot {
    topological: ReverseTopological,
    ports: Vec<PortCounts>,
    compounds: Owners,
}

impl Dot {
    /// The ports that the writer counted for the graph it wrote last.
    pub closed spec fn counts(&self) -> Seq<PortCounts> {
        self.ports@
    }

    /// The owners that the writer noted for the graph it wrote last.
    pub closed spec fn owners(&self) -> Owners {
        self.compounds
    }

    /// Creates a new, reusable [`Dot`] instance.
    pub fn new() -> (dot: Self)
        ensures
            dot.counts() == Seq::<PortCounts>::empty(),
            forall|marker: Id| dot.owners().owner(marker) is None,
    {
        Self { topological: ReverseTopological::new(), ports: Vec::new(), compounds: Owners::new() }
    }

    fn initialize<N: Parameters>(&mut self, nodes: &Nodes<N>)
        requires
            nodes.well_formed(),
        ensures
            counted(nodes@, final(self).ports@),
            final(self).compounds.settled(nodes@),
    {
        self.ports = count_ports(nodes);
        self.compounds.load(nodes);
    }

    fn write_insiders<N: Parameters + Description>(
        &mut self,
        w: &mut String,
        nodes: &Nodes<N>,
        roots: &[Id],
    )
        requires
            nodes.well_formed(),
        ensures
            final(self).ports == old(self).ports,
            final(self).compounds == old(self).compounds,
            final(w)@ == old(w)@ + insiders_text(
                nodes@,
                old(self).ports@,
                old(self).compounds,
                post_order(nodes.graph(), roots@),
            ),
            final(self).topological@.len() == bound(nodes.graph().dom()),
            marked(nodes.graph(), final(self).topological@) == reached(nodes.graph(), roots@),
    {
        let order = self.topological.iter(nodes, roots);
        let mut i: usize = 0;
        while i < order.len()
            invariant
                i <= order@.len(),
                self.ports == old(self).ports,
                self.compounds == old(self).compounds,
                self.topological@.len() == bound(nodes.graph().dom()),
                marked(nodes.graph(), self.topological@) == reached(nodes.graph(), roots@),
                w@ == old(w)@ + insiders_text(
                    nodes@,
                    self.ports@,
                    self.compounds,
                    order@.take(i as int),
                ),
            decreases order@.len() - i,
        {
            write_node(w, nodes, &self.ports, &self.compounds, order[i]);
            proof {
                let shorter = order@.take(i as int);
                let longer = order@.take(i + 1);
                assert(longer.drop_last() =~= shorter);
                let step = node_text(nodes@, self.ports@, self.compounds, order@[i as int]);
                assert(old(w)@ + insiders_text(nodes@, self.ports@, self.compounds, shorter) + step
                    =~= old(w)@ + (insiders_text(nodes@, self.ports@, self.compounds, shorter)
                    + step));
            }
            i += 1;
        }
        proof {
            assert(order@.take(i as int) =~= order@);
        }
    }

    fn write_outsiders<N: Parameters + Description>(&self, w: &mut String, nodes: &Nodes<N>)
        requires
            nodes.well_formed(),
            self.topological@.len() == bound(nodes.graph().dom()),
        ensures
            final(w)@ == old(w)@ + outsiders_text(
                nodes@,
                self.ports@,
                marked(nodes.graph(), self.topological@),
                bound(nodes@.dom()),
            ),
    {
        proof {
            nodes.lemma_graph();
        }
        let seen = self.topological.seen();
        let active = nodes.active();
        let ghost marks = marked(nodes.graph(), self.topological@);
        let mut i: usize = 0;
        while i < active
            invariant
                nodes.well_formed(),
                i <= active,
                active == bound(nodes@.dom()),
                seen@ == self.topological@,
                seen@.len() == active,
                nodes.graph().dom() == nodes@.dom(),
                distinct_indices(nodes@.dom()),
                marks == marked(nodes.graph(), self.topological@),
                w@ == old(w)@ + outsiders_text(nodes@, self.ports@, marks, i as nat),
            decreases active - i,
        {
            let ghost before = w@;
            let ghost step = match node_at(nodes@, i as int) {
                Some(id) => if marks.contains(id) {
                    Seq::<char>::empty()
                } else {
                    simple_text(nodes@, self.ports@, id, id)
                },
                None => Seq::<char>::empty(),
            };
            match nodes.key_at(i) {
                Some(id) => {
                    assert(node_at(nodes@, i as int) == Some(id));
                    if !seen[i] {
                        write_simple(w, nodes, &self.ports, id, id);
                    }
                },
                None => {},
            }
            proof {
                assert(w@ =~= before + step);
                assert(old(w)@ + outsiders_text(nodes@, self.ports@, marks, i as nat) + step
                    =~= old(w)@ + (outsiders_text(nodes@, self.ports@, marks, i as nat) + step));
            }
            i += 1;
        }
    }

    /// Writes the graph to the writer in the DOT format: what the nodes
    /// write that a traversal from the roots emits, in its order, and then
    /// what the other nodes write.
    pub fn write<N: Parameters + Description>(
        &mut self,
        writer: &mut String,
        nodes: &Nodes<N>,
        roots: &[Id],
    )
        requires
            nodes.well_formed(),
        ensures
            counted(nodes@, final(self).counts()),
            final(self).owners().settled(nodes@),
            final(writer)@ == old(writer)@ + dot_text(
                nodes@,
                final(self).counts(),
                final(self).owners(),
                roots@,
            ),
    {
        proof {
            nodes.lemma_graph();
        }
        writer.append("digraph {\n");
        writer.append("node [shape = plain, style = filled, fillcolor = \"#DDDDFF\"];\n");
        writer.append("style = filled;\n");
        assert(writer@ =~= old(writer)@ + head_text());
        self.initialize(nodes);
        self.write_insiders(writer, nodes, roots);
        self.write_outsiders(writer, nodes);
        writer.append("}\n");
        assert(writer@ =~= old(writer)@ + dot_text(nodes@, self.ports@, self.compounds, roots@));
    }
}

} // verus!
