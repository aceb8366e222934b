//! Removal of the nodes that cannot be reached from a set of roots.

use vstd::prelude::*;
use crate::data_flow::laws::sound;
use crate::data_flow::link::Id;
use crate::data_flow::node::Parameters;
use crate::data_flow::nodes::{bound, Nodes};
use crate::transform::laws::lemma_swept_sound;
use crate::visit::laws::{lemma_emits_once, swept};
use crate::visit::order::reached;
use crate::visit::reverse_topological::{marked, ReverseTopological};

verus! {

/// Marks all reachable nodes from the given roots, then removes all unmarked nodes.
///
/// A node stays if and only if a chain of links and regions leads to it from
/// one of the roots; a node that stays is not changed, and a graph that was
/// in order stays in order. The marks of the traversal are left as they
/// were when the nodes were removed.
pub fn run<N: Parameters>(nodes: &mut Nodes<N>, roots: &[Id], topological: &mut ReverseTopological)
    requires
        old(nodes).well_formed(),
    ensures
        final(nodes).well_formed(),
        final(nodes)@ == old(nodes)@.restrict(reached(old(nodes).graph(), roots@)),
        final(nodes).graph() == swept(old(nodes).graph(), roots@),
        sound(old(nodes).graph()) ==> sound(final(nodes).graph()),
        final(nodes).room() >= old(nodes).room(),
        forall|key: Id| final(nodes).issued(key) == old(nodes).issued(key),
        final(topological)@.len() == bound(old(nodes).graph().dom()),
        marked(old(nodes).graph(), final(topological)@) == reached(old(nodes).graph(), roots@),
        forall|i: int|
            0 <= i < final(topological)@.len() && final(topological)@[i] ==> exists|id: Id|
                reached(old(nodes).graph(), roots@).contains(id) && id.index == i,
{
    let ghost graph = nodes.graph();
    let ghost kept = reached(graph, roots@);
    proof {
        nodes.lemma_graph();
        lemma_emits_once(graph, roots@);
    }
    topological.iter(nodes, roots);
    let seen = topological.seen();
    nodes.retain_seen(seen);
    proof {
        let by_index = Set::new(|id: Id| id.index < seen@.len() && seen@[id.index as int]);
        assert(old(nodes)@.restrict(by_index) =~= old(nodes)@.restrict(kept)) by {
            assert forall|id: Id| old(nodes)@.dom().contains(id) implies (by_index.contains(id)
                <==> kept.contains(id)) by {
                assert(marked(graph, seen@).contains(id) <==> kept.contains(id));
            }
        }
        assert(nodes.graph() =~= swept(graph, roots@));
        if sound(graph) {
            lemma_swept_sound(graph, roots@);
        }
    }
}

} // verus!
