//! Mark-and-sweep with a traversal of its own.

use vstd::prelude::*;
use crate::data_flow::laws::sound;
use crate::data_flow::link::Id;
use crate::data_flow::node::Parameters;
use crate::data_flow::nodes::{bound, Nodes};
use crate::transform::retain_only::run;
use crate::visit::laws::swept;
use crate::visit::order::reached;
use crate::visit::reverse_topological::{marked, ReverseTopological};

verus! {

/// A reusable pass that keeps what can be reached from a set of roots.
pub struct MarkAndSweep {
    topological: ReverseTopological,
}

impl View for MarkAndSweep {
    type V = Seq<bool>;

    /// The marks of the last run by node index.
    closed spec fn view(&self) -> Seq<bool> {
        self.topological@
    }
}

impl Default for MarkAndSweep {
    /// Creates a new, reusable [`MarkAndSweep`] instance.
    fn default() -> (pass: Self)
        ensures
            pass@ == Seq::<bool>::empty(),
    {
        Self::new()
    }
}

impl MarkAndSweep {
    /// Creates a new, reusable [`MarkAndSweep`] instance.
    pub fn new() -> (pass: Self)
        ensures
            pass@ == Seq::<bool>::empty(),
    {
        Self { topological: ReverseTopological::new() }
    }

    /// Returns the marks of the last run by node index.
    pub fn seen(&self) -> (seen: &[bool])
        ensures
            seen@ == self@,
    {
        self.topological.seen()
    }

    /// Removes every node that is not marked.
    fn sweep<N>(&self, nodes: &mut Nodes<N>)
        requires
            old(nodes).well_formed(),
        ensures
            final(nodes).well_formed(),
            final(nodes)@ == old(nodes)@.restrict(
                Set::new(|id: Id| id.index < self@.len() && self@[id.index as int]),
            ),
            final(nodes).room() >= old(nodes).room(),
            forall|key: Id| final(nodes).issued(key) == old(nodes).issued(key),
    {
        nodes.retain_seen(self.topological.seen());
    }

    /// Runs the mark-and-sweep algorithm on the given [`Nodes`]: a node
    /// stays if and only if a chain of links and regions leads to it from
    /// one of the roots, and a node that stays is not changed.
    pub fn run<N: Parameters>(&mut self, nodes: &mut Nodes<N>, roots: &[Id])
        requires
            old(nodes).well_formed(),
        ensures
            final(nodes).well_formed(),
            final(nodes)@ == old(nodes)@.restrict(reached(old(nodes).graph(), roots@)),
            final(nodes).graph() == swept(old(nodes).graph(), roots@),
            sound(old(nodes).graph()) ==> sound(final(nodes).graph()),
            final(nodes).room() >= old(nodes).room(),
            forall|key: Id| final(nodes).issued(key) == old(nodes).issued(key),
            final(self)@.len() == bound(old(nodes).graph().dom()),
            marked(old(nodes).graph(), final(self)@) == reached(old(nodes).graph(), roots@),
            forall|i: int|
                0 <= i < final(self)@.len() && final(self)@[i] ==> exists|id: Id|
                    reached(old(nodes).graph(), roots@).contains(id) && id.index == i,
    {
        run(nodes, roots, &mut self.topological);
    }
}

} // verus!
