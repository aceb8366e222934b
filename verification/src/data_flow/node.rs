//! The nodes of the graph and the capabilities of their payloads.

use vstd::prelude::*;
use crate::data_flow::link::{Id, Link, Region};
use crate::data_flow::regions::RegionList;

verus! {

/// A payload that can list the links it reads.
pub trait Parameters {
    /// The links read by the payload, in port order.
    spec fn links(&self) -> Seq<Link>;

    /// Returns the links read by the payload, in port order.
    fn parameters(&self) -> (list: &[Link])
        ensures
            list@ == self.links(),
    ;
}

/// A payload whose links can be redirected in place.
pub trait ParametersMut: Parameters {
    /// Returns the links read by the payload for writing. What is left in the
    /// slice when the borrow ends is what the payload reads from then on.
    fn parameters_mut(&mut self) -> (list: &mut [Link])
        ensures
            list@ == old(self).links(),
            final(self).links() == final(list)@,
    ;
}

/// A payload that may keep its links as one contiguous list.
pub trait AsParameters: Parameters {
    /// Whether the payload keeps its links as one list.
    spec fn stores_links(&self) -> bool;

    /// Returns the list of links, if the payload keeps one.
    fn as_parameters(&self) -> (list: Option<&[Link]>)
        ensures
            list is Some <==> self.stores_links(),
            list is Some ==> list->0@ == self.links(),
    ;
}

/// A payload that may hand out its list of links for writing.
pub trait AsParametersMut: AsParameters {
    /// Returns the list of links for writing, if the payload keeps one. What
    /// is left in the list when the borrow ends is what the payload reads
    /// from then on.
    fn as_parameters_mut(&mut self) -> (list: Option<&mut Vec<Link>>)
        ensures
            match list {
                Some(list) => old(self).stores_links() && list@ == old(self).links() && final(self).links() == final(list)@ && final(self).stores_links(),
                None => !old(self).stores_links() && final(self).links() == old(self).links()
                    && !final(self).stores_links(),
            },
    ;
}

/// A payload that is nothing but the list of links it reads.
impl Parameters for Vec<Link> {
    open spec fn links(&self) -> Seq<Link> {
        self@
    }

    fn parameters(&self) -> (list: &[Link]) {
        self.as_slice()
    }
}

impl ParametersMut for Vec<Link> {
    fn parameters_mut(&mut self) -> (list: &mut [Link]) {
        self.as_mut_slice()
    }
}

impl AsParameters for Vec<Link> {
    open spec fn stores_links(&self) -> bool {
        true
    }

    fn as_parameters(&self) -> (list: Option<&[Link]>) {
        Some(self.as_slice())
    }
}

impl AsParametersMut for Vec<Link> {
    fn as_parameters_mut(&mut self) -> (list: Option<&mut Vec<Link>>) {
        Some(self)
    }
}

/// A payload that reads at most one link.
impl Parameters for Option<Link> {
    open spec fn links(&self) -> Seq<Link> {
        match self {
            Some(link) => seq![*link],
            None => Seq::empty(),
        }
    }

    fn parameters(&self) -> (list: &[Link]) {
        self.as_slice()
    }
}

impl ParametersMut for Option<Link> {
    fn parameters_mut(&mut self) -> (list: &mut [Link]) {
        self.as_mut_slice()
    }
}

impl AsParameters for Option<Link> {
    open spec fn stores_links(&self) -> bool {
        false
    }

    fn as_parameters(&self) -> (list: Option<&[Link]>) {
        None
    }
}

impl AsParametersMut for Option<Link> {
    fn as_parameters_mut(&mut self) -> (list: Option<&mut Vec<Link>>) {
        None
    }
}

/// A payload that keeps the links it reads in a list beside its data.
pub struct Payload<D> {
    pub data: D,
    pub parameters: Vec<Link>,
}

impl<D> Parameters for Payload<D> {
    open spec fn links(&self) -> Seq<Link> {
        self.parameters@
    }

    fn parameters(&self) -> (list: &[Link]) {
        self.parameters.as_slice()
    }
}

impl<D> ParametersMut for Payload<D> {
    fn parameters_mut(&mut self) -> (list: &mut [Link]) {
        self.parameters.as_mut_slice()
    }
}

impl<D> AsParameters for Payload<D> {
    open spec fn stores_links(&self) -> bool {
        true
    }

    fn as_parameters(&self) -> (list: Option<&[Link]>) {
        Some(self.parameters.as_slice())
    }
}

impl<D> AsParametersMut for Payload<D> {
    fn as_parameters_mut(&mut self) -> (list: Option<&mut Vec<Link>>) {
        Some(&mut self.parameters)
    }
}

/// `std::slice::from_ref`: a slice of length one that holds the referent.
pub assume_specification<T>[ std::slice::from_ref ](value: &T) -> (slice: &[T])
    ensures
        slice@ == seq![*value],
;

/// A marker node.
///
/// It is used to mark the start and end of a region.
#[derive(Clone, Debug)]
pub enum Marker {
    /// The "start" node.
    ///
    /// It represents the start and arguments to a region.
    Start,
    /// The "end" node.
    ///
    /// It represents the end and returns of a region.
    End { parameters: Vec<Link> },
}

impl Marker {
    /// The links read by the marker: none for `Start`, the results of the
    /// region for `End`.
    pub open spec fn links(&self) -> Seq<Link> {
        match self {
            Marker::Start => Seq::empty(),
            Marker::End { parameters } => parameters@,
        }
    }

    /// Returns a reference to the parameters of the node.
    pub fn as_parameters(&self) -> (list: Option<&[Link]>)
        ensures
            list is Some <==> self is End,
            list is Some ==> list->0@ == self.links(),
    {
        match self {
            Marker::Start => None,
            Marker::End { parameters } => Some(parameters.as_slice()),
        }
    }

    /// Returns a mutable reference to the parameters of the node.
    pub fn as_parameters_mut(&mut self) -> (list: Option<&mut Vec<Link>>)
        ensures
            match list {
                Some(list) => (*old(self)) is End && list@ == old(self).links() && *final(self)
                    == (Marker::End { parameters: *final(list) }),
                None => (*old(self)) is Start && *final(self) == *old(self),
            },
    {
        match self {
            Marker::Start => None,
            Marker::End { parameters } => Some(parameters),
        }
    }
}

/// A compound node.
///
/// It is used to represent regions and their parameters.
#[derive(Clone, Debug)]
pub enum Compound {
    /// The "select" node.
    ///
    /// The node's last input denotes which region to select.
    /// All other values are passed to `start`.
    /// All values passed to `end` are output.
    Gamma { parameters: Vec<Link>, regions: RegionList },
    /// The "loop" node.
    ///
    /// The node's inputs are passed to `start`.
    /// The `end`'s last input decides whether to loop.
    /// All other values are either passed to `start` or output.
    Theta { parameters: Vec<Link>, region: Region },
    /// The "function" node.
    ///
    /// The node's inputs are passed to `start`.
    /// The function itself is output.
    Lambda { parameters: Vec<Link>, region: Region },
    /// The "mutual recursion" node.
    ///
    /// The node's inputs are passed to `start`.
    /// The `end`'s inputs are passed to `start`.
    Phi { parameters: Vec<Link>, region: Region },
}

impl Compound {
    /// The links read by the node, in port order.
    pub open spec fn links(&self) -> Seq<Link> {
        match self {
            Compound::Gamma { parameters, .. } => parameters@,
            Compound::Theta { parameters, .. } => parameters@,
            Compound::Lambda { parameters, .. } => parameters@,
            Compound::Phi { parameters, .. } => parameters@,
        }
    }

    /// The regions owned by the node, in declaration order.
    pub open spec fn owned(&self) -> Seq<Region> {
        match self {
            Compound::Gamma { regions, .. } => regions@,
            Compound::Theta { region, .. } => seq![*region],
            Compound::Lambda { region, .. } => seq![*region],
            Compound::Phi { region, .. } => seq![*region],
        }
    }

    /// Which of the four constructs the node is.
    pub open spec fn kind(&self) -> Kind {
        match self {
            Compound::Gamma { .. } => Kind::Gamma,
            Compound::Theta { .. } => Kind::Theta,
            Compound::Lambda { .. } => Kind::Lambda,
            Compound::Phi { .. } => Kind::Phi,
        }
    }

    /// Returns a reference to the parameters of the node.
    pub fn as_parameters(&self) -> (list: &[Link])
        ensures
            list@ == self.links(),
    {
        match self {
            Compound::Gamma { parameters, .. } => parameters.as_slice(),
            Compound::Theta { parameters, .. } => parameters.as_slice(),
            Compound::Lambda { parameters, .. } => parameters.as_slice(),
            Compound::Phi { parameters, .. } => parameters.as_slice(),
        }
    }

    /// Returns a mutable reference to the parameters of the node.
    pub fn as_parameters_mut(&mut self) -> (list: &mut Vec<Link>)
        ensures
            list@ == old(self).links(),
            final(self).links() == final(list)@,
            final(self).owned() == old(self).owned(),
            final(self).kind() == old(self).kind(),
    {
        match self {
            Compound::Gamma { parameters, .. } => parameters,
            Compound::Theta { parameters, .. } => parameters,
            Compound::Lambda { parameters, .. } => parameters,
            Compound::Phi { parameters, .. } => parameters,
        }
    }

    /// Returns the regions of the node.
    pub fn regions(&self) -> (list: &[Region])
        ensures
            list@ == self.owned(),
    {
        match self {
            Compound::Gamma { regions, .. } => regions.as_slice(),
            Compound::Theta { region, .. } => std::slice::from_ref(region),
            Compound::Lambda { region, .. } => std::slice::from_ref(region),
            Compound::Phi { region, .. } => std::slice::from_ref(region),
        }
    }
}

/// A node in the data flow graph.
#[derive(Clone, Debug)]
pub enum Node<N> {
    Simple(N),
    Marker(Marker),
    Compound(Compound),
}

/// The seven forms a node can take.
pub enum Kind {
    Simple,
    Start,
    End,
    Gamma,
    Theta,
    Lambda,
    Phi,
}

/// What the graph algorithms read of a node: its form, the links it reads and
/// the regions it owns.
pub struct Shape {
    pub kind: Kind,
    pub links: Seq<Link>,
    pub regions: Seq<Region>,
}

impl Shape {
    /// The shape of a `Start` marker.
    pub open spec fn start() -> Shape {
        Shape { kind: Kind::Start, links: Seq::empty(), regions: Seq::empty() }
    }

    /// The shape of an `End` marker that collects the given results.
    pub open spec fn end(links: Seq<Link>) -> Shape {
        Shape { kind: Kind::End, links, regions: Seq::empty() }
    }

    /// The keys that a traversal visits before the node itself: the producer
    /// of each link in port order, then the start and the end marker of each
    /// owned region in declaration order.
    pub open spec fn dependencies(self) -> Seq<Id> {
        Seq::new(
            self.links.len() + 2 * self.regions.len(),
            |i: int|
                if i < self.links.len() {
                    self.links[i].node
                } else if (i - self.links.len()) % 2 == 0 {
                    self.regions[(i - self.links.len()) / 2].start
                } else {
                    self.regions[(i - self.links.len()) / 2].end
                },
        )
    }
}

impl<N> Node<N> {
    /// The regions owned by the node: none unless it is a compound.
    pub open spec fn owned(&self) -> Seq<Region> {
        match self {
            Node::Compound(compound) => compound.owned(),
            _ => Seq::empty(),
        }
    }

    /// Returns a reference to the [`Node::Simple`] node if it is one.
    pub fn as_simple(&self) -> (simple: Option<&N>)
        ensures
            simple is Some <==> self is Simple,
            simple is Some ==> *simple->0 == self->Simple_0,
    {
        if let Node::Simple(simple) = self {
            Some(simple)
        } else {
            None
        }
    }

    /// Returns a mutable reference to the [`Node::Simple`] node if it is one.
    pub fn as_simple_mut(&mut self) -> (simple: Option<&mut N>)
        ensures
            match simple {
                Some(simple) => (*old(self)) is Simple && *simple == old(self)->Simple_0
                    && *final(self) == Node::<N>::Simple(*final(simple)),
                None => !((*old(self)) is Simple) && *final(self) == *old(self),
            },
    {
        match self {
            Node::Simple(simple) => Some(simple),
            _ => None,
        }
    }

    /// Returns a reference to the [`Node::Marker`] node if it is one.
    pub fn as_marker(&self) -> (marker: Option<&Marker>)
        ensures
            marker is Some <==> self is Marker,
            marker is Some ==> *marker->0 == self->Marker_0,
    {
        if let Node::Marker(marker) = self {
            Some(marker)
        } else {
            None
        }
    }

    /// Returns a mutable reference to the [`Node::Marker`] node if it is one.
    pub fn as_marker_mut(&mut self) -> (marker: Option<&mut Marker>)
        ensures
            match marker {
                Some(marker) => (*old(self)) is Marker && *marker == old(self)->Marker_0
                    && *final(self) == Node::<N>::Marker(*final(marker)),
                None => !((*old(self)) is Marker) && *final(self) == *old(self),
            },
    {
        match self {
            Node::Marker(marker) => Some(marker),
            _ => None,
        }
    }

    /// Returns a reference to the [`Node::Compound`] node if it is one.
    pub fn as_compound(&self) -> (compound: Option<&Compound>)
        ensures
            compound is Some <==> self is Compound,
            compound is Some ==> *compound->0 == self->Compound_0,
    {
        if let Node::Compound(compound) = self {
            Some(compound)
        } else {
            None
        }
    }

    /// Returns a mutable reference to the [`Node::Compound`] node if it is one.
    pub fn as_compound_mut(&mut self) -> (compound: Option<&mut Compound>)
        ensures
            match compound {
                Some(compound) => (*old(self)) is Compound && *compound == old(self)->Compound_0
                    && *final(self) == Node::<N>::Compound(*final(compound)),
                None => !((*old(self)) is Compound) && *final(self) == *old(self),
            },
    {
        match self {
            Node::Compound(compound) => Some(compound),
            _ => None,
        }
    }
}

impl<N: Parameters> Node<N> {
    /// The links read by the node, in port order.
    pub open spec fn links(&self) -> Seq<Link> {
        match self {
            Node::Simple(simple) => simple.links(),
            Node::Marker(marker) => marker.links(),
            Node::Compound(compound) => compound.links(),
        }
    }

    /// The form of the node.
    pub open spec fn kind(&self) -> Kind {
        match self {
            Node::Simple(_) => Kind::Simple,
            Node::Marker(Marker::Start) => Kind::Start,
            Node::Marker(Marker::End { .. }) => Kind::End,
            Node::Compound(compound) => compound.kind(),
        }
    }

    /// What the graph algorithms read of the node.
    pub open spec fn shape(&self) -> Shape {
        Shape { kind: self.kind(), links: self.links(), regions: self.owned() }
    }

    /// Returns the links read by the node, in port order: those of the
    /// payload for a simple node, the parameters of a compound, the results
    /// collected by an `End` marker, and nothing for a `Start` marker.
    pub fn parameters(&self) -> (list: &[Link])
        ensures
            list@ == self.links(),
    {
        match self {
            Node::Simple(simple) => simple.parameters(),
            Node::Marker(Marker::Start) => &[],
            Node::Marker(Marker::End { parameters }) => parameters.as_slice(),
            Node::Compound(compound) => compound.as_parameters(),
        }
    }
}

impl<N: ParametersMut> Node<N> {
    /// Returns the links read by the node for writing. The node keeps its
    /// form and its regions; what is left in the slice when the borrow ends
    /// is what the node reads from then on.
    pub fn parameters_mut(&mut self) -> (list: &mut [Link])
        ensures
            list@ == old(self).links(),
            final(self).links() == final(list)@,
            final(self).kind() == old(self).kind(),
            final(self).owned() == old(self).owned(),
    {
        match self {
            Node::Simple(simple) => simple.parameters_mut(),
            Node::Marker(Marker::Start) => &mut [],
            Node::Marker(Marker::End { parameters }) => parameters.as_mut_slice(),
            Node::Compound(compound) => compound.as_parameters_mut().as_mut_slice(),
        }
    }
}

impl<N: AsParameters> Node<N> {
    /// Whether the node keeps its links as one list: a payload may, a `Start`
    /// marker does not, every other node does.
    pub open spec fn stores_links(&self) -> bool {
        match self {
            Node::Simple(simple) => simple.stores_links(),
            Node::Marker(marker) => marker is End,
            Node::Compound(_) => true,
        }
    }

    /// Returns the list of links of the node, if it keeps one.
    pub fn as_parameters(&self) -> (list: Option<&[Link]>)
        ensures
            list is Some <==> self.stores_links(),
            list is Some ==> list->0@ == self.links(),
    {
        match self {
            Node::Simple(simple) => simple.as_parameters(),
            Node::Marker(marker) => marker.as_parameters(),
            Node::Compound(compound) => Some(compound.as_parameters()),
        }
    }
}

impl<N: AsParametersMut> Node<N> {
    /// Returns the list of links of the node for writing, if it keeps one.
    /// The node keeps its form and its regions; what is left in the list when
    /// the borrow ends is what the node reads from then on.
    pub fn as_parameters_mut(&mut self) -> (list: Option<&mut Vec<Link>>)
        ensures
            match list {
                Some(list) => old(self).stores_links() && list@ == old(self).links() && final(self).links() == final(list)@,
                None => !old(self).stores_links() && final(self).links() == old(self).links(),
            },
            final(self).kind() == old(self).kind(),
            final(self).owned() == old(self).owned(),
    {
        match self {
            Node::Simple(simple) => simple.as_parameters_mut(),
            Node::Marker(marker) => marker.as_parameters_mut(),
            Node::Compound(compound) => Some(compound.as_parameters_mut()),
        }
    }
}

} // verus!
