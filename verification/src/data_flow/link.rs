//! Node keys and the edge endpoints built from them.

use vstd::prelude::*;

verus! {

/// The index of an input or output of a node.
pub type Port = u16;

/// A stable key of a node: the slot it occupies and the generation of that
/// slot at the time the node was inserted.
#[derive(Clone, Copy, Debug, Hash, PartialEq, Eq, PartialOrd, Ord, Structural)]
pub struct Id {
    pub index: u32,
    pub version: u32,
}

impl Id {
    /// The position of the slot the key refers to.
    pub fn index(self) -> (position: usize)
        ensures
            position == self.index,
    {
        self.index as usize
    }
}

impl Default for Id {
    fn default() -> (id: Self)
        ensures
            id == (Id { index: 0, version: 0 }),
    {
        Id { index: 0, version: 0 }
    }
}

/// A region with a start and an end marker that delimit it.
#[derive(Clone, Copy, Debug, Hash, PartialEq, Eq, PartialOrd, Ord, Structural)]
pub struct Region {
    pub start: Id,
    pub end: Id,
}

impl Default for Region {
    fn default() -> (region: Self)
        ensures
            region == (Region { start: Id { index: 0, version: 0 }, end: Id { index: 0, version: 0 } }),
    {
        Region { start: Id::default(), end: Id::default() }
    }
}

/// One endpoint of an edge: a node and one of its ports.
#[derive(Clone, Copy, Debug, Hash, PartialEq, Eq, PartialOrd, Ord, Structural)]
pub struct Link {
    pub node: Id,
    pub port: Port,
}

impl Default for Link {
    fn default() -> (link: Self)
        ensures
            link == (Link { node: Id { index: 0, version: 0 }, port: 0 }),
    {
        Link { node: Id::default(), port: 0 }
    }
}

impl Link {
    /// Returns all [`Link`]s starting from the current one: those of the
    /// same node at this port and at every later port, in port order.
    pub fn iter(self) -> (links: Vec<Link>)
        ensures
            links@.len() == u16::MAX - self.port + 1,
            forall|i: int|
                0 <= i < links@.len() ==> links@[i] == (Link {
                    node: self.node,
                    port: (self.port + i) as u16,
                }),
    {
        let mut links: Vec<Link> = Vec::new();
        let mut port: u16 = self.port;
        while port < u16::MAX
            invariant
                self.port <= port,
                links@.len() == port - self.port,
                forall|i: int|
                    0 <= i < links@.len() ==> links@[i] == (Link {
                        node: self.node,
                        port: (self.port + i) as u16,
                    }),
            decreases u16::MAX - port,
        {
            links.push(Link { node: self.node, port });
            port += 1;
        }
        links.push(Link { node: self.node, port });
        links
    }
}

impl From<Id> for Link {
    /// The link that reads the first port of the node.
    fn from(node: Id) -> (link: Self) {
        Link { node, port: 0 }
    }
}

impl vstd::std_specs::convert::FromSpecImpl<Id> for Link {
    open spec fn obeys_from_spec() -> bool {
        true
    }

    open spec fn from_spec(node: Id) -> Self {
        Link { node, port: 0 }
    }
}

} // verus!
