//! The store that owns every node of a graph.

use vstd::prelude::*;
use crate::data_flow::invariants::{acyclic, closed, regions_apart};
use crate::data_flow::laws::{lemma_inserted, lemma_sound_regions, tidy};
use crate::data_flow::link::{Id, Link, Region};
use crate::data_flow::node::{Compound, Kind, Marker, Node, Parameters, Shape};
use crate::data_flow::regions::RegionList;

verus! {

/// Why the store refused to add a node.
#[derive(Clone, Copy, Debug, PartialEq, Eq, Structural)]
pub enum Error {
    /// Every index that fits in 32 bits is taken.
    CapacityExhausted,
    /// The node cannot be built as asked: a link reads from a node that is
    /// not in the store, the regions handed to a `Gamma` are not branches of
    /// one arity, or a region of its own was asked for a kind of node that
    /// owns none.
    ShapeViolation,
}

/// One place of the arena: the generation it is in and the node it holds in
/// that generation, if any.
struct Slot<N> {
    version: u32,
    node: Option<Node<N>>,
}

/// A Regionalized Value State Dependence Graph.
///
/// It is an acyclic graph that represents the data flow of a program. The
/// nodes live in slots; a key names a slot and the generation the slot was in
/// when the node was inserted, so that a key of a removed node never reaches
/// a node that took its place.
pub struct Nodes<N> {
    slots: Vec<Slot<N>>,
    free: Vec<u32>,
}

/// Whether `n` is one past the largest index among `keys`, or zero if there
/// are no keys.
pub open spec fn is_bound(keys: Set<Id>, n: nat) -> bool {
    &&& forall|id: Id| keys.contains(id) ==> id.index < n
    &&& n > 0 ==> exists|id: Id| keys.contains(id) && id.index == n - 1
}

/// One past the largest index among `keys`, or zero if there are no keys.
pub open spec fn bound(keys: Set<Id>) -> nat {
    choose|n: nat| is_bound(keys, n)
}

/// At most one number is one past the largest index of a set of keys.
pub proof fn lemma_bound_unique(keys: Set<Id>, a: nat, b: nat)
    requires
        is_bound(keys, a),
        is_bound(keys, b),
    ensures
        a == b,
{
    if a < b {
        let id = choose|id: Id| keys.contains(id) && id.index == b - 1;
        assert(id.index < a);
    } else if b < a {
        let id = choose|id: Id| keys.contains(id) && id.index == a - 1;
        assert(id.index < b);
    }
}

/// Whether no two of the keys share an index.
pub open spec fn distinct_indices(keys: Set<Id>) -> bool {
    forall|a: Id, b: Id| keys.contains(a) && keys.contains(b) && a.index == b.index ==> a == b
}

/// The keys of the markers of the given regions.
pub open spec fn markers(regions: Seq<Region>) -> Set<Id> {
    Set::new(
        |id: Id|
            exists|i: int|
                0 <= i < regions.len() && (#[trigger] regions[i].start == id || regions[i].end
                    == id),
    )
}

impl<N> Nodes<N> {
    /// The invariant of the arena: indices fit in 32 bits, an occupied slot
    /// has generations to spare, and the free list names vacant slots, each
    /// once.
    pub closed spec fn well_formed(&self) -> bool {
        &&& self.slots@.len() <= u32::MAX
        &&& forall|i: int|
            0 <= i < self.slots@.len() && (#[trigger] self.slots@[i]).node is Some
                ==> self.slots@[i].version < u32::MAX
        &&& forall|k: int|
            0 <= k < self.free@.len() ==> (#[trigger] self.free@[k]) < self.slots@.len()
                && self.slots@[self.free@[k] as int].node is None && self.slots@[self.free@[k] as int].version
                < u32::MAX
        &&& forall|j: int, k: int|
            0 <= j < k < self.free@.len() ==> self.free@[j] != self.free@[k]
    }

    /// Whether `id` is the key of a node that is in the store.
    pub closed spec fn live(&self, id: Id) -> bool {
        &&& id.index < self.slots@.len()
        &&& self.slots@[id.index as int].version == id.version
        &&& self.slots@[id.index as int].node is Some
    }

    /// Whether `id` was handed out since the store was last empty by
    /// construction or by `clear`: such a key is never handed out again.
    pub closed spec fn issued(&self, id: Id) -> bool {
        &&& id.index < self.slots@.len()
        &&& (id.version < self.slots@[id.index as int].version || self.live(id))
    }

    /// The number of nodes that can still be added before the store is full.
    pub closed spec fn room(&self) -> nat {
        (self.free@.len() + (u32::MAX - self.slots@.len())) as nat
    }

    /// The nodes of the store by their keys.
    pub closed spec fn view(&self) -> Map<Id, Node<N>> {
        Map::new(|id: Id| self.live(id), |id: Id| self.slots@[id.index as int].node->0)
    }

    /// A store is a finite map, two of its keys never share an index, and
    /// its keys are among those it has handed out.
    pub proof fn lemma_keys(&self)
        requires
            self.well_formed(),
        ensures
            self@.dom().finite(),
            distinct_indices(self@.dom()),
            forall|id: Id| self@.dom().contains(id) ==> self.issued(id),
    {
        let len = self.slots@.len() as int;
        let slots = self.slots@;
        let indices = Set::new(|i: int| 0 <= i < len);
        assert(indices =~= vstd::set_lib::set_int_range(0, len));
        vstd::set_lib::lemma_int_range(0, len);
        let key = |i: int| Id { index: i as u32, version: slots[i].version };
        let image = indices.map(key);
        indices.lemma_map_finite(key);
        assert forall|id: Id| self@.dom().contains(id) implies image.contains(id) by {
            assert(indices.contains(id.index as int));
            assert(key(id.index as int) == id);
        }
        assert(self@.dom().subset_of(image));
        vstd::set_lib::lemma_len_subset(self@.dom(), image);
    }

    /// Creates a new, empty [`Nodes`].
    pub fn new() -> (nodes: Self)
        ensures
            nodes.well_formed(),
            nodes@ == Map::<Id, Node<N>>::empty(),
            nodes.room() == u32::MAX,
            forall|id: Id| !nodes.issued(id),
    {
        let nodes = Nodes { slots: Vec::new(), free: Vec::new() };
        assert(nodes@ =~= Map::<Id, Node<N>>::empty());
        nodes
    }

    /// Creates a new, empty [`Nodes`] with the specified capacity.
    pub fn with_capacity(capacity: usize) -> (nodes: Self)
        ensures
            nodes.well_formed(),
            nodes@ == Map::<Id, Node<N>>::empty(),
            nodes.room() == u32::MAX,
            forall|id: Id| !nodes.issued(id),
    {
        let nodes = Nodes { slots: Vec::with_capacity(capacity), free: Vec::new() };
        assert(nodes@ =~= Map::<Id, Node<N>>::empty());
        nodes
    }

    /// Returns one past the largest index of a node in the store, or zero if
    /// the store is empty: the length that a table indexed by the nodes needs.
    pub fn active(&self) -> (count: usize)
        requires
            self.well_formed(),
        ensures
            count == bound(self@.dom()),
            is_bound(self@.dom(), count as nat),
            count <= u32::MAX,
    {
        let mut count: usize = self.slots.len();
        while count > 0 && self.slots[count - 1].node.is_none()
            invariant
                count <= self.slots@.len(),
                forall|i: int| count <= i < self.slots@.len() ==> self.slots@[i].node is None,
            decreases count,
        {
            count -= 1;
        }
        proof {
            if count > 0 {
                let id = Id { index: (count - 1) as u32, version: self.slots@[count - 1].version };
                assert(self@.dom().contains(id));
            }
            assert(is_bound(self@.dom(), count as nat));
            lemma_bound_unique(self@.dom(), count as nat, bound(self@.dom()));
        }
        count
    }

    /// Whether `id` is the key of a node that is in the store.
    pub fn contains(&self, id: Id) -> (found: bool)
        ensures
            found == self@.dom().contains(id),
    {
        let index = id.index as usize;
        index < self.slots.len() && self.slots[index].version == id.version
            && self.slots[index].node.is_some()
    }

    /// Returns the key of the node at the given index, or nothing if no node
    /// of the store has that index.
    pub fn key_at(&self, index: usize) -> (key: Option<Id>)
        requires
            self.well_formed(),
        ensures
            match key {
                Some(id) => self@.dom().contains(id) && id.index == index,
                None => forall|id: Id| self@.dom().contains(id) ==> id.index != index,
            },
    {
        if index < self.slots.len() && self.slots[index].node.is_some() {
            Some(Id { index: index as u32, version: self.slots[index].version })
        } else {
            None
        }
    }

    /// Returns the node with the given key, or nothing if that node is not,
    /// or no longer, in the store.
    pub fn get(&self, id: Id) -> (node: Option<&Node<N>>)
        ensures
            node is Some <==> self@.dom().contains(id),
            node is Some ==> *node->0 == self@[id],
    {
        let index = id.index as usize;
        if index < self.slots.len() && self.slots[index].version == id.version {
            self.slots[index].node.as_ref()
        } else {
            None
        }
    }

    /// Returns the node with the given key for writing, or nothing if that
    /// node is not, or no longer, in the store.
    pub fn get_mut(&mut self, id: Id) -> (node: Option<&mut Node<N>>)
        requires
            old(self).well_formed(),
        ensures
            match node {
                Some(node) => old(self)@.dom().contains(id) && *node == old(self)@[id] && final(self)@ == old(self)@.insert(id, *final(node)),
                None => !old(self)@.dom().contains(id) && final(self)@ == old(self)@,
            },
            final(self).well_formed(),
            final(self).room() == old(self).room(),
            forall|key: Id| final(self).issued(key) == old(self).issued(key),
    {
        let index = id.index as usize;
        if index < self.slots.len() && self.slots[index].version == id.version {
            self.slots[index].node.as_mut()
        } else {
            None
        }
    }
}

impl<N> Nodes<N> {
    /// Adds a node to the store and returns its key, which no node had
    /// before, whatever the node reads. Fails, and leaves the store as it
    /// is, if the store is full.
    pub fn insert(&mut self, node: Node<N>) -> (key: Result<Id, Error>)
        requires
            old(self).well_formed(),
        ensures
            final(self).well_formed(),
            match key {
                Ok(id) => old(self).room() > 0 && final(self).room() == old(self).room() - 1
                    && !old(self).issued(id) && final(self)@ == old(self)@.insert(id, node)
                    && (forall|key: Id|
                    final(self).issued(key) == (old(self).issued(key) || key == id)),
                Err(error) => error == Error::CapacityExhausted && old(self).room() == 0
                    && final(self)@ == old(self)@ && final(self).room() == 0 && (forall|key: Id|
                    final(self).issued(key) == old(self).issued(key)),
            },
    {
        if let Some(index) = self.free.pop() {
            assert(index == old(self).free@[old(self).free@.len() - 1]);
            let position = index as usize;
            let version = self.slots[position].version;
            self.slots[position].node = Some(node);
            let id = Id { index, version };
            proof {
                assert(!old(self).issued(id));
                assert forall|key: Id|
                    final(self).issued(key) == (old(self).issued(key) || key == id) by {}
                assert(final(self)@ =~= old(self)@.insert(id, node)) by {
                    assert forall|key: Id| #[trigger]
                        final(self)@.dom().contains(key) == old(self)@.insert(
                            id,
                            node,
                        ).dom().contains(key) by {}
                }
                assert forall|k: int| 0 <= k < self.free@.len() implies (#[trigger] self.free@[k])
                    != index by {
                    assert(old(self).free@[k] == self.free@[k]);
                }
            }
            Ok(id)
        } else if self.slots.len() < u32::MAX as usize {
            let index = self.slots.len() as u32;
            self.slots.push(Slot { version: 0, node: Some(node) });
            let id = Id { index, version: 0 };
            proof {
                assert(!old(self).issued(id));
                assert forall|key: Id|
                    final(self).issued(key) == (old(self).issued(key) || key == id) by {}
                assert(final(self)@ =~= old(self)@.insert(id, node)) by {
                    assert forall|key: Id| #[trigger]
                        final(self)@.dom().contains(key) == old(self)@.insert(
                            id,
                            node,
                        ).dom().contains(key) by {}
                }
            }
            Ok(id)
        } else {
            Err(Error::CapacityExhausted)
        }
    }

    /// Takes the node with the given key out of its slot, and nothing else.
    fn remove_node(&mut self, id: Id) -> (node: Option<Node<N>>)
        requires
            old(self).well_formed(),
        ensures
            final(self).well_formed(),
            final(self)@ == old(self)@.remove(id),
            match node {
                Some(node) => old(self)@.dom().contains(id) && node == old(self)@[id],
                None => !old(self)@.dom().contains(id) && *final(self) == *old(self),
            },
            forall|key: Id| final(self).issued(key) == old(self).issued(key),
            final(self).slots@.len() == old(self).slots@.len(),
            final(self).room() >= old(self).room(),
    {
        let index = id.index as usize;
        if index < self.slots.len() && self.slots[index].version == id.version
            && self.slots[index].node.is_some() {
            let node = self.slots[index].node.take();
            self.slots[index].version = id.version + 1;
            if id.version + 1 < u32::MAX {
                self.free.push(id.index);
            }
            proof {
                assert(final(self)@ =~= old(self)@.remove(id));
            }
            node
        } else {
            proof {
                assert(final(self)@ =~= old(self)@.remove(id));
            }
            None
        }
    }

    /// Removes the node with the given key and returns it. With a compound
    /// go the markers of the regions it owns. Returns nothing, and changes
    /// nothing, if the node is not, or no longer, in the store.
    pub fn remove(&mut self, id: Id) -> (node: Option<Node<N>>)
        requires
            old(self).well_formed(),
        ensures
            final(self).well_formed(),
            match node {
                Some(node) => old(self)@.dom().contains(id) && node == old(self)@[id] && final(self)@ == old(self)@.remove(id).remove_keys(markers(node.owned())),
                None => !old(self)@.dom().contains(id) && *final(self) == *old(self),
            },
            forall|key: Id| final(self).issued(key) == old(self).issued(key),
            final(self).room() >= old(self).room(),
    {
        let node = self.remove_node(id);
        match node {
            Some(Node::Compound(compound)) => {
                let regions = compound.regions();
                let ghost before = self@;
                let mut i: usize = 0;
                while i < regions.len()
                    invariant
                        i <= regions@.len(),
                        self.well_formed(),
                        self@ == before.remove_keys(markers(regions@.take(i as int))),
                        forall|key: Id| self.issued(key) == old(self).issued(key),
                        self.room() >= old(self).room(),
                    decreases regions@.len() - i,
                {
                    let region = regions[i];
                    self.remove_node(region.start);
                    self.remove_node(region.end);
                    i += 1;
                    proof {
                        let shorter = markers(regions@.take(i - 1));
                        let longer = markers(regions@.take(i as int));
                        assert forall|key: Id| longer.contains(key) == (shorter.contains(key)
                            || key == region.start || key == region.end) by {
                            if longer.contains(key) {
                                let j = choose|j: int|
                                    0 <= j < i && (#[trigger] regions@.take(i as int)[j].start
                                        == key || regions@.take(i as int)[j].end == key);
                                if j < i - 1 {
                                    assert(regions@.take(i - 1)[j] == regions@[j]);
                                }
                            }
                            if shorter.contains(key) {
                                let j = choose|j: int|
                                    0 <= j < i - 1 && (#[trigger] regions@.take(i - 1)[j].start
                                        == key || regions@.take(i - 1)[j].end == key);
                                assert(regions@.take(i as int)[j] == regions@[j]);
                            }
                            if key == region.start || key == region.end {
                                assert(regions@.take(i as int)[i - 1] == region);
                            }
                        }
                        assert(self@ =~= before.remove_keys(longer));
                    }
                }
                proof {
                    assert(regions@.take(i as int) == regions@);
                    assert(before.remove_keys(markers(Seq::<Region>::empty())) =~= before);
                }
                Some(Node::Compound(compound))
            },
            Some(node) => {
                proof {
                    assert(self@.remove_keys(markers(node.owned())) =~= self@);
                }
                Some(node)
            },
            None => None,
        }
    }

    /// Removes the two markers of the region, as far as they are in the
    /// store, and nothing else.
    pub fn remove_region(&mut self, region: Region)
        requires
            old(self).well_formed(),
        ensures
            final(self).well_formed(),
            final(self)@ == old(self)@.remove(region.start).remove(region.end),
            forall|key: Id| final(self).issued(key) == old(self).issued(key),
            final(self).room() >= old(self).room(),
    {
        self.remove_node(region.start);
        self.remove_node(region.end);
    }

    /// Removes the compound with the given key, and with it the markers of
    /// its regions, and returns it. Returns nothing, and changes nothing, if
    /// the key names no compound of the store.
    pub fn remove_compound(&mut self, id: Id) -> (compound: Option<Compound>)
        requires
            old(self).well_formed(),
        ensures
            final(self).well_formed(),
            match compound {
                Some(compound) => old(self)@.dom().contains(id) && old(self)@[id] == Node::<
                    N,
                >::Compound(compound) && final(self)@ == old(self)@.remove(id).remove_keys(
                    markers(compound.owned()),
                ),
                None => !(old(self)@.dom().contains(id) && old(self)@[id] is Compound) && *final(self) == *old(self),
            },
            forall|key: Id| final(self).issued(key) == old(self).issued(key),
            final(self).room() >= old(self).room(),
    {
        let found = match self.get(id) {
            Some(Node::Compound(_)) => true,
            _ => false,
        };
        if !found {
            return None;
        }
        match self.remove(id) {
            Some(Node::Compound(compound)) => Some(compound),
            _ => None,
        }
    }

    /// Drops all nodes and forgets the keys handed out so far. The memory of
    /// the store is kept for reuse.
    pub fn clear(&mut self)
        ensures
            final(self).well_formed(),
            final(self)@ == Map::<Id, Node<N>>::empty(),
            final(self).room() == u32::MAX,
            forall|id: Id| !final(self).issued(id),
    {
        self.slots.clear();
        self.free.clear();
        assert(self@ =~= Map::<Id, Node<N>>::empty());
    }

    /// Returns the key of every node in the store, by rising index.
    pub fn keys(&self) -> (keys: Vec<Id>)
        requires
            self.well_formed(),
        ensures
            forall|id: Id| keys@.contains(id) <==> self@.dom().contains(id),
            forall|i: int, j: int| 0 <= i < j < keys@.len() ==> keys@[i].index < keys@[j].index,
    {
        let mut keys: Vec<Id> = Vec::new();
        let mut i: usize = 0;
        while i < self.slots.len()
            invariant
                self.well_formed(),
                i <= self.slots@.len(),
                forall|id: Id| keys@.contains(id) <==> self@.dom().contains(id) && id.index < i,
                forall|k: int| 0 <= k < keys@.len() ==> (#[trigger] keys@[k]).index < i,
                forall|j: int, k: int| 0 <= j < k < keys@.len() ==> keys@[j].index < keys@[k].index,
            decreases self.slots@.len() - i,
        {
            if self.slots[i].node.is_some() {
                let id = Id { index: i as u32, version: self.slots[i].version };
                let ghost before = keys@;
                keys.push(id);
                proof {
                    assert forall|key: Id| keys@.contains(key) <==> self@.dom().contains(key)
                        && key.index < i + 1 by {
                        if keys@.contains(key) {
                            let k = choose|k: int| 0 <= k < keys@.len() && keys@[k] == key;
                            if k < before.len() {
                                assert(before[k] == key);
                                assert(before.contains(key));
                            }
                        }
                        if self@.dom().contains(key) && key.index < i + 1 {
                            if key.index < i {
                                assert(before.contains(key));
                                let k = choose|k: int| 0 <= k < before.len() && before[k] == key;
                                assert(keys@[k] == key);
                            } else {
                                assert(keys@[before.len() as int] == key);
                            }
                        }
                    }
                }
            } else {
                proof {
                    assert forall|key: Id| keys@.contains(key) <==> self@.dom().contains(key)
                        && key.index < i + 1 by {}
                }
            }
            i += 1;
        }
        keys
    }

    /// Keeps the nodes whose index is marked in `seen` and removes every
    /// other node, each from its own slot only.
    pub fn retain_seen(&mut self, seen: &[bool])
        requires
            old(self).well_formed(),
        ensures
            final(self).well_formed(),
            final(self)@ == old(self)@.restrict(
                Set::new(|id: Id| id.index < seen@.len() && seen@[id.index as int]),
            ),
            forall|key: Id| final(self).issued(key) == old(self).issued(key),
            final(self).room() >= old(self).room(),
    {
        let ghost kept = Set::new(|id: Id| id.index < seen@.len() && seen@[id.index as int]);
        let mut i: usize = 0;
        let count = self.slots.len();
        while i < count
            invariant
                self.well_formed(),
                count == self.slots@.len(),
                i <= count,
                kept == Set::new(|id: Id| id.index < seen@.len() && seen@[id.index as int]),
                self@ == old(self)@.restrict(Set::new(|id: Id| id.index >= i || kept.contains(id))),
                forall|key: Id| self.issued(key) == old(self).issued(key),
                self.room() >= old(self).room(),
            decreases count - i,
        {
            if !(i < seen.len() && seen[i]) && self.slots[i].node.is_some() {
                let id = Id { index: i as u32, version: self.slots[i].version };
                self.remove_node(id);
                proof {
                    assert(self@ =~= old(self)@.restrict(
                        Set::new(|id: Id| id.index >= i + 1 || kept.contains(id)),
                    ));
                }
            } else {
                proof {
                    assert(self@ =~= old(self)@.restrict(
                        Set::new(|id: Id| id.index >= i + 1 || kept.contains(id)),
                    ));
                }
            }
            i += 1;
        }
        proof {
            old(self).lemma_keys();
            assert(self@ =~= old(self)@.restrict(kept));
        }
    }
}

impl<N> Default for Nodes<N> {
    /// Creates a new, empty [`Nodes`].
    fn default() -> (nodes: Self)
        ensures
            nodes.well_formed(),
            nodes@ == Map::<Id, Node<N>>::empty(),
            nodes.room() == u32::MAX,
            forall|id: Id| !nodes.issued(id),
    {
        Self::new()
    }
}

/// Whether the regions can be the branches of a `Gamma`: there are at least
/// two, each is delimited by a `Start` and an `End` marker of the store, and
/// all the `End` markers collect the same number of results.
pub open spec fn uniform_branches<N>(nodes: Map<Id, Node<N>>, regions: Seq<Region>) -> bool {
    &&& regions.len() >= 2
    &&& forall|i: int|
        0 <= i < regions.len() ==> {
            let region = #[trigger] regions[i];
            &&& nodes.dom().contains(region.start)
            &&& nodes[region.start] is Marker
            &&& nodes[region.start]->Marker_0 is Start
            &&& nodes.dom().contains(region.end)
            &&& nodes[region.end] is Marker
            &&& nodes[region.end]->Marker_0 is End
            &&& nodes[region.end]->Marker_0.links().len() == nodes[regions[0].end]->Marker_0.links().len()
        }
}

/// Whether every link reads from a node whose key is among `keys`.
pub open spec fn live_links(keys: Set<Id>, links: Seq<Link>) -> bool {
    forall|i: int| 0 <= i < links.len() ==> keys.contains((#[trigger] links[i]).node)
}

/// Whether the kind is one of the compounds that own a single region.
pub open spec fn owns_region(kind: Kind) -> bool {
    kind is Theta || kind is Lambda || kind is Phi
}

/// Whether `after` holds the region as a `Start` marker and an `End` marker
/// that collects nothing, neither of which is a key of `before`, and every
/// node of `before` as it was.
pub open spec fn fresh_region<N>(
    before: Map<Id, Node<N>>,
    after: Map<Id, Node<N>>,
    region: Region,
) -> bool {
    &&& region.start != region.end
    &&& !before.dom().contains(region.start)
    &&& !before.dom().contains(region.end)
    &&& after.dom().contains(region.start)
    &&& after.dom().contains(region.end)
    &&& after[region.start] == Node::<N>::Marker(Marker::Start)
    &&& after[region.end] is Marker
    &&& after[region.end]->Marker_0 is End
    &&& after[region.end]->Marker_0.links() == Seq::<Link>::empty()
    &&& forall|key: Id| before.dom().contains(key) ==> after.dom().contains(key) && after[key] == before[key]
}

/// Whether `after` holds under `id`, which is no key of `before`, a compound
/// of the given kind with the given parameters and regions, and every node
/// of `before` as it was.
pub open spec fn fresh_compound<N>(
    before: Map<Id, Node<N>>,
    after: Map<Id, Node<N>>,
    id: Id,
    kind: Kind,
    parameters: Seq<Link>,
    regions: Seq<Region>,
) -> bool {
    &&& !before.dom().contains(id)
    &&& after.dom().contains(id)
    &&& after[id] is Compound
    &&& after[id]->Compound_0.kind() == kind
    &&& after[id]->Compound_0.links() == parameters
    &&& after[id]->Compound_0.owned() == regions
    &&& forall|key: Id| before.dom().contains(key) ==> after.dom().contains(key) && after[key] == before[key]
}

impl<N> Nodes<N> {
    /// Whether the store has room for `count` more nodes.
    fn has_room(&self, count: u8) -> (enough: bool)
        requires
            self.well_formed(),
        ensures
            enough == (self.room() >= count),
    {
        let count = count as usize;
        let spare: usize = u32::MAX as usize - self.slots.len();
        spare >= count || self.free.len() >= count - spare
    }

    /// Adds a [`Node::Simple`] node to the graph and returns its [`Id`],
    /// whatever the payload reads: its links can be set right afterwards.
    /// Fails, and leaves the graph as it is, if the store is full.
    pub fn add_simple_unchecked(&mut self, data: N) -> (key: Result<Id, Error>)
        requires
            old(self).well_formed(),
        ensures
            final(self).well_formed(),
            match key {
                Ok(id) => old(self).room() > 0 && final(self).room() == old(self).room() - 1
                    && !old(self).issued(id) && final(self)@ == old(self)@.insert(
                    id,
                    Node::Simple(data),
                ) && (forall|key: Id|
                    final(self).issued(key) == (old(self).issued(key) || key == id)),
                Err(error) => error == Error::CapacityExhausted && old(self).room() == 0
                    && final(self)@ == old(self)@ && final(self).room() == 0 && (forall|key: Id|
                    final(self).issued(key) == old(self).issued(key)),
            },
    {
        self.insert(Node::Simple(data))
    }

    /// Adds a [`Region`] to the graph and returns it: a `Start` marker and an
    /// `End` marker that collects nothing yet. Fails, and leaves the graph as
    /// it is, if the store has no room for two nodes.
    pub fn add_region(&mut self) -> (region: Result<Region, Error>)
        requires
            old(self).well_formed(),
        ensures
            final(self).well_formed(),
            match region {
                Ok(region) => {
                    &&& old(self).room() >= 2
                    &&& final(self).room() == old(self).room() - 2
                    &&& fresh_region(old(self)@, final(self)@, region)
                    &&& final(self)@.dom() == old(self)@.dom().insert(region.start).insert(
                        region.end,
                    )
                    &&& !old(self).issued(region.start)
                    &&& !old(self).issued(region.end)
                    &&& forall|key: Id|
                        final(self).issued(key) == (old(self).issued(key) || key == region.start
                            || key == region.end)
                },
                Err(error) => error == Error::CapacityExhausted && old(self).room() < 2
                    && final(self)@ == old(self)@ && final(self).room() == old(self).room()
                    && (forall|key: Id| final(self).issued(key) == old(self).issued(key)),
            },
    {
        if !self.has_room(2) {
            return Err(Error::CapacityExhausted);
        }
        let start = match self.insert(Node::Marker(Marker::Start)) {
            Ok(id) => id,
            Err(error) => return Err(error),
        };
        let end = match self.insert(Node::Marker(Marker::End { parameters: Vec::new() })) {
            Ok(id) => id,
            Err(error) => return Err(error),
        };
        proof {
            assert(self@.dom() =~= old(self)@.dom().insert(start).insert(end));
        }
        Ok(Region { start, end })
    }

    /// Adds a compound of the given kind to the graph, with a region of its
    /// own, and returns the key of the compound and the region, whatever the
    /// parameters read. The region is added first, then the compound. Fails,
    /// and leaves the graph as it is, if the kind is not `Theta`, `Lambda` or
    /// `Phi`, or if the store has no room for three nodes.
    pub fn add_compound_unchecked(&mut self, kind: Kind, parameters: Vec<Link>) -> (added: Result<
        (Id, Region),
        Error,
    >)
        requires
            old(self).well_formed(),
        ensures
            final(self).well_formed(),
            match added {
                Ok((id, region)) => {
                    &&& kind is Theta || kind is Lambda || kind is Phi
                    &&& old(self).room() >= 3
                    &&& final(self).room() == old(self).room() - 3
                    &&& fresh_region(old(self)@, final(self)@, region)
                    &&& fresh_compound(old(self)@, final(self)@, id, kind, parameters@, seq![region])
                    &&& final(self)@.dom() == old(self)@.dom().insert(region.start).insert(
                        region.end,
                    ).insert(id)
                    &&& id != region.start
                    &&& id != region.end
                    &&& !old(self).issued(id)
                    &&& !old(self).issued(region.start)
                    &&& !old(self).issued(region.end)
                    &&& forall|key: Id|
                        final(self).issued(key) == (old(self).issued(key) || key == region.start
                            || key == region.end || key == id)
                },
                Err(error) => {
                    &&& error == if kind is Theta || kind is Lambda || kind is Phi {
                        Error::CapacityExhausted
                    } else {
                        Error::ShapeViolation
                    }
                    &&& error == Error::CapacityExhausted ==> old(self).room() < 3
                    &&& final(self)@ == old(self)@
                    &&& final(self).room() == old(self).room()
                    &&& forall|key: Id| final(self).issued(key) == old(self).issued(key)
                },
            },
    {
        if !self.has_room(3) {
            return match kind {
                Kind::Theta | Kind::Lambda | Kind::Phi => Err(Error::CapacityExhausted),
                _ => Err(Error::ShapeViolation),
            };
        }
        match kind {
            Kind::Theta | Kind::Lambda | Kind::Phi => {},
            _ => {
                return Err(Error::ShapeViolation);
            },
        }
        let region = match self.add_region() {
            Ok(region) => region,
            Err(error) => return Err(error),
        };
        let compound = match kind {
            Kind::Theta => Compound::Theta { parameters, region },
            Kind::Lambda => Compound::Lambda { parameters, region },
            _ => Compound::Phi { parameters, region },
        };
        let id = match self.insert(Node::Compound(compound)) {
            Ok(id) => id,
            Err(error) => return Err(error),
        };
        proof {
            assert(self@.dom() =~= old(self)@.dom().insert(region.start).insert(region.end).insert(
                id,
            ));
        }
        Ok((id, region))
    }

    /// Adds a [`Compound::Theta`] node to the graph and returns its [`Id`] and
    /// [`Region`], whatever the parameters read. Fails, and leaves the graph
    /// as it is, if the store has no room for three nodes.
    pub fn add_theta_unchecked(&mut self, parameters: Vec<Link>) -> (added: Result<(Id, Region), Error>)
        requires
            old(self).well_formed(),
        ensures
            final(self).well_formed(),
            match added {
                Ok((id, region)) => {
                    &&& old(self).room() >= 3
                    &&& final(self).room() == old(self).room() - 3
                    &&& fresh_region(old(self)@, final(self)@, region)
                    &&& fresh_compound(
                        old(self)@,
                        final(self)@,
                        id,
                        Kind::Theta,
                        parameters@,
                        seq![region],
                    )
                    &&& final(self)@.dom() == old(self)@.dom().insert(region.start).insert(
                        region.end,
                    ).insert(id)
                    &&& id != region.start
                    &&& id != region.end
                    &&& forall|key: Id|
                        final(self).issued(key) == (old(self).issued(key) || key == region.start
                            || key == region.end || key == id)
                },
                Err(error) => error == Error::CapacityExhausted && old(self).room() < 3
                    && final(self)@ == old(self)@ && final(self).room() == old(self).room()
                    && (forall|key: Id| final(self).issued(key) == old(self).issued(key)),
            },
    {
        self.add_compound_unchecked(Kind::Theta, parameters)
    }

    /// Adds a [`Compound::Lambda`] node to the graph and returns its [`Id`] and
    /// [`Region`], whatever the parameters read. Fails, and leaves the graph
    /// as it is, if the store has no room for three nodes.
    pub fn add_lambda_unchecked(&mut self, parameters: Vec<Link>) -> (added: Result<(Id, Region), Error>)
        requires
            old(self).well_formed(),
        ensures
            final(self).well_formed(),
            match added {
                Ok((id, region)) => {
                    &&& old(self).room() >= 3
                    &&& final(self).room() == old(self).room() - 3
                    &&& fresh_region(old(self)@, final(self)@, region)
                    &&& fresh_compound(
                        old(self)@,
                        final(self)@,
                        id,
                        Kind::Lambda,
                        parameters@,
                        seq![region],
                    )
                    &&& final(self)@.dom() == old(self)@.dom().insert(region.start).insert(
                        region.end,
                    ).insert(id)
                    &&& id != region.start
                    &&& id != region.end
                    &&& forall|key: Id|
                        final(self).issued(key) == (old(self).issued(key) || key == region.start
                            || key == region.end || key == id)
                },
                Err(error) => error == Error::CapacityExhausted && old(self).room() < 3
                    && final(self)@ == old(self)@ && final(self).room() == old(self).room()
                    && (forall|key: Id| final(self).issued(key) == old(self).issued(key)),
            },
    {
        self.add_compound_unchecked(Kind::Lambda, parameters)
    }

    /// Adds a [`Compound::Phi`] node to the graph and returns its [`Id`] and
    /// [`Region`], whatever the parameters read. Fails, and leaves the graph
    /// as it is, if the store has no room for three nodes.
    pub fn add_phi_unchecked(&mut self, parameters: Vec<Link>) -> (added: Result<(Id, Region), Error>)
        requires
            old(self).well_formed(),
        ensures
            final(self).well_formed(),
            match added {
                Ok((id, region)) => {
                    &&& old(self).room() >= 3
                    &&& final(self).room() == old(self).room() - 3
                    &&& fresh_region(old(self)@, final(self)@, region)
                    &&& fresh_compound(
                        old(self)@,
                        final(self)@,
                        id,
                        Kind::Phi,
                        parameters@,
                        seq![region],
                    )
                    &&& final(self)@.dom() == old(self)@.dom().insert(region.start).insert(
                        region.end,
                    ).insert(id)
                    &&& id != region.start
                    &&& id != region.end
                    &&& forall|key: Id|
                        final(self).issued(key) == (old(self).issued(key) || key == region.start
                            || key == region.end || key == id)
                },
                Err(error) => error == Error::CapacityExhausted && old(self).room() < 3
                    && final(self)@ == old(self)@ && final(self).room() == old(self).room()
                    && (forall|key: Id| final(self).issued(key) == old(self).issued(key)),
            },
    {
        self.add_compound_unchecked(Kind::Phi, parameters)
    }

    /// Whether every link of the node reads from a node of the store.
    fn links_live(&self, links: &[Link]) -> (live: bool)
        ensures
            live == live_links(self@.dom(), links@),
    {
        let mut i: usize = 0;
        while i < links.len()
            invariant
                i <= links@.len(),
                forall|k: int| 0 <= k < i ==> self@.dom().contains((#[trigger] links@[k]).node),
            decreases links@.len() - i,
        {
            if !self.contains(links[i].node) {
                return false;
            }
            i += 1;
        }
        true
    }

    /// Whether the store is as it was, as far as can be told from outside.
    pub open spec fn kept(before: Self, after: Self) -> bool {
        &&& after@ == before@
        &&& after.room() == before.room()
        &&& forall|key: Id| after.issued(key) == before.issued(key)
    }

    /// Whether `after` is `before` with a compound of the given kind and
    /// parameters under the new key `id`, and its region under two more
    /// new keys.
    pub open spec fn grown(
        before: Self,
        after: Self,
        id: Id,
        region: Region,
        kind: Kind,
        parameters: Seq<Link>,
    ) -> bool {
        &&& before.room() >= 3
        &&& after.room() == before.room() - 3
        &&& fresh_region(before@, after@, region)
        &&& fresh_compound(before@, after@, id, kind, parameters, seq![region])
        &&& after@.dom() == before@.dom().insert(region.start).insert(region.end).insert(id)
        &&& id != region.start
        &&& id != region.end
        &&& !before.issued(id)
        &&& !before.issued(region.start)
        &&& !before.issued(region.end)
        &&& forall|key: Id|
            after.issued(key) == (before.issued(key) || key == region.start || key == region.end
                || key == id)
    }

    /// Adds a compound of the given kind to the graph, with a region of its
    /// own, and returns the key of the compound and the region. The region
    /// is added first, then the compound. Fails with a shape violation, and
    /// leaves the graph as it is, if the kind is not `Theta`, `Lambda` or
    /// `Phi` or if a parameter reads from a node that is not in the store;
    /// else fails if the store has no room for three nodes.
    pub fn add_compound(&mut self, kind: Kind, parameters: Vec<Link>) -> (added: Result<
        (Id, Region),
        Error,
    >)
        requires
            old(self).well_formed(),
        ensures
            final(self).well_formed(),
            match added {
                Ok((id, region)) => owns_region(kind) && live_links(old(self)@.dom(), parameters@)
                    && Self::grown(*old(self), *final(self), id, region, kind, parameters@),
                Err(error) => {
                    &&& error == if owns_region(kind) && live_links(
                        old(self)@.dom(),
                        parameters@,
                    ) {
                        Error::CapacityExhausted
                    } else {
                        Error::ShapeViolation
                    }
                    &&& error == Error::CapacityExhausted ==> old(self).room() < 3
                    &&& Self::kept(*old(self), *final(self))
                },
            },
    {
        if !self.links_live(parameters.as_slice()) {
            return Err(Error::ShapeViolation);
        }
        self.add_compound_unchecked(kind, parameters)
    }

    /// Adds a [`Compound::Theta`] node to the graph and returns its [`Id`]
    /// and [`Region`]. Fails with a shape violation, and leaves the graph as
    /// it is, if a parameter reads from a node that is not in the store; else
    /// fails if the store has no room for three nodes.
    pub fn add_theta(&mut self, parameters: Vec<Link>) -> (added: Result<(Id, Region), Error>)
        requires
            old(self).well_formed(),
        ensures
            final(self).well_formed(),
            match added {
                Ok((id, region)) => live_links(old(self)@.dom(), parameters@) && Self::grown(
                    *old(self),
                    *final(self),
                    id,
                    region,
                    Kind::Theta,
                    parameters@,
                ),
                Err(error) => {
                    &&& error == if live_links(old(self)@.dom(), parameters@) {
                        Error::CapacityExhausted
                    } else {
                        Error::ShapeViolation
                    }
                    &&& error == Error::CapacityExhausted ==> old(self).room() < 3
                    &&& Self::kept(*old(self), *final(self))
                },
            },
    {
        self.add_compound(Kind::Theta, parameters)
    }

    /// Adds a [`Compound::Lambda`] node to the graph and returns its [`Id`]
    /// and [`Region`]. Fails with a shape violation, and leaves the graph as
    /// it is, if a parameter reads from a node that is not in the store; else
    /// fails if the store has no room for three nodes.
    pub fn add_lambda(&mut self, parameters: Vec<Link>) -> (added: Result<(Id, Region), Error>)
        requires
            old(self).well_formed(),
        ensures
            final(self).well_formed(),
            match added {
                Ok((id, region)) => live_links(old(self)@.dom(), parameters@) && Self::grown(
                    *old(self),
                    *final(self),
                    id,
                    region,
                    Kind::Lambda,
                    parameters@,
                ),
                Err(error) => {
                    &&& error == if live_links(old(self)@.dom(), parameters@) {
                        Error::CapacityExhausted
                    } else {
                        Error::ShapeViolation
                    }
                    &&& error == Error::CapacityExhausted ==> old(self).room() < 3
                    &&& Self::kept(*old(self), *final(self))
                },
            },
    {
        self.add_compound(Kind::Lambda, parameters)
    }

    /// Adds a [`Compound::Phi`] node to the graph and returns its [`Id`] and
    /// [`Region`]. Fails with a shape violation, and leaves the graph as it
    /// is, if a parameter reads from a node that is not in the store; else
    /// fails if the store has no room for three nodes.
    pub fn add_phi(&mut self, parameters: Vec<Link>) -> (added: Result<(Id, Region), Error>)
        requires
            old(self).well_formed(),
        ensures
            final(self).well_formed(),
            match added {
                Ok((id, region)) => live_links(old(self)@.dom(), parameters@) && Self::grown(
                    *old(self),
                    *final(self),
                    id,
                    region,
                    Kind::Phi,
                    parameters@,
                ),
                Err(error) => {
                    &&& error == if live_links(old(self)@.dom(), parameters@) {
                        Error::CapacityExhausted
                    } else {
                        Error::ShapeViolation
                    }
                    &&& error == Error::CapacityExhausted ==> old(self).room() < 3
                    &&& Self::kept(*old(self), *final(self))
                },
            },
    {
        self.add_compound(Kind::Phi, parameters)
    }

    /// Whether the regions can be the branches of a `Gamma`.
    fn has_uniform_branches(&self, regions: &[Region]) -> (uniform: bool)
        ensures
            uniform == uniform_branches(self@, regions@),
    {
        if regions.len() < 2 {
            return false;
        }
        let arity = match self.get(regions[0].end) {
            Some(Node::Marker(Marker::End { parameters })) => parameters.len(),
            _ => {
                return false;
            },
        };
        let mut i: usize = 0;
        while i < regions.len()
            invariant
                i <= regions@.len(),
                regions@.len() >= 2,
                self@.dom().contains(regions@[0].end),
                self@[regions@[0].end] is Marker,
                self@[regions@[0].end]->Marker_0 is End,
                arity == self@[regions@[0].end]->Marker_0.links().len(),
                forall|j: int|
                    0 <= j < i ==> {
                        let region = #[trigger] regions@[j];
                        &&& self@.dom().contains(region.start)
                        &&& self@[region.start] is Marker
                        &&& self@[region.start]->Marker_0 is Start
                        &&& self@.dom().contains(region.end)
                        &&& self@[region.end] is Marker
                        &&& self@[region.end]->Marker_0 is End
                        &&& self@[region.end]->Marker_0.links().len() == arity
                    },
            decreases regions@.len() - i,
        {
            let region = regions[i];
            let start_fits = match self.get(region.start) {
                Some(Node::Marker(Marker::Start)) => true,
                _ => false,
            };
            let end_fits = match self.get(region.end) {
                Some(Node::Marker(Marker::End { parameters })) => parameters.len() == arity,
                _ => false,
            };
            if !start_fits || !end_fits {
                assert(!uniform_branches(self@, regions@)) by {
                    let _ = regions@[i as int];
                }
                return false;
            }
            i += 1;
        }
        true
    }

    /// Adds a [`Compound::Gamma`] node that selects among the given regions
    /// and returns its [`Id`]. Fails with a shape violation, and leaves the
    /// graph as it is, if the regions are not at least two regions of the
    /// store whose `End` markers collect the same number of results, or if a
    /// parameter reads from a node that is not in the store; else fails if
    /// the store is full.
    pub fn add_gamma(&mut self, parameters: Vec<Link>, regions: RegionList) -> (key: Result<
        Id,
        Error,
    >)
        requires
            old(self).well_formed(),
        ensures
            final(self).well_formed(),
            match key {
                Ok(id) => {
                    &&& uniform_branches(old(self)@, regions@)
                    &&& live_links(old(self)@.dom(), parameters@)
                    &&& old(self).room() > 0
                    &&& final(self).room() == old(self).room() - 1
                    &&& fresh_compound(old(self)@, final(self)@, id, Kind::Gamma, parameters@, regions@)
                    &&& final(self)@.dom() == old(self)@.dom().insert(id)
                    &&& !old(self).issued(id)
                    &&& forall|key: Id|
                        final(self).issued(key) == (old(self).issued(key) || key == id)
                },
                Err(error) => {
                    &&& error == if uniform_branches(old(self)@, regions@) && live_links(
                        old(self)@.dom(),
                        parameters@,
                    ) {
                        Error::CapacityExhausted
                    } else {
                        Error::ShapeViolation
                    }
                    &&& error == Error::CapacityExhausted ==> old(self).room() == 0
                    &&& final(self)@ == old(self)@
                    &&& final(self).room() == old(self).room()
                    &&& forall|key: Id| final(self).issued(key) == old(self).issued(key)
                },
            },
    {
        if !self.has_uniform_branches(regions.as_slice()) || !self.links_live(
            parameters.as_slice(),
        ) {
            return Err(Error::ShapeViolation);
        }
        self.add_gamma_unchecked(parameters, regions)
    }

    /// Adds a [`Compound::Gamma`] node that selects among the given regions
    /// and returns its [`Id`], whatever the regions are and whatever the
    /// parameters read: they can be filled in, or made to agree, afterwards.
    /// Fails, and leaves the graph as it is, if the store is full.
    pub fn add_gamma_unchecked(&mut self, parameters: Vec<Link>, regions: RegionList) -> (key:
        Result<Id, Error>)
        requires
            old(self).well_formed(),
        ensures
            final(self).well_formed(),
            match key {
                Ok(id) => {
                    &&& old(self).room() > 0
                    &&& final(self).room() == old(self).room() - 1
                    &&& fresh_compound(old(self)@, final(self)@, id, Kind::Gamma, parameters@, regions@)
                    &&& final(self)@.dom() == old(self)@.dom().insert(id)
                    &&& !old(self).issued(id)
                    &&& forall|key: Id|
                        final(self).issued(key) == (old(self).issued(key) || key == id)
                },
                Err(error) => error == Error::CapacityExhausted && old(self).room() == 0
                    && final(self)@ == old(self)@ && final(self).room() == 0 && (forall|key: Id|
                    final(self).issued(key) == old(self).issued(key)),
            },
    {
        self.insert(Node::Compound(Compound::Gamma { parameters, regions }))
    }
}

/// What the graph algorithms read of a map of nodes: the shape of each node
/// by its key.
pub open spec fn graph_of<N: Parameters>(nodes: Map<Id, Node<N>>) -> Map<Id, Shape> {
    nodes.map_values(|node: Node<N>| node.shape())
}

/// The graph of a map of nodes changes as the map does: by one node added,
/// by nodes removed, by nodes kept.
pub proof fn lemma_graph_of<N: Parameters>(nodes: Map<Id, Node<N>>, id: Id, node: Node<N>, keys: Set<Id>)
    ensures
        graph_of(nodes).dom() == nodes.dom(),
        graph_of(nodes.insert(id, node)) == graph_of(nodes).insert(id, node.shape()),
        graph_of(nodes.remove(id)) == graph_of(nodes).remove(id),
        graph_of(nodes.remove_keys(keys)) == graph_of(nodes).remove_keys(keys),
        graph_of(nodes.restrict(keys)) == graph_of(nodes).restrict(keys),
{
    assert(graph_of(nodes).dom() =~= nodes.dom());
    assert(graph_of(nodes.insert(id, node)) =~= graph_of(nodes).insert(id, node.shape()));
    assert(graph_of(nodes.remove(id)) =~= graph_of(nodes).remove(id));
    assert(graph_of(nodes.remove_keys(keys)) =~= graph_of(nodes).remove_keys(keys));
    assert(graph_of(nodes.restrict(keys)) =~= graph_of(nodes).restrict(keys));
}

/// Adding a node and removing it again leaves the nodes as they were, and
/// with them the number of indices in use, unless the node is a compound
/// that takes markers with it which were there before.
pub proof fn lemma_insert_remove<N>(nodes: Map<Id, Node<N>>, id: Id, node: Node<N>)
    requires
        !nodes.dom().contains(id),
        forall|key: Id| markers(node.owned()).contains(key) ==> !nodes.dom().contains(key),
    ensures
        nodes.insert(id, node).remove(id).remove_keys(markers(node.owned())) == nodes,
        bound(nodes.insert(id, node).remove(id).remove_keys(markers(node.owned())).dom()) == bound(
            nodes.dom(),
        ),
{
    assert(nodes.insert(id, node).remove(id).remove_keys(markers(node.owned())) =~= nodes);
}

impl<N: Parameters> Nodes<N> {
    /// Adds a [`Node::Simple`] node to the graph and returns its [`Id`].
    /// Fails with a shape violation, and leaves the graph as it is, if the
    /// payload reads from a node that is not in the store; else fails if the
    /// store is full. In a store that names no key it has not handed out,
    /// the new node leaves no link dangling, makes no cycle and brings no
    /// regions together.
    pub fn add_simple(&mut self, data: N) -> (key: Result<Id, Error>)
        requires
            old(self).well_formed(),
        ensures
            final(self).well_formed(),
            match key {
                Ok(id) => live_links(old(self)@.dom(), data.links()) && old(self).room() > 0
                    && final(self).room() == old(self).room() - 1 && !old(self).issued(id)
                    && final(self)@ == old(self)@.insert(id, Node::Simple(data)) && (forall|
                    key: Id,
                |
                    final(self).issued(key) == (old(self).issued(key) || key == id)),
                Err(error) => {
                    &&& error == if live_links(old(self)@.dom(), data.links()) {
                        Error::CapacityExhausted
                    } else {
                        Error::ShapeViolation
                    }
                    &&& error == Error::CapacityExhausted ==> old(self).room() == 0
                    &&& Self::kept(*old(self), *final(self))
                },
            },
            tidy(*old(self)) ==> {
                &&& tidy(*final(self))
                &&& closed(old(self).graph()) ==> closed(final(self).graph())
                &&& acyclic(old(self).graph()) ==> acyclic(final(self).graph())
                &&& regions_apart(old(self).graph()) ==> regions_apart(final(self).graph())
            },
    {
        let ghost before = *self;
        let ghost node = Node::Simple(data);
        if !self.links_live(data.parameters()) {
            return Err(Error::ShapeViolation);
        }
        let key = self.add_simple_unchecked(data);
        proof {
            match key {
                Ok(id) => {
                    let shape = node.shape();
                    assert forall|i: int| 0 <= i < shape.dependencies().len() implies before@.dom().contains(
                        #[trigger] shape.dependencies()[i],
                    ) by {
                        assert(before@.dom().contains(shape.links[i].node));
                    }
                    if tidy(before) {
                        lemma_inserted(before, *self, id, node);
                    }
                    lemma_graph_of(before@, id, node, Set::empty());
                    if regions_apart(before.graph()) {
                        lemma_sound_regions(before.graph(), id, shape);
                    }
                },
                Err(_) => {
                    assert(self.graph() == before.graph());
                },
            }
        }
        key
    }

    /// What the graph algorithms read of the store: the shape of each node
    /// by its key.
    pub open spec fn graph(&self) -> Map<Id, Shape> {
        graph_of(self@)
    }

    /// Whether both markers of every region are nodes of the store.
    fn regions_live(&self, regions: &[Region]) -> (live: bool)
        ensures
            live == forall|i: int|
                0 <= i < regions@.len() ==> self@.dom().contains((#[trigger] regions@[i]).start)
                    && self@.dom().contains(regions@[i].end),
    {
        let mut i: usize = 0;
        while i < regions.len()
            invariant
                i <= regions@.len(),
                forall|k: int|
                    0 <= k < i ==> self@.dom().contains((#[trigger] regions@[k]).start)
                        && self@.dom().contains(regions@[k].end),
            decreases regions@.len() - i,
        {
            if !self.contains(regions[i].start) || !self.contains(regions[i].end) {
                return false;
            }
            i += 1;
        }
        true
    }

    /// Whether the node names nothing that is not in the store.
    fn node_closed(&self, id: Id) -> (live: bool)
        requires
            self.well_formed(),
            self@.dom().contains(id),
        ensures
            live == forall|i: int|
                0 <= i < self.graph()[id].dependencies().len() ==> self.graph().dom().contains(
                    #[trigger] self.graph()[id].dependencies()[i],
                ),
    {
        proof {
            self.lemma_graph();
        }
        let ghost shape = self.graph()[id];
        let ghost list = shape.dependencies();
        let node = match self.get(id) {
            Some(node) => node,
            None => {
                return true;
            },
        };
        if !self.links_live(node.parameters()) {
            proof {
                let i = choose|i: int|
                    0 <= i < shape.links.len() && !self@.dom().contains(
                        (#[trigger] shape.links[i]).node,
                    );
                assert(list[i] == shape.links[i].node);
            }
            return false;
        }
        let regions = match node {
            Node::Compound(compound) => compound.regions(),
            _ => &[],
        };
        if !self.regions_live(regions) {
            proof {
                let i = choose|i: int|
                    0 <= i < shape.regions.len() && !(self@.dom().contains(
                        (#[trigger] shape.regions[i]).start,
                    ) && self@.dom().contains(shape.regions[i].end));
                let at = shape.links.len() + 2 * i;
                assert(list[at] == shape.regions[i].start);
                assert(list[at + 1] == shape.regions[i].end);
            }
            return false;
        }
        proof {
            assert forall|i: int| 0 <= i < list.len() implies self.graph().dom().contains(
                #[trigger] list[i],
            ) by {
                if i < shape.links.len() {
                    assert(self@.dom().contains(shape.links[i].node));
                } else {
                    let region = shape.regions[(i - shape.links.len()) / 2];
                    assert(self@.dom().contains(region.start));
                }
            }
        }
        true
    }

    /// Whether every link and every region of the store names nodes of the
    /// store: whether nothing dangles.
    pub fn is_closed(&self) -> (whole: bool)
        requires
            self.well_formed(),
        ensures
            whole == closed(self.graph()),
    {
        proof {
            self.lemma_graph();
        }
        let keys = self.keys();
        let mut k: usize = 0;
        while k < keys.len()
            invariant
                self.well_formed(),
                k <= keys@.len(),
                self.graph().dom() == self@.dom(),
                forall|id: Id| keys@.contains(id) <==> self@.dom().contains(id),
                forall|j: int, i: int|
                    0 <= j < k && 0 <= i < self.graph()[keys@[j]].dependencies().len()
                        ==> self.graph().dom().contains(
                        #[trigger] self.graph()[keys@[j]].dependencies()[i],
                    ),
            decreases keys@.len() - k,
        {
            assert(keys@.contains(keys@[k as int]));
            if !self.node_closed(keys[k]) {
                return false;
            }
            k += 1;
        }
        proof {
            assert forall|id: Id, i: int|
                self.graph().dom().contains(id) && 0 <= i < self.graph()[id].dependencies().len() implies self.graph().dom().contains(
                #[trigger] self.graph()[id].dependencies()[i],
            ) by {
                assert(self@.dom().contains(id));
                assert(keys@.contains(id));
                let j = choose|j: int| 0 <= j < keys@.len() && keys@[j] == id;
                assert(self.graph().dom().contains(self.graph()[keys@[j]].dependencies()[i]));
            }
        }
        true
    }

    /// The graph of a store has the keys of the store: finitely many, no two
    /// with the same index.
    pub proof fn lemma_graph(&self)
        requires
            self.well_formed(),
        ensures
            self.graph().dom() == self@.dom(),
            self.graph().dom().finite(),
            distinct_indices(self.graph().dom()),
    {
        self.lemma_keys();
        assert(self.graph().dom() =~= self@.dom());
    }
}

} // verus!
