//! Which compound a marker opens or closes in the picture.

use vstd::prelude::*;
use hashbrown::HashMap;
use crate::data_flow::link::Id;
use crate::data_flow::node::Node;
use crate::data_flow::nodes::{distinct_indices, is_bound, Nodes};

verus! {

/// A map from markers to the compounds that own them.
#[verifier::external_body]
pub struct Owners {
    items: HashMap<u64, Id>,
}

/// What a map holds: the compound noted under the number of each marker.
pub uninterp spec fn owner_items(table: Owners) -> Map<u64, Id>;

/// The number under which a key is noted: its index in the upper half and
/// its version in the lower half.
pub open spec fn number_of(id: Id) -> u64 {
    (id.index * 0x1_0000_0000 + id.version) as u64
}

/// The map that holds nothing.
pub open spec fn no_owners() -> Map<u64, Id> {
    Map::empty()
}

/// `HashMap::new`: a map that holds nothing.
#[verifier::external_body]
fn owners_new() -> (table: Owners)
    ensures
        owner_items(table) == no_owners(),
{
    Owners { items: HashMap::new() }
}

/// `HashMap::clear`: removes every entry of the map.
#[verifier::external_body]
fn owners_clear(table: &mut Owners)
    ensures
        owner_items(*final(table)) == no_owners(),
{
    table.items.clear()
}

/// `HashMap::insert`: notes the value under the key, in place of the value
/// that was noted under it before, if any, and returns that value.
#[verifier::external_body]
fn owners_insert(table: &mut Owners, key: u64, value: Id) -> (before: Option<Id>)
    ensures
        owner_items(*final(table)) == owner_items(*old(table)).insert(key, value),
        before == if owner_items(*old(table)).dom().contains(key) {
            Some(owner_items(*old(table))[key])
        } else {
            None
        },
{
    table.items.insert(key, value)
}

/// `HashMap::get`: the value noted under the key, if any.
#[verifier::external_body]
fn owners_get(table: &Owners, key: u64) -> (value: Option<Id>)
    ensures
        value == if owner_items(*table).dom().contains(key) {
            Some(owner_items(*table)[key])
        } else {
            None
        },
{
    table.items.get(&key).copied()
}

/// Whether the compound opens with the marker or closes with it: whether
/// the marker is the start of its first region or the end of its last.
pub open spec fn claims<N>(nodes: Map<Id, Node<N>>, compound: Id, marker: Id) -> bool {
    &&& nodes.dom().contains(compound)
    &&& nodes[compound].owned().len() > 0
    &&& (nodes[compound].owned().first().start == marker || nodes[compound].owned().last().end
        == marker)
}

/// Whether `owner` is, among the compounds whose index is below `upto`, the
/// one with the largest index that claims the marker, or nothing if none
/// claims it.
pub open spec fn is_owner<N>(nodes: Map<Id, Node<N>>, marker: Id, owner: Option<Id>, upto: int) -> bool {
    match owner {
        Some(compound) => claims(nodes, compound, marker) && compound.index < upto && forall|
            other: Id,
        |
            claims(nodes, other, marker) && other.index < upto ==> other.index <= compound.index,
        None => forall|other: Id| claims(nodes, other, marker) ==> other.index >= upto,
    }
}

impl Owners {
    /// The compound noted for the marker, if any.
    pub open spec fn owner(&self, marker: Id) -> Option<Id> {
        if owner_items(*self).dom().contains(number_of(marker)) {
            Some(owner_items(*self)[number_of(marker)])
        } else {
            None
        }
    }

    /// Whether the map notes, for every marker, the compound that claims
    /// it, and of several the one with the largest index.
    pub open spec fn settled<N>(&self, nodes: Map<Id, Node<N>>) -> bool {
        forall|marker: Id|
            is_owner(nodes, marker, #[trigger] self.owner(marker), u32::MAX as int + 1)
    }

    /// Creates a map that notes nothing.
    pub fn new() -> (owners: Self)
        ensures
            forall|marker: Id| owners.owner(marker) is None,
    {
        owners_new()
    }

    /// Returns the compound noted for the marker, if any.
    pub fn get(&self, marker: Id) -> (owner: Option<Id>)
        ensures
            owner == self.owner(marker),
    {
        owners_get(self, number(marker))
    }

    /// Notes, for every compound of the store, the start of its first
    /// region and the end of its last, and forgets what was noted before.
    pub fn load<N>(&mut self, nodes: &Nodes<N>)
        requires
            nodes.well_formed(),
        ensures
            final(self).settled(nodes@),
    {
        proof {
            nodes.lemma_keys();
        }
        owners_clear(self);
        let active = nodes.active();
        let mut i: usize = 0;
        while i < active
            invariant
                nodes.well_formed(),
                distinct_indices(nodes@.dom()),
                i <= active,
                active <= u32::MAX,
                is_bound(nodes@.dom(), active as nat),
                forall|marker: Id| is_owner(nodes@, marker, #[trigger] self.owner(marker), i as int),
            decreases active - i,
        {
            let ghost before = *self;
            let ghost mut noted = false;
            let ghost mut first = Id { index: 0, version: 0 };
            let ghost mut last = Id { index: 0, version: 0 };
            if let Some(id) = nodes.key_at(i) {
                if let Some(Node::Compound(compound)) = nodes.get(id) {
                    let regions = compound.regions();
                    if regions.len() > 0 {
                        let start = regions[0].start;
                        let end = regions[regions.len() - 1].end;
                        owners_insert(self, number(start), id);
                        owners_insert(self, number(end), id);
                        proof {
                            noted = true;
                            first = start;
                            last = end;
                            assert(claims(nodes@, id, start));
                            assert(claims(nodes@, id, end));
                        }
                    }
                }
            }
            proof {
                assert forall|marker: Id|
                    is_owner(nodes@, marker, #[trigger] self.owner(marker), i + 1) by {
                    lemma_number_of(marker, first);
                    lemma_number_of(marker, last);
                    assert(is_owner(nodes@, marker, before.owner(marker), i as int));
                    if noted && (marker == first || marker == last) {
                    } else {
                        assert(self.owner(marker) == before.owner(marker));
                        assert forall|other: Id|
                            claims(nodes@, other, marker) && other.index == i implies false by {
                            if noted {
                            }
                        }
                    }
                }
            }
            i += 1;
        }
        proof {
            assert forall|marker: Id|
                is_owner(nodes@, marker, #[trigger] self.owner(marker), u32::MAX as int + 1) by {
                assert(is_owner(nodes@, marker, self.owner(marker), i as int));
            }
        }
    }
}

/// Two keys are noted under the same number only if they are the same key.
pub proof fn lemma_number_of(left: Id, right: Id)
    ensures
        number_of(left) == number_of(right) <==> left == right,
{
}

/// Returns the number under which a key is noted.
fn number(id: Id) -> (key: u64)
    ensures
        key == number_of(id),
{
    id.index as u64 * 0x1_0000_0000 + id.version as u64
}

} // verus!
