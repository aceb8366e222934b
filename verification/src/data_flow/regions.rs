//! Short inline lists of regions.

use vstd::prelude::*;
use tinyvec::TinyVec;
use crate::data_flow::link::Region;

verus! {

/// The regions owned by a node, kept inline while there are no more than two.
#[verifier::external_body]
#[derive(Debug)]
pub struct RegionList {
    items: TinyVec<[Region; 2]>,
}

/// The regions that a list holds, in order.
pub uninterp spec fn region_items(list: RegionList) -> Seq<Region>;

impl View for RegionList {
    type V = Seq<Region>;

    open spec fn view(&self) -> Seq<Region> {
        region_items(*self)
    }
}

/// `TinyVec::new`: a list that holds nothing.
#[verifier::external_body]
fn regions_new() -> (list: RegionList)
    ensures
        region_items(list) == Seq::<Region>::empty(),
{
    RegionList { items: TinyVec::new() }
}

/// `TinyVec::push`: appends one item at the end and keeps the others in place.
#[verifier::external_body]
fn regions_push(list: &mut RegionList, region: Region)
    ensures
        region_items(*final(list)) == region_items(*old(list)).push(region),
{
    list.items.push(region)
}

/// `TinyVec::as_slice`: the items of the list, in order.
#[verifier::external_body]
fn regions_as_slice(list: &RegionList) -> (items: &[Region])
    ensures
        items@ == region_items(*list),
{
    list.items.as_slice()
}

impl Clone for RegionList {
    /// `TinyVec::clone`: a list that holds the same items in the same order.
    #[verifier::external_body]
    fn clone(&self) -> (list: Self)
        ensures
            region_items(list) == region_items(*self),
    {
        RegionList { items: self.items.clone() }
    }
}

impl RegionList {
    /// A list that holds the given regions in the given order.
    pub fn from_slice(regions: &[Region]) -> (list: Self)
        ensures
            list@ == regions@,
    {
        let mut list = regions_new();
        let mut i: usize = 0;
        while i < regions.len()
            invariant
                i <= regions@.len(),
                list@ == regions@.take(i as int),
            decreases regions@.len() - i,
        {
            regions_push(&mut list, regions[i]);
            i += 1;
            assert(regions@.take(i as int) == regions@.take(i - 1).push(regions@[i - 1]));
        }
        assert(regions@.take(i as int) == regions@);
        list
    }

    /// The regions of the list, in order.
    pub fn as_slice(&self) -> (items: &[Region])
        ensures
            items@ == self@,
    {
        regions_as_slice(self)
    }
}

} // verus!
