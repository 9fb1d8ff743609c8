//! The frames that back the pages of one map area, keyed by virtual page
//! number.

use vstd::prelude::*;
use std::collections::BTreeMap;
use crate::mm::frame_allocator::FrameTracker;

verus! {

/// An ordered map from virtual page numbers to the frames that back them.
pub struct FrameMap {
    map: BTreeMap<u64, FrameTracker>,
}

impl FrameMap {
    /// The frames by page number.
    pub closed spec fn view(&self) -> Map<u64, FrameTracker> {
        self.map@
    }

    /// The map holds finitely many pages.
    pub proof fn lemma_finite(&self)
        ensures
            self@.dom().finite(),
    {
        broadcast use vstd::std_specs::btree::group_btree_axioms;

    }

    /// The empty map.
    pub fn new() -> (r: FrameMap)
        ensures
            r@ == Map::<u64, FrameTracker>::empty(),
    {
        FrameMap { map: BTreeMap::new() }
    }

    /// Whether the page `vpn` has a frame.
    pub fn contains_key(&self, vpn: u64) -> (r: bool)
        ensures
            r == self@.contains_key(vpn),
    {
        broadcast use vstd::std_specs::btree::group_btree_axioms;
        broadcast use vstd::laws_cmp::group_laws_cmp;

        self.map.contains_key(&vpn)
    }

    /// The frame of the page `vpn`, if it has one.
    pub fn get(&self, vpn: u64) -> (r: Option<&FrameTracker>)
        ensures
            r matches Some(f) ==> self@.contains_key(vpn) && *f == self@[vpn],
            r is None ==> !self@.contains_key(vpn),
    {
        broadcast use vstd::std_specs::btree::group_btree_axioms;
        broadcast use vstd::laws_cmp::group_laws_cmp;

        self.map.get(&vpn)
    }

    /// Records `frame` for the page `vpn` and hands back the frame that the
    /// page had before, if any.
    pub fn insert(&mut self, vpn: u64, frame: FrameTracker) -> (r: Option<FrameTracker>)
        ensures
            final(self)@ == old(self)@.insert(vpn, frame),
            r matches Some(f) ==> old(self)@.contains_key(vpn) && f == old(self)@[vpn],
            r is None ==> !old(self)@.contains_key(vpn),
    {
        broadcast use vstd::std_specs::btree::group_btree_axioms;
        broadcast use vstd::laws_cmp::group_laws_cmp;

        self.map.insert(vpn, frame)
    }

    /// Takes the frame of the page `vpn` out, if it has one.
    pub fn remove(&mut self, vpn: u64) -> (r: Option<FrameTracker>)
        ensures
            final(self)@ == old(self)@.remove(vpn),
            r matches Some(f) ==> old(self)@.contains_key(vpn) && f == old(self)@[vpn],
            r is None ==> !old(self)@.contains_key(vpn),
    {
        broadcast use vstd::std_specs::btree::group_btree_axioms;
        broadcast use vstd::laws_cmp::group_laws_cmp;

        self.map.remove(&vpn)
    }

    /// The number of pages that have a frame.
    pub fn len(&self) -> (r: usize)
        ensures
            r == self@.len(),
    {
        broadcast use vstd::std_specs::btree::group_btree_axioms;

        self.map.len()
    }
}

} // verus!
