//! Sets of digests.

use vstd::prelude::*;
use crate::primitives::B256;
use crate::sorted::{insert_unique, keys_of, search, set_of, strictly_sorted};

verus! {

/// A set of 256-bit digests, each stored once and in ascending order.
#[derive(Debug, Default)]
pub struct B256Set {
    digests: Vec<B256>,
}

impl View for B256Set {
    type V = Set<Seq<u8>>;

    open spec fn view(&self) -> Set<Seq<u8>> {
        set_of(self.digests())
    }
}

impl B256Set {
    /// The digests of the set in the order in which they are stored.
    pub closed spec fn digests(&self) -> Seq<Seq<u8>> {
        keys_of(self.digests@)
    }

    /// The digests are stored in strictly ascending order, so none occurs
    /// twice.
    pub open spec fn wf(&self) -> bool {
        strictly_sorted(self.digests())
    }

    /// A set that holds nothing.
    pub fn new() -> (s: B256Set)
        ensures
            s.wf(),
            s.digests() == Seq::<Seq<u8>>::empty(),
            s@ == Set::<Seq<u8>>::empty(),
    {
        let s = B256Set { digests: Vec::new() };
        assert(s.digests() =~= Seq::<Seq<u8>>::empty());
        assert(s@ =~= Set::<Seq<u8>>::empty());
        s
    }

    /// Puts a digest into the set, and says whether it was new to it.
    pub fn insert(&mut self, digest: B256) -> (added: bool)
        requires
            old(self).wf(),
        ensures
            final(self).wf(),
            final(self)@ == old(self)@.insert(digest@),
            added == !old(self)@.contains(digest@),
    {
        insert_unique(&mut self.digests, digest)
    }

    /// Whether `digest` is in the set.
    pub fn contains(&self, digest: &B256) -> (b: bool)
        requires
            self.wf(),
        ensures
            b == self@.contains(digest@),
    {
        match search(&self.digests, digest.as_slice()) {
            Ok(i) => {
                assert(self.digests()[i as int] == digest@);
                true
            },
            Err(_) => false,
        }
    }

    /// The number of digests in the set.
    pub fn len(&self) -> (n: usize)
        ensures
            n == self.digests().len(),
    {
        self.digests.len()
    }

    /// Whether the set holds no digest.
    pub fn is_empty(&self) -> (b: bool)
        ensures
            b == (self.digests().len() == 0),
            b == (self@ == Set::<Seq<u8>>::empty()),
    {
        proof {
            if self.digests().len() > 0 {
                assert(self.digests()[0] == self.digests()[0]);
                assert(self@.contains(self.digests()[0]));
            } else {
                assert(self@ =~= Set::<Seq<u8>>::empty());
            }
        }
        self.digests.len() == 0
    }

    /// The digest at place `i` of the ascending order.
    pub fn get(&self, i: usize) -> (d: &B256)
        requires
            i < self.digests().len(),
        ensures
            d@ == self.digests()[i as int],
    {
        &self.digests[i]
    }
}

} // verus!
