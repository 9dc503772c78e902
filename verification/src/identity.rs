//! Sets of node identities, as the deduplicating selectors keep them for
//! the length of one evaluation.

use crate::document::NodeRef;
use std::collections::HashSet;
use vstd::prelude::*;

verus! {

broadcast use vstd::std_specs::hash::group_hash_axioms;

/// A set of nodes, told apart by identity alone.
pub struct IdentitySet {
    docs: HashSet<usize>,
    truth: bool,
}

impl View for IdentitySet {
    type V = Set<NodeRef>;

    closed spec fn view(&self) -> Set<NodeRef> {
        Set::new(
            |r: NodeRef|
                match r {
                    NodeRef::Doc(i) => self.docs@.contains(i),
                    NodeRef::Truth => self.truth,
                },
        )
    }
}

impl IdentitySet {
    /// The empty set.
    pub fn new() -> (s: IdentitySet)
        ensures
            s@ == Set::<NodeRef>::empty(),
    {
        let s = IdentitySet { docs: HashSet::new(), truth: false };
        assert(s@ =~= Set::<NodeRef>::empty());
        s
    }

    /// Whether the node `r` is in the set.
    pub fn contains(&self, r: NodeRef) -> (b: bool)
        ensures
            b == self@.contains(r),
    {
        match r {
            NodeRef::Doc(i) => self.docs.contains(&i),
            NodeRef::Truth => self.truth,
        }
    }

    /// Adds the node `r` to the set.
    pub fn insert(&mut self, r: NodeRef)
        ensures
            final(self)@ == old(self)@.insert(r),
    {
        match r {
            NodeRef::Doc(i) => {
                self.docs.insert(i);
            },
            NodeRef::Truth => {
                self.truth = true;
            },
        }
        assert(self@ =~= old(self)@.insert(r));
    }
}

} // verus!
