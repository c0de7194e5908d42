//! What a node says of one of its Merkle-summarised sets.

use vstd::prelude::*;

use crate::keys::same;

verus! {

/// The Merkle root of a set and the number of its leaves. The empty set has no
/// root, and only the empty set has none.
#[derive(Clone, Copy, Debug, PartialEq, Eq)]
pub struct PatchSummary {
    root: Option<[u8; 32]>,
    leaf_count: u64,
}

impl PatchSummary {
    /// The Merkle root.
    pub closed spec fn root_spec(self) -> Option<[u8; 32]> {
        self.root
    }

    /// The number of leaves.
    pub closed spec fn leaves(self) -> u64 {
        self.leaf_count
    }

    #[verifier::type_invariant]
    spec fn canonical(self) -> bool {
        self.root is Some <==> self.leaf_count > 0
    }

    /// A summary, if the root is there exactly for a set with leaves.
    pub fn new(root: Option<[u8; 32]>, leaf_count: u64) -> (summary: Option<Self>)
        ensures
            summary is Some <==> (root is Some <==> leaf_count > 0),
            summary matches Some(summary) ==> summary.root_spec() == root && summary.leaves()
                == leaf_count,
    {
        if root.is_some() == (leaf_count > 0) {
            Some(PatchSummary { root, leaf_count })
        } else {
            None
        }
    }

    /// The summary of the empty set.
    pub fn empty() -> (summary: Self)
        ensures
            summary.root_spec() is None,
            summary.leaves() == 0,
    {
        PatchSummary { root: None, leaf_count: 0 }
    }

    /// The Merkle root.
    pub fn root(&self) -> (root: Option<[u8; 32]>)
        ensures
            root == self.root_spec(),
            root is Some <==> self.leaves() > 0,
    {
        proof {
            use_type_invariant(self);
        }
        self.root
    }

    /// The number of leaves.
    pub fn leaf_count(&self) -> (leaf_count: u64)
        ensures
            leaf_count == self.leaves(),
            leaf_count > 0 <==> self.root_spec() is Some,
    {
        proof {
            use_type_invariant(self);
        }
        self.leaf_count
    }

    /// Whether two summaries say the same.
    pub fn agrees(&self, other: &Self) -> (equal: bool)
        ensures
            equal == (*self == *other),
    {
        if self.leaf_count != other.leaf_count {
            return false;
        }
        match (self.root, other.root) {
            (Some(a), Some(b)) => same(&a, &b),
            (None, None) => true,
            _ => false,
        }
    }
}

/// Two summaries with the same root and leaves are the same.
pub proof fn lemma_summary_equal(a: PatchSummary, b: PatchSummary)
    requires
        a.root_spec() == b.root_spec(),
        a.leaves() == b.leaves(),
    ensures
        a == b,
{
}

} // verus!
