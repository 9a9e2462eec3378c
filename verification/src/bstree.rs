//! An unbalanced binary search tree that keeps duplicate values.

use vstd::prelude::*;
use vstd::multiset::Multiset;

verus! {

broadcast use vstd::multiset::group_multiset_axioms;

/// Every value of the multiset lies strictly below the bound.
pub open spec fn all_below(ms: Multiset<int>, v: int) -> bool {
    forall|x: int| #[trigger] ms.contains(x) ==> x < v
}

/// Every value of the multiset lies at or above the bound.
pub open spec fn all_at_or_above(ms: Multiset<int>, v: int) -> bool {
    forall|x: int| #[trigger] ms.contains(x) ==> x >= v
}

/// A node of an unbalanced binary search tree over signed integers.
///
/// Every value in the left subtree is strictly less than the node's value
/// and every value in the right subtree is greater than or equal to it:
/// a value inserted twice is routed into the right subtree and kept.  The
/// shape of the tree depends on the order of insertion: nothing rebalances
/// it, and `balanced` is a query about the root's two subtrees, not an
/// invariant.
#[derive(Debug, PartialEq)]
pub struct BSTree {
    pub value: isize,
    pub left: Option<Box<BSTree>>,
    pub right: Option<Box<BSTree>>,
}

impl BSTree {
    /// The values held by an optional subtree, with multiplicity.
    pub open spec fn opt_multiset(t: Option<Box<BSTree>>) -> Multiset<int>
        decreases t,
    {
        match t {
            Some(node) => node.to_multiset(),
            None => Multiset::empty(),
        }
    }

    /// The multiset of values held by the tree.
    pub open spec fn to_multiset(self) -> Multiset<int>
        decreases self,
    {
        Self::opt_multiset(self.left).add(Self::opt_multiset(self.right)).insert(
            self.value as int,
        )
    }

    /// Whether an optional subtree is itself a well-formed search tree.
    pub open spec fn opt_wf(t: Option<Box<BSTree>>) -> bool
        decreases t,
    {
        match t {
            Some(node) => node.wf(),
            None => true,
        }
    }

    /// The binary-search-tree ordering: left-descendant values are
    /// strictly below the node's value and right-descendant values are
    /// greater than or equal to it, at every node.
    pub open spec fn wf(self) -> bool
        decreases self,
    {
        &&& Self::opt_wf(self.left)
        &&& Self::opt_wf(self.right)
        &&& all_below(Self::opt_multiset(self.left), self.value as int)
        &&& all_at_or_above(Self::opt_multiset(self.right), self.value as int)
    }

    /// The number of nodes on the longest path from this node down to a
    /// leaf; a single node has height one.
    pub open spec fn height(self) -> nat
        decreases self,
    {
        let lh = Self::opt_height(self.left);
        let rh = Self::opt_height(self.right);
        1 + if lh >= rh {
            lh
        } else {
            rh
        }
    }

    /// The height of an optional subtree; an absent child counts as zero.
    pub open spec fn opt_height(t: Option<Box<BSTree>>) -> nat
        decreases t,
    {
        match t {
            Some(node) => node.height(),
            None => 0,
        }
    }

    /// The tree after inserting a value: a value below the node's value
    /// descends into the left subtree, any other into the right, and a new
    /// leaf is made where the descent finds no child.
    pub open spec fn spec_insert(self, val: isize) -> BSTree
        decreases self,
    {
        if val < self.value {
            BSTree {
                value: self.value,
                left: match self.left {
                    None => Some(Box::new(BSTree { value: val, left: None, right: None })),
                    Some(l) => Some(Box::new(l.spec_insert(val))),
                },
                right: self.right,
            }
        } else {
            BSTree {
                value: self.value,
                left: self.left,
                right: match self.right {
                    None => Some(Box::new(BSTree { value: val, left: None, right: None })),
                    Some(r) => Some(Box::new(r.spec_insert(val))),
                },
            }
        }
    }

    pub fn new(val: isize) -> (t: BSTree)
        ensures
            t.wf(),
            t.to_multiset() == Multiset::empty().insert(val as int),
            t.height() == 1,
            t == (BSTree { value: val, left: None, right: None }),
    {
        let t = BSTree { value: val, left: None, right: None };
        proof {
            assert(t.to_multiset() =~= Multiset::empty().insert(val as int));
        }
        t
    }

    /// Insert a value, keeping the search ordering; a value equal to one
    /// already present goes into the right subtree.
    pub fn insert(&mut self, val: isize)
        requires
            old(self).wf(),
        ensures
            *final(self) == old(self).spec_insert(val),
            final(self).wf(),
            final(self).to_multiset() == old(self).to_multiset().insert(val as int),
        decreases *old(self),
    {
        if val < self.value {
            match self.left.take() {
                None => {
                    self.left = Some(Box::new(BSTree::new(val)));
                },
                Some(mut node) => {
                    (&mut *node).insert(val);
                    self.left = Some(node);
                },
            }
            proof {
                assert forall|x: int| #[trigger]
                    Self::opt_multiset(self.left).contains(x) implies x < self.value as int by {
                    if x != val {
                        assert(Self::opt_multiset(old(self).left).contains(x));
                    }
                }
                assert(all_below(Self::opt_multiset(self.left), self.value as int));
            }
        } else {
            match self.right.take() {
                None => {
                    self.right = Some(Box::new(BSTree::new(val)));
                },
                Some(mut node) => {
                    (&mut *node).insert(val);
                    self.right = Some(node);
                },
            }
            proof {
                assert forall|x: int| #[trigger]
                    Self::opt_multiset(self.right).contains(x) implies x >= self.value as int by {
                    if x != val {
                        assert(Self::opt_multiset(old(self).right).contains(x));
                    }
                }
                assert(all_at_or_above(Self::opt_multiset(self.right), self.value as int));
            }
        }
        proof {
            assert(*self == old(self).spec_insert(val));
            assert(self.to_multiset() =~= old(self).to_multiset().insert(val as int));
        }
    }

    /// Whether the root's two subtrees differ in height by at most one.
    ///
    /// This is a local check of the root only, not a recursive balance
    /// guarantee for every node.
    pub fn balanced(&self) -> (r: bool)
        requires
            self.height() <= isize::MAX,
        ensures
            r <==> -1 <= Self::opt_height(self.left) - Self::opt_height(self.right) <= 1,
    {
        let left = match &self.left {
            Some(node) => node.depth(),
            None => 0,
        };
        let right = match &self.right {
            Some(node) => node.depth(),
            None => 0,
        };
        left - 1 <= right && right <= left + 1
    }

    /// The height of the tree, recomputed from scratch on every call: a
    /// deliberate trade of speed for simplicity over caching a height in
    /// every node.
    pub fn depth(&self) -> (d: isize)
        requires
            self.height() <= isize::MAX,
        ensures
            d as int == self.height(),
        decreases *self,
    {
        let right = match &self.right {
            Some(node) => node.depth(),
            None => 0,
        };
        let left = match &self.left {
            Some(node) => node.depth(),
            None => 0,
        };
        1 + if left >= right {
            left
        } else {
            right
        }
    }

    /// The height never exceeds the number of values in the tree, so a
    /// caller that counts its insertions can bound the height.
    pub proof fn lemma_height_le_size(self)
        ensures
            self.height() <= self.to_multiset().len(),
        decreases self,
    {
        if let Some(l) = self.left {
            l.lemma_height_le_size();
        }
        if let Some(r) = self.right {
            r.lemma_height_le_size();
        }
    }
}

} // verus!
