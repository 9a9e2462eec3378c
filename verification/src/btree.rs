//! An unbalanced binary search tree that discards duplicate values.

use vstd::prelude::*;

verus! {

broadcast use vstd::set::group_set_axioms;

/// A node of an unbalanced binary search tree over signed integers.
///
/// Every value in the left subtree is strictly less than the node's value
/// and every value in the right subtree is strictly greater; a value
/// inserted twice is discarded, so no value occurs twice.  The shape of
/// the tree depends on the order of insertion: nothing rebalances it, and
/// `balanced` is a query about the root's two subtrees, not an invariant.
#[derive(Debug, PartialEq)]
pub struct BTree {
    pub value: isize,
    pub left: Option<Box<BTree>>,
    pub right: Option<Box<BTree>>,
}

impl BTree {
    /// The values held by an optional subtree.
    pub open spec fn opt_set(t: Option<Box<BTree>>) -> Set<int>
        decreases t,
    {
        match t {
            Some(node) => node.to_set(),
            None => Set::empty(),
        }
    }

    /// The set of values held by the tree.
    pub open spec fn to_set(self) -> Set<int>
        decreases self,
    {
        Self::opt_set(self.left).union(Self::opt_set(self.right)).insert(self.value as int)
    }

    /// The binary-search-tree ordering: left-descendant values are
    /// strictly below the node's value, right-descendant values strictly
    /// above, at every node.
    pub open spec fn wf(self) -> bool
        decreases self,
    {
        &&& (match self.left {
            Some(l) => l.wf() && forall|x: int| #[trigger]
                l.to_set().contains(x) ==> x < self.value as int,
            None => true,
        })
        &&& (match self.right {
            Some(r) => r.wf() && forall|x: int| #[trigger]
                r.to_set().contains(x) ==> x > self.value as int,
            None => true,
        })
    }

    /// The number of nodes on the longest path from this node down to a
    /// leaf; a single node has height one.
    pub open spec fn height(self) -> nat
        decreases self,
    {
        let lh = Self::opt_height(self.left);
        let rh = Self::opt_height(self.right);
        1 + if lh >= rh {
            lh
        } else {
            rh
        }
    }

    /// The height of an optional subtree; an absent child counts as zero.
    pub open spec fn opt_height(t: Option<Box<BTree>>) -> nat
        decreases t,
    {
        match t {
            Some(node) => node.height(),
            None => 0,
        }
    }

    /// The tree after inserting a value: a value already at a node is
    /// discarded, a smaller one descends into the left subtree, a greater
    /// one into the right, and a new leaf is made where the descent finds
    /// no child.
    pub open spec fn spec_insert(self, val: isize) -> BTree
        decreases self,
    {
        if val == self.value {
            self
        } else if val < self.value {
            BTree {
                value: self.value,
                left: match self.left {
                    None => Some(Box::new(BTree { value: val, left: None, right: None })),
                    Some(l) => Some(Box::new(l.spec_insert(val))),
                },
                right: self.right,
            }
        } else {
            BTree {
                value: self.value,
                left: self.left,
                right: match self.right {
                    None => Some(Box::new(BTree { value: val, left: None, right: None })),
                    Some(r) => Some(Box::new(r.spec_insert(val))),
                },
            }
        }
    }

    pub fn new(val: isize) -> (t: BTree)
        ensures
            t.wf(),
            t.to_set() == Set::empty().insert(val as int),
            t.height() == 1,
            t == (BTree { value: val, left: None, right: None }),
    {
        let t = BTree { value: val, left: None, right: None };
        proof {
            assert(t.to_set() =~= Set::empty().insert(val as int));
        }
        t
    }

    /// Insert a value, keeping the search ordering; a value already in the
    /// tree is discarded.
    pub fn insert(&mut self, val: isize)
        requires
            old(self).wf(),
        ensures
            *final(self) == old(self).spec_insert(val),
            final(self).wf(),
            final(self).to_set() == old(self).to_set().insert(val as int),
        decreases *old(self),
    {
        // Duplicate values are not stored.
        if val == self.value {
            proof {
                assert(self.to_set() =~= self.to_set().insert(val as int));
            }
            return ;
        }

        if val < self.value {
            match self.left.take() {
                None => {
                    self.left = Some(Box::new(BTree::new(val)));
                },
                Some(mut node) => {
                    (&mut *node).insert(val);
                    self.left = Some(node);
                },
            }
        } else {
            match self.right.take() {
                None => {
                    self.right = Some(Box::new(BTree::new(val)));
                },
                Some(mut node) => {
                    (&mut *node).insert(val);
                    self.right = Some(node);
                },
            }
        }
        proof {
            assert(*self == old(self).spec_insert(val));
            assert(self.to_set() =~= old(self).to_set().insert(val as int));
        }
    }

    /// Whether the root's two subtrees differ in height by at most one.
    ///
    /// This is a local check of the root only, not a recursive balance
    /// guarantee for every node.
    pub fn balanced(&self) -> (r: bool)
        requires
            self.height() <= isize::MAX,
        ensures
            r <==> -1 <= Self::opt_height(self.left) - Self::opt_height(self.right) <= 1,
    {
        let left = match &self.left {
            Some(node) => node.depth(),
            None => 0,
        };
        let right = match &self.right {
            Some(node) => node.depth(),
            None => 0,
        };
        left - 1 <= right && right <= left + 1
    }

    /// The height of the tree, recomputed from scratch on every call: a
    /// deliberate trade of speed for simplicity over caching a height in
    /// every node.
    pub fn depth(&self) -> (d: isize)
        requires
            self.height() <= isize::MAX,
        ensures
            d as int == self.height(),
        decreases *self,
    {
        let right = match &self.right {
            Some(node) => node.depth(),
            None => 0,
        };
        let left = match &self.left {
            Some(node) => node.depth(),
            None => 0,
        };
        1 + if left >= right {
            left
        } else {
            right
        }
    }

    /// The height of a well-formed tree never exceeds the number of values
    /// in it, so a caller that counts its insertions can bound the height.
    pub proof fn lemma_height_le_size(self)
        requires
            self.wf(),
        ensures
            self.to_set().finite(),
            self.height() <= self.to_set().len(),
        decreases self,
    {
        let v = self.value as int;
        let ls = Self::opt_set(self.left);
        let rs = Self::opt_set(self.right);
        if let Some(l) = self.left {
            l.lemma_height_le_size();
        }
        if let Some(r) = self.right {
            r.lemma_height_le_size();
        }
        // The search ordering keeps the root's value out of both subtrees.
        assert(!ls.contains(v));
        assert(!rs.contains(v));
        if Self::opt_height(self.left) >= Self::opt_height(self.right) {
            assert(ls.insert(v).subset_of(self.to_set()));
            vstd::set_lib::lemma_len_subset(ls.insert(v), self.to_set());
        } else {
            assert(rs.insert(v).subset_of(self.to_set()));
            vstd::set_lib::lemma_len_subset(rs.insert(v), self.to_set());
        }
    }
}

} // verus!
