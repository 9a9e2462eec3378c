//! A stack whose push, pop and minimum all run in constant time.

use vstd::prelude::*;

verus! {

/// The smaller of two values.
pub open spec fn min_val(a: usize, b: usize) -> usize {
    if a <= b {
        a
    } else {
        b
    }
}

/// The smallest element of a non-empty sequence.
pub open spec fn seq_min(s: Seq<usize>) -> usize
    recommends
        s.len() > 0,
    decreases s.len(),
{
    if s.len() <= 1 {
        s[0]
    } else {
        min_val(s.last(), seq_min(s.drop_last()))
    }
}

/// `seq_min` really is the minimum: it occurs in the sequence and no
/// element is below it.
pub proof fn lemma_seq_min_is_min(s: Seq<usize>)
    requires
        s.len() > 0,
    ensures
        s.contains(seq_min(s)),
        forall|i: int| 0 <= i < s.len() ==> seq_min(s) <= s[i],
    decreases s.len(),
{
    if s.len() > 1 {
        lemma_seq_min_is_min(s.drop_last());
        if seq_min(s) != s.last() {
            let w = choose|i: int|
                0 <= i < s.drop_last().len() && s.drop_last()[i] == seq_min(s.drop_last());
            assert(s[w] == seq_min(s));
        }
        assert forall|i: int| 0 <= i < s.len() implies seq_min(s) <= s[i] by {
            if i < s.len() - 1 {
                assert(seq_min(s.drop_last()) <= s.drop_last()[i]);
                assert(s.drop_last()[i] == s[i]);
            }
        }
    } else {
        assert(s[0] == seq_min(s));
    }
}

/// A singly linked stack that tracks its running minimum.
///
/// The node itself holds the current top value; `next` owns the node one
/// step down.  Each node's `min` field caches the smallest value at or
/// below it, so retrieving the minimum never scans.  An entirely empty
/// stack has all three fields `None`.
#[derive(Debug)]
pub struct ConstStack {
    val: Option<usize>,
    min: Option<usize>,
    next: Option<Box<ConstStack>>,
}

impl ConstStack {
    /// The stacked elements, bottom first; the top is the last index.
    pub closed spec fn view(self) -> Seq<usize>
        decreases self,
    {
        match self.val {
            None => Seq::empty(),
            Some(v) => (match self.next {
                Some(n) => n.view(),
                None => Seq::empty(),
            }).push(v),
        }
    }

    /// An empty node has no successor and no cached minimum; every other
    /// node caches the smaller of its value and its successor's minimum.
    pub closed spec fn wf(self) -> bool
        decreases self,
    {
        &&& (self.val is None ==> self.min is None && self.next is None)
        &&& (self.val is Some ==> self.min is Some)
        &&& (match self.next {
            Some(n) => {
                &&& n.val is Some
                &&& n.wf()
                &&& self.min.unwrap() == min_val(self.val.unwrap(), n.min.unwrap())
            },
            None => self.val is Some ==> self.min == self.val,
        })
    }

    /// A well-formed node's cached minimum is the minimum of its view.
    proof fn lemma_cached_min(self)
        requires
            self.wf(),
        ensures
            self.view().len() == 0 <==> self.val is None,
            self.val is Some ==> self.min == Some(seq_min(self.view())),
        decreases self,
    {
        match self.next {
            Some(n) => {
                n.lemma_cached_min();
                assert(self.view().drop_last() =~= n.view());
            },
            None => {},
        }
    }

    pub fn new() -> (s: ConstStack)
        ensures
            s.wf(),
            s.view() == Seq::<usize>::empty(),
    {
        ConstStack { val: None, min: None, next: None }
    }

    /// Push a value: the old top is demoted into a fresh node below, and
    /// the top's value and cached minimum are rewritten in place.
    pub fn push(&mut self, val: usize)
        requires
            old(self).wf(),
        ensures
            final(self).wf(),
            final(self).view() == old(self).view().push(val),
    {
        // Demote the current top (if any) to a successor node carrying its
        // value, minimum and link.
        self.next = match self.val {
            Some(_) => {
                let mut demoted = ConstStack::new();
                demoted.val = self.val;
                demoted.min = self.min;
                demoted.next = self.next.take();
                proof {
                    assert(demoted == *old(self));
                }
                Some(Box::new(demoted))
            },
            None => None,
        };

        // The new minimum is the new value or the previous minimum,
        // whichever is smaller.
        self.min = match self.min {
            Some(cur) => if cur > val {
                Some(val)
            } else {
                self.min
            },
            None => Some(val),
        };

        self.val = Some(val);

        proof {
            assert(self.view() =~= old(self).view().push(val));
        }
    }

    /// Pop the top value, promoting the successor node into the top slot,
    /// or return `None` (and change nothing) when the stack is empty.
    pub fn pop(&mut self) -> (r: Option<usize>)
        requires
            old(self).wf(),
        ensures
            final(self).wf(),
            old(self).view().len() == 0 ==> r is None && final(self).view() == old(self).view(),
            old(self).view().len() > 0 ==> r == Some(old(self).view().last())
                && final(self).view() == old(self).view().drop_last(),
    {
        let val = self.val;

        match self.next.take() {
            Some(pull) => {
                let ConstStack { val: v2, min: m2, next: n2 } = *pull;
                self.val = v2;
                self.min = m2;
                self.next = n2;
            },
            None => {
                self.val = None;
                self.min = None;
                self.next = None;
            },
        }

        proof {
            if old(self).view().len() > 0 {
                assert(self.view() =~= old(self).view().drop_last());
            }
        }

        val
    }

    /// The smallest element currently on the stack, without scanning, or
    /// `None` when the stack is empty.
    pub fn min(&self) -> (r: Option<usize>)
        requires
            self.wf(),
        ensures
            self.view().len() == 0 ==> r is None,
            self.view().len() > 0 ==> r == Some(seq_min(self.view())),
    {
        proof {
            self.lemma_cached_min();
        }
        self.min
    }
}

} // verus!
