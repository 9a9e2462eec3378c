//! A first-in-first-out queue built from two last-in-first-out stacks.

use vstd::prelude::*;

verus! {

/// A queue made of two stacks.
///
/// Stack `a` holds every queued element in arrival order, so the bottom of
/// `a` is the next element to be dequeued.  Stack `b` is a scratch buffer
/// used by `pop` to reverse `a`; between calls it is always empty.
///
/// `push` is O(1); `pop` is O(n) because it pours `a` through `b` and back.
/// This is a correctness-first design, not a performance-first one.
pub struct TwoStackQueue {
    a: Vec<usize>,
    b: Vec<usize>,
}

impl TwoStackQueue {
    /// The queued elements, oldest first.
    pub closed spec fn view(self) -> Seq<usize> {
        self.a@
    }

    /// Between operations the scratch stack is empty.
    pub closed spec fn wf(self) -> bool {
        self.b@.len() == 0
    }

    pub fn new() -> (q: TwoStackQueue)
        ensures
            q.wf(),
            q@ == Seq::<usize>::empty(),
    {
        TwoStackQueue { a: Vec::new(), b: Vec::new() }
    }

    /// Enqueue a value: it leaves the queue only after everything already in it.
    pub fn push(&mut self, val: usize)
        requires
            old(self).wf(),
        ensures
            final(self).wf(),
            final(self)@ == old(self)@.push(val),
    {
        self.a.push(val);
    }

    /// Dequeue the oldest element, or return `None` (and change nothing) when
    /// the queue is empty.
    pub fn pop(&mut self) -> (r: Option<usize>)
        requires
            old(self).wf(),
        ensures
            final(self).wf(),
            old(self)@.len() == 0 ==> r is None && final(self)@ == old(self)@,
            old(self)@.len() > 0 ==> r == Some(old(self)@[0])
                && final(self)@ == old(self)@.drop_first(),
    {
        let ghost a0 = self.a@;
        let ghost n = a0.len() as int;

        // Pour the arrival stack onto the scratch stack, reversing it.
        while self.a.len() > 0
            invariant
                n == a0.len(),
                self.a@.len() + self.b@.len() == n,
                self.a@ == a0.subrange(0, self.a@.len() as int),
                forall|j: int|
                    0 <= j < self.b@.len() ==> self.b@[j] == a0[n - 1 - j],
            decreases self.a.len(),
        {
            let element = self.a.pop().unwrap();
            self.b.push(element);
            proof {
                assert(self.a@ =~= a0.subrange(0, self.a@.len() as int));
            }
        }

        // The top of the scratch stack is the oldest element.
        let ret = self.b.pop();

        // Pour the scratch stack back, restoring arrival order minus the
        // element just removed.
        while self.b.len() > 0
            invariant
                n == a0.len(),
                n == 0 ==> self.a@.len() == 0 && self.b@.len() == 0,
                n > 0 ==> self.a@.len() + self.b@.len() == n - 1,
                forall|i: int|
                    0 <= i < self.a@.len() ==> self.a@[i] == a0[i + 1],
                forall|j: int|
                    0 <= j < self.b@.len() ==> self.b@[j] == a0[n - 1 - j],
            decreases self.b.len(),
        {
            let element = self.b.pop().unwrap();
            self.a.push(element);
        }

        proof {
            if n > 0 {
                assert(self.a@ =~= a0.drop_first());
            } else {
                assert(self.a@ =~= a0);
            }
        }

        ret
    }
}

} // verus!
