//! Three independent stacks multiplexed over one backing vector.

use vstd::prelude::*;

verus! {

/// Selects which of the three logical stacks an operation acts on.
#[derive(Copy, Clone)]
pub enum StackChoice {
    First,
    Second,
    Third,
}

impl StackChoice {
    /// The residue modulo 3 of the slot indices belonging to this stack.
    pub open spec fn lane(self) -> int {
        match self {
            StackChoice::First => 0,
            StackChoice::Second => 1,
            StackChoice::Third => 2,
        }
    }

    /// The base slot index of this stack, also its index residue modulo 3.
    fn offset(&self) -> (k: usize)
        ensures
            k as int == self.lane(),
    {
        match self {
            StackChoice::First => 0,
            StackChoice::Second => 1,
            StackChoice::Third => 2,
        }
    }
}

/// The contents of logical stack `k` drawn from the first `n` slots of the
/// backing sequence: the values of the occupied slots whose index is
/// congruent to `k` modulo 3, bottom (lowest index) first.
pub open spec fn stack_view_up_to(s: Seq<Option<usize>>, k: int, n: int) -> Seq<usize>
    decreases n,
{
    if n <= 0 {
        Seq::empty()
    } else {
        let prev = stack_view_up_to(s, k, n - 1);
        if (n - 1) % 3 == k {
            match s[n - 1] {
                Some(v) => prev.push(v),
                None => prev,
            }
        } else {
            prev
        }
    }
}

/// The slice of the backing sequence below `n` is all that the view reads.
proof fn lemma_view_agree(s1: Seq<Option<usize>>, s2: Seq<Option<usize>>, k: int, n: int)
    requires
        0 <= n <= s1.len(),
        n <= s2.len(),
        forall|j: int| 0 <= j < n ==> s1[j] == s2[j],
    ensures
        stack_view_up_to(s1, k, n) == stack_view_up_to(s2, k, n),
    decreases n,
{
    if n > 0 {
        lemma_view_agree(s1, s2, k, n - 1);
    }
}

/// Empty slots on a stack's lane contribute nothing to its view.
proof fn lemma_view_skip_none(s: Seq<Option<usize>>, k: int, n1: int, n2: int)
    requires
        0 <= n1 <= n2 <= s.len(),
        forall|j: int| n1 <= j < n2 && j % 3 == k ==> s[j] is None,
    ensures
        stack_view_up_to(s, k, n2) == stack_view_up_to(s, k, n1),
    decreases n2,
{
    if n2 > n1 {
        lemma_view_skip_none(s, k, n1, n2 - 1);
    }
}

/// Writing a value into an empty slot on a stack's lane, above everything
/// occupied on that lane, pushes the value onto that stack's view.
proof fn lemma_view_write_top(s: Seq<Option<usize>>, k: int, i: int, v: usize, n: int)
    requires
        0 <= i < n <= s.len(),
        i % 3 == k,
        forall|j: int| i <= j < n && j % 3 == k ==> s[j] is None,
    ensures
        stack_view_up_to(s.update(i, Some(v)), k, n) == stack_view_up_to(s, k, n).push(v),
    decreases n,
{
    let s2 = s.update(i, Some(v));
    if n == i + 1 {
        lemma_view_agree(s2, s, k, i);
        lemma_view_skip_none(s, k, i, i + 1);
    } else {
        lemma_view_write_top(s, k, i, v, n - 1);
    }
}

/// Clearing the topmost occupied slot of a stack's lane drops the last
/// element of that stack's view.
proof fn lemma_view_clear_top(s: Seq<Option<usize>>, k: int, i: int, n: int)
    requires
        0 <= i < n <= s.len(),
        i % 3 == k,
        s[i] is Some,
        forall|j: int| i < j < n && j % 3 == k ==> s[j] is None,
    ensures
        stack_view_up_to(s, k, n).len() > 0,
        Some(stack_view_up_to(s, k, n).last()) == s[i],
        stack_view_up_to(s.update(i, None), k, n) == stack_view_up_to(s, k, n).drop_last(),
    decreases n,
{
    let s2 = s.update(i, None);
    if n == i + 1 {
        lemma_view_agree(s2, s, k, i);
        assert(stack_view_up_to(s, k, n) =~= stack_view_up_to(s, k, i).push(s[i].unwrap()));
        assert(stack_view_up_to(s2, k, n) =~= stack_view_up_to(s, k, i).push(
            s[i].unwrap()).drop_last());
    } else {
        lemma_view_clear_top(s, k, i, n - 1);
    }
}

/// A write on one lane leaves the views of the other lanes untouched.
proof fn lemma_view_other_lane(s: Seq<Option<usize>>, k2: int, i: int, x: Option<usize>, n: int)
    requires
        0 <= i < s.len(),
        n <= s.len(),
        i % 3 != k2,
    ensures
        stack_view_up_to(s.update(i, x), k2, n) == stack_view_up_to(s, k2, n),
    decreases n,
{
    if n > 0 {
        lemma_view_other_lane(s, k2, i, x, n - 1);
    }
}

/// Three stacks stored in a single growable vector of optional values.
///
/// Slot indices congruent to 0, 1 and 2 modulo 3 belong to the first,
/// second and third logical stack respectively.  The top of a logical
/// stack is the highest-indexed occupied slot on its lane; slots below the
/// top may have been emptied by `pop` and are never compacted.  The vector
/// always grows by exactly three slots at a time, one per stack.
pub struct TriStack {
    pub slots: Vec<Option<usize>>,
}

impl TriStack {
    /// The backing vector holds whole rows of three slots.
    pub open spec fn wf(self) -> bool {
        self.slots@.len() % 3 == 0
    }

    /// The elements of one logical stack, bottom first.
    pub open spec fn stack_view(self, k: int) -> Seq<usize> {
        stack_view_up_to(self.slots@, k, self.slots@.len() as int)
    }

    pub fn new() -> (t: TriStack)
        ensures
            t.wf(),
            t.slots@.len() == 0,
            forall|k: int| t.stack_view(k) == Seq::<usize>::empty(),
    {
        TriStack { slots: Vec::new() }
    }

    /// The position and contents of the topmost occupied slot of the chosen
    /// stack's lane, or `None` when that stack is empty.
    pub fn find_top_element(&self, stack: StackChoice) -> (r: Option<(usize, &Option<usize>)>)
        ensures
            r is None <==> self.stack_view(stack.lane()).len() == 0,
            r is None ==> forall|j: int|
                0 <= j < self.slots@.len() && j % 3 == stack.lane()
                    ==> self.slots@[j] is None,
            r matches Some((i, e)) ==> {
                &&& i < self.slots@.len()
                &&& i as int % 3 == stack.lane()
                &&& *e == self.slots@[i as int]
                &&& self.slots@[i as int] == Some(self.stack_view(stack.lane()).last())
                &&& forall|j: int|
                    i < j < self.slots@.len() && j % 3 == stack.lane()
                        ==> self.slots@[j] is None
            },
    {
        let k = stack.offset();
        let n = self.slots.len();
        let mut i: usize = n;

        while i > 0
            invariant
                i <= n,
                n == self.slots@.len(),
                k as int == stack.lane(),
                forall|j: int| i <= j < n && j % 3 == k ==> self.slots@[j] is None,
            decreases i,
        {
            i = i - 1;
            if i % 3 == k {
                if self.slots[i].is_some() {
                    proof {
                        lemma_view_clear_top(self.slots@, k as int, i as int, n as int);
                    }
                    return Some((i, &self.slots[i]));
                }
            }
        }

        proof {
            lemma_view_skip_none(self.slots@, k as int, 0, n as int);
        }
        None
    }

    /// Push a value onto the chosen stack: it lands in the first free slot
    /// of that stack's lane above its top, and the backing vector grows by
    /// one row of three empty slots if that slot does not exist yet.  The
    /// other two stacks are untouched.
    pub fn push(&mut self, stack: StackChoice, val: usize)
        requires
            old(self).wf(),
            old(self).slots@.len() + 3 <= usize::MAX,
        ensures
            final(self).wf(),
            final(self).slots@.len() == old(self).slots@.len()
                || final(self).slots@.len() == old(self).slots@.len() + 3,
            final(self).stack_view(stack.lane())
                == old(self).stack_view(stack.lane()).push(val),
            forall|k2: int|
                k2 != stack.lane() ==> final(self).stack_view(k2) == old(self).stack_view(k2),
    {
        let ghost s0 = self.slots@;
        let ghost n0 = s0.len() as int;

        let index = match self.find_top_element(stack) {
            Some((pos, _)) => pos + 3,
            None => stack.offset(),
        };

        if index >= self.slots.len() {
            self.slots.reserve(3);
            self.slots.push(None);
            self.slots.push(None);
            self.slots.push(None);
            proof {
                assert forall|k2: int|
                    stack_view_up_to(self.slots@, k2, self.slots@.len() as int)
                        == stack_view_up_to(s0, k2, n0) by {
                    lemma_view_skip_none(self.slots@, k2, n0, n0 + 3);
                    lemma_view_agree(self.slots@, s0, k2, n0);
                }
            }
        }

        let ghost s1 = self.slots@;
        proof {
            assert forall|j: int|
                index <= j < s1.len() && j % 3 == stack.lane() implies s1[j] is None by {
                if j < n0 {
                    assert(s1[j] == s0[j]);
                }
            }
        }
        self.slots.set(index, Some(val));
        proof {
            lemma_view_write_top(s1, stack.lane(), index as int, val, s1.len() as int);
            assert forall|k2: int| k2 != stack.lane() implies
                stack_view_up_to(self.slots@, k2, self.slots@.len() as int)
                    == stack_view_up_to(s1, k2, s1.len() as int) by {
                lemma_view_other_lane(s1, k2, index as int, Some(val), s1.len() as int);
            }
        }
    }

    /// Pop the top of the chosen stack: its slot is cleared and its value
    /// returned.  An empty stack yields `None` and nothing changes.  The
    /// other two stacks are untouched either way.
    pub fn pop(&mut self, stack: StackChoice) -> (r: Option<usize>)
        requires
            old(self).wf(),
        ensures
            final(self).wf(),
            old(self).stack_view(stack.lane()).len() == 0 ==> r is None
                && final(self).slots@ == old(self).slots@,
            old(self).stack_view(stack.lane()).len() > 0 ==> {
                &&& r == Some(old(self).stack_view(stack.lane()).last())
                &&& final(self).stack_view(stack.lane())
                    == old(self).stack_view(stack.lane()).drop_last()
                &&& forall|k2: int|
                    k2 != stack.lane()
                        ==> final(self).stack_view(k2) == old(self).stack_view(k2)
            },
    {
        let ghost s0 = self.slots@;
        match self.find_top_element(stack) {
            Some((idx, element)) => {
                let val = *element;
                self.slots.set(idx, None);
                proof {
                    lemma_view_clear_top(s0, stack.lane(), idx as int, s0.len() as int);
                    assert forall|k2: int| k2 != stack.lane() implies
                        stack_view_up_to(self.slots@, k2, self.slots@.len() as int)
                            == stack_view_up_to(s0, k2, s0.len() as int) by {
                        lemma_view_other_lane(s0, k2, idx as int, None, s0.len() as int);
                    }
                }
                val
            },
            None => None,
        }
    }
}

} // verus!
