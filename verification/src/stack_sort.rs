//! A stack that can sort itself using at most one additional stack.

use vstd::prelude::*;

verus! {

broadcast use
    vstd::seq_lib::group_to_multiset_ensures,
    vstd::seq_lib::lemma_multiset_commutative,
    vstd::multiset::group_multiset_axioms;

/// The elements never decrease from index to index (as a stack: the top,
/// the last index, holds the largest value).
pub open spec fn non_decreasing(s: Seq<usize>) -> bool {
    forall|i: int, j: int| 0 <= i <= j < s.len() ==> s[i] <= s[j]
}

/// The elements never increase from index to index (as a stack: the top,
/// the last index, holds the smallest value).
pub open spec fn non_increasing(s: Seq<usize>) -> bool {
    forall|i: int, j: int| 0 <= i <= j < s.len() ==> s[i] >= s[j]
}

/// Moving the top of one stack onto another leaves the combined contents
/// unchanged.
proof fn lemma_stack_transfer(from: Seq<usize>, to: Seq<usize>)
    requires
        from.len() > 0,
    ensures
        from.drop_last().to_multiset().add(to.push(from.last()).to_multiset())
            == from.to_multiset().add(to.to_multiset()),
        to.push(from.last()).to_multiset().add(from.drop_last().to_multiset())
            == to.to_multiset().add(from.to_multiset()),
{
    let x = from.last();
    assert(from.drop_last() =~= from.remove(from.len() - 1));
    assert(from.contains(x));
    assert(from.drop_last().to_multiset().add(to.push(x).to_multiset())
        =~= from.to_multiset().add(to.to_multiset()));
    assert(to.push(x).to_multiset().add(from.drop_last().to_multiset())
        =~= to.to_multiset().add(from.to_multiset()));
}

/// Pushing a value no smaller than the current top keeps a stack sorted
/// ascending from bottom to top.
proof fn lemma_push_keeps_non_decreasing(s: Seq<usize>, x: usize)
    requires
        non_decreasing(s),
        s.len() > 0 ==> s.last() <= x,
    ensures
        non_decreasing(s.push(x)),
{
    let t = s.push(x);
    assert forall|i: int, j: int| 0 <= i <= j < t.len() implies t[i] <= t[j] by {
        if j < s.len() {
            assert(s[i] <= s[j]);
        } else if i < s.len() {
            assert(s[i] <= s[s.len() - 1]);
        }
    }
}

/// Pushing a value no larger than the current top keeps a stack sorted
/// descending from bottom to top.
proof fn lemma_push_keeps_non_increasing(s: Seq<usize>, x: usize)
    requires
        non_increasing(s),
        s.len() > 0 ==> x <= s.last(),
    ensures
        non_increasing(s.push(x)),
{
    let t = s.push(x);
    assert forall|i: int, j: int| 0 <= i <= j < t.len() implies t[i] >= t[j] by {
        if j < s.len() {
            assert(s[i] >= s[j]);
        } else if i < s.len() {
            assert(s[i] >= s[s.len() - 1]);
        }
    }
}

/// An ordered arrangement of given contents is unique: two sequences in
/// non-decreasing order holding the same elements are equal.  Hence the
/// contract of `sort` determines the sorted stack completely.
pub proof fn lemma_non_decreasing_unique(a: Seq<usize>, b: Seq<usize>)
    requires
        non_decreasing(a),
        non_decreasing(b),
        a.to_multiset() == b.to_multiset(),
    ensures
        a == b,
    decreases a.len(),
{
    assert(a.to_multiset().len() == a.len());
    assert(b.to_multiset().len() == b.len());
    if a.len() == 0 {
        assert(a =~= b);
    } else {
        // The last element of each is its maximum, and a shared maximum of
        // shared contents is the same value.
        assert(a.contains(a.last()));
        assert(b.to_multiset().contains(a.last()));
        assert(b.contains(a.last()));
        assert(a.to_multiset().contains(b.last()));
        assert(a.contains(b.last()));
        let ia = choose|i: int| 0 <= i < a.len() && a[i] == b.last();
        let ib = choose|i: int| 0 <= i < b.len() && b[i] == a.last();
        assert(a.last() <= b[ib] <= b.last());
        assert(b.last() <= a[ia] <= a.last());
        assert(a.last() == b.last());
        // Strip the shared maximum and recurse on what is below it.
        assert(a.drop_last() =~= a.remove(a.len() - 1));
        assert(b.drop_last() =~= b.remove(b.len() - 1));
        assert(a.drop_last().to_multiset() == b.drop_last().to_multiset());
        assert forall|i: int, j: int|
            0 <= i <= j < a.drop_last().len() implies a.drop_last()[i] <= a.drop_last()[j] by {
            assert(a[i] <= a[j]);
        }
        assert forall|i: int, j: int|
            0 <= i <= j < b.drop_last().len() implies b.drop_last()[i] <= b.drop_last()[j] by {
            assert(b[i] <= b[j]);
        }
        lemma_non_decreasing_unique(a.drop_last(), b.drop_last());
        assert forall|i: int| 0 <= i < a.len() implies a[i] == b[i] by {
            if i < a.len() - 1 {
                assert(a.drop_last()[i] == b.drop_last()[i]);
            } else {
                assert(a[i] == a.last());
            }
        }
        assert(a =~= b);
    }
}

/// A stack of `usize` elements (`list`) together with one scratch stack
/// (`temp`), enough to sort the primary stack in place.
///
/// Between sorts, `temp` is only touched through `push_temp` / `pop_temp`;
/// `sort` requires whatever is in it to be ordered with its smallest value
/// on top, which trivially holds of the empty scratch stack that `new`
/// creates.
pub struct StackSort {
    list: Vec<usize>,
    temp: Vec<usize>,
}

impl StackSort {
    /// The primary, user-facing stack, bottom first; the top is the last index.
    pub closed spec fn list_view(self) -> Seq<usize> {
        self.list@
    }

    /// The scratch stack, bottom first; the top is the last index.
    pub closed spec fn temp_view(self) -> Seq<usize> {
        self.temp@
    }

    pub fn new() -> (s: StackSort)
        ensures
            s.list_view() == Seq::<usize>::empty(),
            s.temp_view() == Seq::<usize>::empty(),
    {
        StackSort { list: Vec::new(), temp: Vec::new() }
    }

    pub fn push(&mut self, val: usize)
        ensures
            final(self).list_view() == old(self).list_view().push(val),
            final(self).temp_view() == old(self).temp_view(),
    {
        self.list.push(val);
    }

    pub fn push_temp(&mut self, val: usize)
        ensures
            final(self).temp_view() == old(self).temp_view().push(val),
            final(self).list_view() == old(self).list_view(),
    {
        self.temp.push(val);
    }

    /// Remove and return the top of the primary stack, or `None` (changing
    /// nothing) when it is empty.
    pub fn pop(&mut self) -> (r: Option<usize>)
        ensures
            old(self).list_view().len() == 0 ==> r is None
                && final(self).list_view() == old(self).list_view(),
            old(self).list_view().len() > 0 ==> r == Some(old(self).list_view().last())
                && final(self).list_view() == old(self).list_view().drop_last(),
            final(self).temp_view() == old(self).temp_view(),
    {
        self.list.pop()
    }

    /// Remove and return the top of the scratch stack, or `None` (changing
    /// nothing) when it is empty.
    pub fn pop_temp(&mut self) -> (r: Option<usize>)
        ensures
            old(self).temp_view().len() == 0 ==> r is None
                && final(self).temp_view() == old(self).temp_view(),
            old(self).temp_view().len() > 0 ==> r == Some(old(self).temp_view().last())
                && final(self).temp_view() == old(self).temp_view().drop_last(),
            final(self).list_view() == old(self).list_view(),
    {
        self.temp.pop()
    }

    /// The top of the primary stack without removing it.
    pub fn peek(&self) -> (r: Option<usize>)
        ensures
            self.list_view().len() == 0 ==> r is None,
            self.list_view().len() > 0 ==> r == Some(self.list_view().last()),
    {
        match self.list.last() {
            Some(v) => Some(*v),
            None => None,
        }
    }

    /// The top of the scratch stack without removing it.
    pub fn peek_temp(&self) -> (r: Option<usize>)
        ensures
            self.temp_view().len() == 0 ==> r is None,
            self.temp_view().len() > 0 ==> r == Some(self.temp_view().last()),
    {
        match self.temp.last() {
            Some(v) => Some(*v),
            None => None,
        }
    }

    pub fn is_empty(&self) -> (r: bool)
        ensures
            r <==> self.list_view().len() == 0,
    {
        self.list.is_empty()
    }

    /// Sort the primary stack so that its largest element ends on top,
    /// using only the one scratch stack.
    ///
    /// One element at a time is taken off the primary stack and slotted
    /// into the scratch stack, whose values stay ordered with the smallest
    /// on top: a value smaller than the scratch top goes straight on;
    /// otherwise scratch elements no larger than the value are poured back
    /// onto the primary stack, the value is pushed, and elements are pulled
    /// back as long as that keeps the scratch stack ordered.  When the
    /// primary stack is empty, the scratch stack is poured back, reversing
    /// it into ascending order from bottom to top.
    pub fn sort(&mut self)
        requires
            non_increasing(old(self).temp_view()),
        ensures
            non_decreasing(final(self).list_view()),
            final(self).temp_view().len() == 0,
            final(self).list_view().to_multiset()
                == old(self).list_view().to_multiset().add(old(self).temp_view().to_multiset()),
    {
        let ghost total0 = self.list_view().to_multiset().add(self.temp_view().to_multiset());

        while !self.is_empty()
            invariant
                non_increasing(self.temp_view()),
                self.list_view().to_multiset().add(self.temp_view().to_multiset()) == total0,
            decreases self.list_view().len(),
        {
            match self.peek() {
                None => {
                    // The loop condition rules this arm out.
                    proof {
                        assert(false);
                    }
                },
                Some(top) => {
                    match self.peek_temp() {
                        None => {
                            // The scratch stack is empty: the value on top of
                            // the primary stack moves over unconditionally.
                            proof {
                                lemma_stack_transfer(self.list_view(), self.temp_view());
                                lemma_push_keeps_non_increasing(self.temp_view(), top);
                            }
                            self.pop();
                            self.push_temp(top);
                        },
                        Some(tmp) => {
                            proof {
                                lemma_stack_transfer(self.list_view(), self.temp_view());
                            }
                            let val = self.pop().unwrap();
                            if val < tmp {
                                // Smaller than the scratch top: it goes
                                // straight on and keeps the ordering.
                                proof {
                                    lemma_push_keeps_non_increasing(self.temp_view(), val);
                                }
                                self.push_temp(val);
                            } else {
                                self.insert_large(val);
                                proof {
                                    assert(self.list_view().to_multiset().add(
                                        self.temp_view().to_multiset()) =~= total0);
                                }
                            }
                        },
                    }
                },
            }
        }

        // Pour the ordered scratch stack back: smallest first, so the
        // primary stack ends ascending from bottom to top.
        while self.temp.len() > 0
            invariant
                self.list_view().to_multiset().add(self.temp_view().to_multiset()) == total0,
                non_decreasing(self.list_view()),
                non_increasing(self.temp_view()),
                self.list_view().len() > 0 && self.temp_view().len() > 0
                    ==> self.list_view().last() <= self.temp_view().last(),
            decreases self.temp_view().len(),
        {
            proof {
                lemma_stack_transfer(self.temp_view(), self.list_view());
                lemma_push_keeps_non_decreasing(self.list_view(), self.temp_view().last());
            }
            let v = self.pop_temp().unwrap();
            self.push(v);
            proof {
                assert(self.list_view().to_multiset().add(self.temp_view().to_multiset())
                    =~= total0);
            }
        }

        proof {
            assert(self.list_view().to_multiset() =~= total0);
        }
    }

    /// One step of `sort` for a value no smaller than the scratch top:
    /// scratch elements not above the value are poured onto the primary
    /// stack, the value is pushed, and then elements are pulled back from
    /// the primary stack as long as each is no larger than the scratch top.
    ///
    /// The pull always recovers at least as many elements as were poured
    /// off, so the primary stack ends no longer than it began.
    fn insert_large(&mut self, val: usize)
        requires
            non_increasing(old(self).temp_view()),
            old(self).temp_view().len() > 0 ==> old(self).temp_view().last() <= val,
        ensures
            non_increasing(final(self).temp_view()),
            final(self).list_view().len() <= old(self).list_view().len(),
            final(self).list_view().to_multiset().add(final(self).temp_view().to_multiset())
                == old(self).list_view().to_multiset().add(
                old(self).temp_view().to_multiset().insert(val)),
    {
        let ghost bigl = self.list_view();
        let ghost bigt = self.temp_view();
        let ghost total1 = bigl.to_multiset().add(bigt.to_multiset().insert(val));
        let ghost mut m: int = bigt.len() as int;

        // Pour scratch elements no larger than the value onto the primary
        // stack; they come off smallest first, so they pile up ascending.
        loop
            invariant
                0 <= m <= bigt.len(),
                self.temp_view() == bigt.take(m),
                self.list_view() == bigl + bigt.subrange(m, bigt.len() as int).reverse(),
                forall|i: int| m <= i < bigt.len() ==> bigt[i] <= val,
            ensures
                0 <= m <= bigt.len(),
                self.temp_view() == bigt.take(m),
                self.list_view() == bigl + bigt.subrange(m, bigt.len() as int).reverse(),
                forall|i: int| m <= i < bigt.len() ==> bigt[i] <= val,
                m > 0 ==> bigt[m - 1] > val,
            decreases m,
        {
            let go = match self.peek_temp() {
                Some(t) => t <= val,
                None => false,
            };
            if !go {
                break ;
            }
            let t2 = self.pop_temp().unwrap();
            self.push(t2);
            proof {
                m = m - 1;
                assert(self.temp_view() =~= bigt.take(m));
                assert(self.list_view() =~= bigl + bigt.subrange(m, bigt.len() as int).reverse());
            }
        }

        proof {
            assert(non_increasing(bigt.take(m)));
            lemma_push_keeps_non_increasing(bigt.take(m), val);
        }
        self.push_temp(val);

        let ghost bigd = bigt.subrange(m, bigt.len() as int).reverse();
        let ghost k = bigd.len() as int;
        let ghost tbase = self.temp_view();
        let ghost mut j: int = 0;

        proof {
            assert(self.list_view() =~= bigl + bigd.take(k - j));
            assert(forall|i: int| 0 <= i < k ==> bigd[i] <= val);
            assert(non_decreasing(bigd));
            // The contents of the two stacks together are what they were,
            // plus the value just slotted in.
            assert(bigt =~= bigt.take(m) + bigt.subrange(m, bigt.len() as int));
            assert((bigt.take(m) + bigt.subrange(m, bigt.len() as int)).to_multiset()
                == bigt.take(m).to_multiset().add(
                bigt.subrange(m, bigt.len() as int).to_multiset()));
            bigt.subrange(m, bigt.len() as int).lemma_reverse_to_multiset();
            assert(self.list_view().to_multiset().add(self.temp_view().to_multiset())
                =~= total1);
        }

        // Pull elements back while each is no larger than the scratch top:
        // this recovers everything just poured off (it lies on the primary
        // stack in ascending order, each element at most the value) and may
        // carry a few more ordered elements along with it.
        loop
            invariant
                0 <= j,
                k == bigd.len(),
                non_decreasing(bigd),
                forall|i: int| 0 <= i < k ==> bigd[i] <= val,
                tbase.len() > 0,
                tbase.last() == val,
                self.list_view().len() + j == bigl.len() + k,
                non_increasing(self.temp_view()),
                self.list_view().to_multiset().add(self.temp_view().to_multiset()) == total1,
                j < k ==> self.list_view() == bigl + bigd.take(k - j),
                j < k ==> self.temp_view() == tbase + bigd.subrange(k - j, k).reverse(),
                j == 0 ==> self.temp_view() == tbase,
            ensures
                self.list_view().len() <= bigl.len(),
                non_increasing(self.temp_view()),
                self.list_view().to_multiset().add(self.temp_view().to_multiset()) == total1,
            decreases self.list_view().len(),
        {
            let go = match self.peek() {
                Some(x) => match self.peek_temp() {
                    Some(t) => x <= t,
                    None => false,
                },
                None => false,
            };
            if !go {
                proof {
                    if j < k {
                        // The next element waiting on the primary stack is
                        // one of those just poured off, and it is no larger
                        // than the scratch top, so the pull cannot stop here.
                        assert(self.list_view().last() == bigd[k - j - 1]);
                        if j == 0 {
                            assert(self.temp_view().last() == val);
                        } else {
                            assert(self.temp_view().last() == bigd[k - j]);
                        }
                        assert(false);
                    }
                }
                break ;
            }
            proof {
                lemma_stack_transfer(self.list_view(), self.temp_view());
                lemma_push_keeps_non_increasing(self.temp_view(), self.list_view().last());
            }
            let x = self.pop().unwrap();
            self.push_temp(x);
            proof {
                j = j + 1;
                if j < k {
                    assert(self.list_view() =~= bigl + bigd.take(k - j));
                    assert(self.temp_view() =~= tbase + bigd.subrange(k - j, k).reverse());
                }
            }
        }
    }
}

} // verus!
