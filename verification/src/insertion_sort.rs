//! In-place insertion sort over a vector of bytes.

use vstd::prelude::*;

verus! {

broadcast use vstd::seq_lib::group_to_multiset_ensures;

/// The sequence is in non-decreasing order.
pub open spec fn sorted(s: Seq<u8>) -> bool {
    forall|i: int, j: int| 0 <= i <= j < s.len() ==> s[i] <= s[j]
}

/// A sorted arrangement of given contents is unique: two sequences in
/// non-decreasing order holding the same elements are equal.
///
/// Together with the contract of `sort` this makes sorting idempotent:
/// sorting an already sorted vector leaves it unchanged, and sorting twice
/// gives what sorting once gives.
pub proof fn lemma_sorted_unique(a: Seq<u8>, b: Seq<u8>)
    requires
        sorted(a),
        sorted(b),
        a.to_multiset() == b.to_multiset(),
    ensures
        a == b,
    decreases a.len(),
{
    assert(a.to_multiset().len() == a.len());
    assert(b.to_multiset().len() == b.len());
    if a.len() == 0 {
        assert(a =~= b);
    } else {
        assert(b.len() == a.len());
        // The last element of each is its maximum, and a shared maximum of
        // shared contents is the same value.
        assert(a.contains(a.last()));
        assert(b.to_multiset().contains(a.last()));
        assert(b.contains(a.last()));
        assert(a.to_multiset().contains(b.last()));
        assert(a.contains(b.last()));
        let ia = choose|i: int| 0 <= i < a.len() && a[i] == b.last();
        let ib = choose|i: int| 0 <= i < b.len() && b[i] == a.last();
        assert(a.last() <= b[ib] <= b.last());
        assert(b.last() <= a[ia] <= a.last());
        assert(a.last() == b.last());
        // Strip the shared maximum and recurse on what is below it.
        assert(a.drop_last() =~= a.remove(a.len() - 1));
        assert(b.drop_last() =~= b.remove(b.len() - 1));
        assert(a.drop_last().to_multiset() == b.drop_last().to_multiset());
        assert forall|i: int, j: int|
            0 <= i <= j < a.drop_last().len() implies a.drop_last()[i] <= a.drop_last()[j] by {
            assert(a[i] <= a[j]);
        }
        assert forall|i: int, j: int|
            0 <= i <= j < b.drop_last().len() implies b.drop_last()[i] <= b.drop_last()[j] by {
            assert(b[i] <= b[j]);
        }
        lemma_sorted_unique(a.drop_last(), b.drop_last());
        assert forall|i: int| 0 <= i < a.len() implies a[i] == b[i] by {
            if i < a.len() - 1 {
                assert(a.drop_last()[i] == b.drop_last()[i]);
            } else {
                assert(a[i] == a.last());
            }
        }
        assert(a =~= b);
    }
}

/// Sort the vector in place into non-decreasing order; the result holds
/// exactly the elements it started with.
///
/// For each position, the element there is moved back over the maximal run
/// of strictly greater elements just before it, which keeps equal elements
/// in their original order.  Quadratic in the worst case, linear when the
/// input is already sorted.
pub fn sort(input: &mut Vec<u8>)
    ensures
        sorted(final(input)@),
        final(input)@.to_multiset() == old(input)@.to_multiset(),
{
    let ghost ms0 = input@.to_multiset();
    let n = input.len();

    for outer in 0..n
        invariant
            input@.len() == n,
            input@.to_multiset() == ms0,
            forall|x: int, y: int| 0 <= x <= y < outer ==> input@[x] <= input@[y],
    {
        // Scan backward for the furthest position `to` such that everything
        // in [to, outer) is strictly greater than the element at `outer`.
        let mut to: usize = outer;
        let from: usize = outer;
        let mut inner: usize = outer;

        while inner > 0
            invariant_except_break
                inner <= outer,
                outer < n,
                input@.len() == n,
                to == (if inner < outer {
                    inner
                } else {
                    outer
                }),
                forall|t: int| inner <= t < outer ==> input@[t] > input@[outer as int],
            ensures
                to <= outer,
                outer < n,
                input@.len() == n,
                forall|t: int| to <= t < outer ==> input@[t] > input@[outer as int],
                to > 0 ==> input@[to - 1] <= input@[outer as int],
            decreases inner,
        {
            inner = inner - 1;
            if input[inner] > input[outer] {
                to = inner;
            } else {
                break ;
            }
        }

        if to != from {
            let ghost s1 = input@;
            let ghost v0 = input@[outer as int];

            // Move the element back to position `to`, shifting the run of
            // greater elements one step up.
            let val = input.remove(from);
            input.insert(to, val);

            proof {
                assert(s1[from as int] == v0);
                assert(s1.contains(v0));
                assert(s1.remove(from as int).to_multiset() == s1.to_multiset().remove(v0));
                assert(input@.to_multiset() == s1.remove(from as int).to_multiset().insert(v0));
                assert(input@.to_multiset() =~= s1.to_multiset());

                assert forall|i: int| 0 <= i <= from as int implies input@[i] == (if i < to {
                    s1[i]
                } else if i == to {
                    v0
                } else {
                    s1[i - 1]
                }) by {}

                assert forall|x: int, y: int|
                    0 <= x <= y < outer + 1 implies input@[x] <= input@[y] by {
                    if y > to && x < to {
                        assert(s1[x] <= s1[y - 1]);
                    } else if y > to && x > to {
                        assert(s1[x - 1] <= s1[y - 1]);
                    } else if y == to && x < to {
                        assert(s1[x] <= s1[to - 1]);
                    }
                }
            }
        } else {
            proof {
                assert forall|x: int, y: int|
                    0 <= x <= y < outer + 1 implies input@[x] <= input@[y] by {
                    if y == outer && x < outer && to > 0 && x < to - 1 {
                        assert(input@[x] <= input@[to - 1]);
                    }
                }
            }
        }
    }

    proof {
        assert(sorted(input@));
    }
}

} // verus!
