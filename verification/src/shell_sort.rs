//! In-place shell sort over a vector of bytes.

use vstd::prelude::*;
use crate::insertion_sort;

verus! {

broadcast use
    vstd::seq_lib::group_to_multiset_ensures,
    vstd::multiset::group_multiset_axioms;

/// Exchanging two positions of a sequence leaves its contents unchanged.
proof fn lemma_swap_multiset(s: Seq<u8>, a: int, b: int)
    requires
        0 <= a < b < s.len(),
    ensures
        s.update(a, s[b]).update(b, s[a]).to_multiset() == s.to_multiset(),
{
    let s1 = s.update(a, s[b]);
    let s2 = s1.update(b, s[a]);
    assert(s.contains(s[a]));
    assert(s1[b as int] == s[b]);
    assert(s1.contains(s[b]));
    assert(s1 =~= s.remove(a).insert(a, s[b]));
    assert(s2 =~= s1.remove(b).insert(b, s[a]));
    assert(s.remove(a).to_multiset() == s.to_multiset().remove(s[a]));
    assert(s.remove(a).insert(a, s[b]).to_multiset()
        == s.remove(a).to_multiset().insert(s[b]));
    assert(s1.remove(b).to_multiset() == s1.to_multiset().remove(s1[b]));
    assert(s1.remove(b).insert(b, s[a]).to_multiset()
        == s1.remove(b).to_multiset().insert(s[a]));
    assert(s2.to_multiset() =~= s.to_multiset());
}

/// Sort the vector in place into non-decreasing order; the result holds
/// exactly the elements it started with.
///
/// A gap starts at the vector's length and is halved (never below one)
/// each round; each round makes a single compare-and-swap pass between
/// positions a gap apart.  The gapped passes alone do not guarantee full
/// ordering for every gap sequence, so a finishing insertion-sort pass
/// makes the result correct regardless — a deliberate trade of theoretical
/// optimality for simplicity.
pub fn sort(input: &mut Vec<u8>)
    ensures
        insertion_sort::sorted(final(input)@),
        final(input)@.to_multiset() == old(input)@.to_multiset(),
{
    let ghost ms0 = input@.to_multiset();
    let len = input.len();
    let mut gap = len;

    while gap != 1
        invariant
            input@.len() == len,
            input@.to_multiset() == ms0,
        decreases (if gap == 0 {
            2int
        } else {
            gap as int
        }),
    {
        gap = if gap / 2 > 1 {
            gap / 2
        } else {
            1
        };

        let mut index = gap;
        while index < len
            invariant
                1 <= gap <= index,
                input@.len() == len,
                input@.to_multiset() == ms0,
            decreases len - index,
        {
            // Compare the pair a gap apart and swap it into order.
            let a = index - gap;
            let b = index;
            if input[a] > input[b] {
                let ghost s0 = input@;
                let va = input[a];
                let vb = input[b];
                input.set(a, vb);
                input.set(b, va);
                proof {
                    lemma_swap_multiset(s0, a as int, b as int);
                }
            }
            index = index + 1;
        }
    }

    // The gapped passes have only rearranged the elements; this pass
    // establishes the ordering.
    insertion_sort::sort(input);
}

} // verus!
