//! The element-wise exchange of two equal-length, non-overlapping blocks:
//! one round of the block-swap strategy.

use vstd::prelude::*;

verus! {

/// Exchange `v[a + j]` and `v[b + j]` for all `j < k`.  The two blocks
/// `[a, a + k)` and `[b, b + k)` must not overlap; everything outside them
/// is untouched.
pub(crate) fn swap_ranges<T: Copy>(v: &mut Vec<T>, a: usize, b: usize, k: usize)
    requires
        a + k <= b,
        b + k <= old(v)@.len(),
    ensures
        final(v)@.len() == old(v)@.len(),
        forall|i: int|
            0 <= i < old(v)@.len() && !(a <= i < a + k) && !(b <= i < b + k)
                ==> final(v)@[i] == old(v)@[i],
        forall|i: int| a <= i < a + k ==> #[trigger] final(v)@[i] == old(v)@[i - a + b],
        forall|i: int| b <= i < b + k ==> #[trigger] final(v)@[i] == old(v)@[i - b + a],
{
    let n = v.len();
    let mut t: usize = 0;
    while t < k
        invariant
            t <= k,
            a + k <= b,
            b + k <= n,
            n == v@.len(),
            v@.len() == old(v)@.len(),
            forall|i: int|
                0 <= i < v@.len() && !(a <= i < a + k) && !(b <= i < b + k)
                    ==> v@[i] == old(v)@[i],
            forall|i: int| a <= i < a + t ==> #[trigger] v@[i] == old(v)@[i - a + b],
            forall|i: int| b <= i < b + t ==> #[trigger] v@[i] == old(v)@[i - b + a],
            forall|i: int| a + t <= i < a + k ==> #[trigger] v@[i] == old(v)@[i],
            forall|i: int| b + t <= i < b + k ==> #[trigger] v@[i] == old(v)@[i],
        decreases k - t,
    {
        let x = v[a + t];
        let y = v[b + t];
        v[a + t] = y;
        v[b + t] = x;
        t += 1;
    }
}

} // verus!
