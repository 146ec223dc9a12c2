//! The auxiliary-buffer strategy: copy the smaller extent into a scratch
//! area, shift the larger extent over it, and write the scratch contents
//! into the vacated space.  It resolves the rotation in one pass.
//!
//! The dispatcher only selects this strategy when the smaller extent fits
//! the scratch capacity, so the scratch space stays bounded by a constant
//! independent of the sequence length.

use vstd::prelude::*;
use vstd::arithmetic::div_mod::{lemma_small_mod, lemma_mod_add_multiples_vanish};
use crate::model::{region_rotated, lemma_region_rotated_from_pointwise};

verus! {

/// Rotate the region `[mid - left, mid + right)` of `v` left by `left`,
/// through a scratch vector holding the smaller extent.
pub(crate) fn buffer_rotate<T: Copy>(v: &mut Vec<T>, left: usize, mid: usize, right: usize)
    requires
        1 <= left <= mid,
        mid + right <= old(v)@.len(),
        1 <= right,
    ensures
        region_rotated(old(v)@, final(v)@, mid - left, mid as int, mid + right),
{
    let vlen = v.len();
    let lo = mid - left;
    let hi = mid + right;
    let mut buf: Vec<T> = Vec::new();
    if left <= right {
        // copy the left extent into the scratch area
        let mut t: usize = 0;
        while t < left
            invariant
                t <= left,
                lo + left == mid,
                mid + right == hi,
                hi <= vlen,
                vlen == v@.len(),
                v@ == old(v)@,
                buf@.len() == t,
                forall|j: int| 0 <= j < t ==> #[trigger] buf@[j] == old(v)@[lo + j],
            decreases left - t,
        {
            buf.push(v[lo + t]);
            t += 1;
        }
        // shift the right extent down by `left`; running upward is safe
        // because every element is read before its slot can be overwritten
        let mut t: usize = 0;
        while t < right
            invariant
                t <= right,
                1 <= left <= right,
                lo + left == mid,
                mid + right == hi,
                hi <= vlen,
                vlen == v@.len(),
                v@.len() == old(v)@.len(),
                buf@.len() == left,
                forall|j: int| 0 <= j < left ==> #[trigger] buf@[j] == old(v)@[lo + j],
                forall|i: int|
                    0 <= i < v@.len() && !(lo <= i < lo + t) ==> v@[i] == old(v)@[i],
                forall|i: int| lo <= i < lo + t ==> #[trigger] v@[i] == old(v)@[i + left],
            decreases right - t,
        {
            let x = v[mid + t];
            v[lo + t] = x;
            t += 1;
        }
        // copy the scratch area into the vacated tail
        let mut t: usize = 0;
        while t < left
            invariant
                t <= left,
                1 <= left <= right,
                lo + left == mid,
                mid + right == hi,
                hi <= vlen,
                vlen == v@.len(),
                v@.len() == old(v)@.len(),
                buf@.len() == left,
                forall|j: int| 0 <= j < left ==> #[trigger] buf@[j] == old(v)@[lo + j],
                forall|i: int|
                    0 <= i < v@.len() && !(lo <= i < lo + right + t) ==> v@[i] == old(v)@[i],
                forall|i: int| lo <= i < lo + right ==> #[trigger] v@[i] == old(v)@[i + left],
                forall|i: int|
                    lo + right <= i < lo + right + t ==> #[trigger] v@[i] == old(v)@[i - right],
            decreases left - t,
        {
            let x = buf[t];
            v[lo + right + t] = x;
            t += 1;
        }
    } else {
        // copy the right extent into the scratch area
        let mut t: usize = 0;
        while t < right
            invariant
                t <= right,
                lo + left == mid,
                mid + right == hi,
                hi <= vlen,
                vlen == v@.len(),
                v@ == old(v)@,
                buf@.len() == t,
                forall|j: int| 0 <= j < t ==> #[trigger] buf@[j] == old(v)@[mid + j],
            decreases right - t,
        {
            buf.push(v[mid + t]);
            t += 1;
        }
        // shift the left extent up by `right`, back to front, so every
        // element is read before its slot can be overwritten
        let mut t: usize = left;
        while t > 0
            invariant
                t <= left,
                1 <= right < left,
                lo + left == mid,
                mid + right == hi,
                hi <= vlen,
                vlen == v@.len(),
                v@.len() == old(v)@.len(),
                buf@.len() == right,
                forall|j: int| 0 <= j < right ==> #[trigger] buf@[j] == old(v)@[mid + j],
                forall|i: int|
                    0 <= i < v@.len() && !(lo + right + t <= i < hi) ==> v@[i] == old(v)@[i],
                forall|i: int|
                    lo + right + t <= i < hi ==> #[trigger] v@[i] == old(v)@[i - right],
            decreases t,
        {
            t -= 1;
            let x = v[lo + t];
            v[lo + right + t] = x;
        }
        // copy the scratch area into the vacated head
        let mut t: usize = 0;
        while t < right
            invariant
                t <= right,
                1 <= right < left,
                lo + left == mid,
                mid + right == hi,
                hi <= vlen,
                vlen == v@.len(),
                v@.len() == old(v)@.len(),
                buf@.len() == right,
                forall|j: int| 0 <= j < right ==> #[trigger] buf@[j] == old(v)@[mid + j],
                forall|i: int|
                    0 <= i < v@.len() && !(lo <= i < lo + t) && !(lo + right <= i < hi)
                        ==> v@[i] == old(v)@[i],
                forall|i: int| lo + right <= i < hi ==> #[trigger] v@[i] == old(v)@[i - right],
                forall|i: int| lo <= i < lo + t ==> #[trigger] v@[i] == old(v)@[i + left],
            decreases right - t,
        {
            let x = buf[t];
            v[lo + t] = x;
            t += 1;
        }
    }
    proof {
        let n = (left + right) as int;
        let lo_i = lo as int;
        let hi_i = hi as int;
        assert forall|p: int|
            lo_i <= p < hi_i implies #[trigger] v@[p] == old(v)@[lo_i + ((p - lo_i + left)
            % n)] by {
            if p - lo_i + left < n {
                lemma_small_mod((p - lo_i + left) as nat, n as nat);
            } else {
                lemma_mod_add_multiples_vanish(p - lo_i + left - n, n);
                lemma_small_mod((p - lo_i + left - n) as nat, n as nat);
            }
        }
        lemma_region_rotated_from_pointwise(old(v)@, v@, lo_i, mid as int, hi_i);
    }
}

} // verus!
