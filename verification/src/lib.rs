//! In-place rotation of contiguous sequences.
//!
//! The crate provides one primitive: rotate the elements of a mutable,
//! contiguous, fixed-length sequence in place, without allocating a buffer
//! proportional to the sequence length.  A dispatcher picks between three
//! data-movement strategies (cycle-following, a small auxiliary buffer, and
//! block swapping) based on the split point and the element size; all of
//! them realize the same permutation, stated by `model::rotate_left_seq`.

use vstd::prelude::*;

mod blocks;
mod buffer;
mod cycle;
pub mod cycles;
pub mod dispatch;
pub mod model;

use crate::dispatch::ptr_rotate_opt_for_size;
use crate::model::{rotate_left_seq, rotate_right_seq};

verus! {

/// Rotate `v` left by `mid` in place: the element at index `(i + mid) % len`
/// of the input ends at index `i`.  Tuned for code size: the dispatcher is
/// pinned to the cycle-following strategy.
pub fn left_size<T: Copy>(v: &mut Vec<T>, mid: usize)
    requires
        mid <= old(v)@.len(),
    ensures
        final(v)@ == rotate_left_seq(old(v)@, mid as int),
{
    let k = v.len() - mid;
    ptr_rotate_opt_for_size(v, mid, mid, k, true);
    proof {
        assert(v@.subrange(0, v@.len() as int) =~= v@);
        assert(old(v)@.subrange(0, old(v)@.len() as int) =~= old(v)@);
    }
}

/// Rotate `v` right by `k` in place: the element at index `i` of the input
/// ends at index `(i + k) % len`.  Tuned for code size: the dispatcher is
/// pinned to the cycle-following strategy.
pub fn right_size<T: Copy>(v: &mut Vec<T>, k: usize)
    requires
        k <= old(v)@.len(),
    ensures
        final(v)@ == rotate_right_seq(old(v)@, k as int),
{
    let mid = v.len() - k;
    ptr_rotate_opt_for_size(v, mid, mid, k, true);
    proof {
        assert(v@.subrange(0, v@.len() as int) =~= v@);
        assert(old(v)@.subrange(0, old(v)@.len() as int) =~= old(v)@);
    }
}

/// The reference left rotation: build the rotated sequence by copying and
/// write it back.  It is deliberately naive, so differential tests can hold
/// the in-place strategies against an independent baseline.
pub fn status_quo_left<T: Copy>(v: &mut Vec<T>, mid: usize)
    requires
        mid <= old(v)@.len(),
    ensures
        final(v)@ == rotate_left_seq(old(v)@, mid as int),
{
    let n = v.len();
    let mut out: Vec<T> = Vec::new();
    let mut t = mid;
    while t < n
        invariant
            mid <= t <= n,
            n == v@.len(),
            v@ == old(v)@,
            out@.len() == t - mid,
            forall|j: int| 0 <= j < t - mid ==> #[trigger] out@[j] == old(v)@[mid + j],
        decreases n - t,
    {
        let x = v[t];
        out.push(x);
        t += 1;
    }
    let mut t: usize = 0;
    while t < mid
        invariant
            t <= mid,
            mid <= n,
            n == v@.len(),
            v@ == old(v)@,
            out@.len() == (n - mid) + t,
            forall|j: int| 0 <= j < n - mid ==> #[trigger] out@[j] == old(v)@[mid + j],
            forall|j: int|
                n - mid <= j < (n - mid) + t ==> #[trigger] out@[j] == old(v)@[j - (n - mid)],
        decreases mid - t,
    {
        let x = v[t];
        out.push(x);
        t += 1;
    }
    let mut t: usize = 0;
    while t < n
        invariant
            t <= n,
            mid <= n,
            n == v@.len(),
            v@.len() == old(v)@.len(),
            out@.len() == n,
            forall|j: int| 0 <= j < n - mid ==> #[trigger] out@[j] == old(v)@[mid + j],
            forall|j: int| n - mid <= j < n ==> #[trigger] out@[j] == old(v)@[j - (n - mid)],
            forall|j: int| 0 <= j < t ==> #[trigger] v@[j] == out@[j],
            forall|j: int| t <= j < n ==> #[trigger] v@[j] == old(v)@[j],
        decreases n - t,
    {
        let x = out[t];
        v[t] = x;
        t += 1;
    }
    proof {
        assert(v@ =~= rotate_left_seq(old(v)@, mid as int));
    }
}

/// The reference right rotation: right rotation by `k` is left rotation by
/// `len - k`.
pub fn status_quo_right<T: Copy>(v: &mut Vec<T>, k: usize)
    requires
        k <= old(v)@.len(),
    ensures
        final(v)@ == rotate_right_seq(old(v)@, k as int),
{
    let mid = v.len() - k;
    status_quo_left(v, mid);
}

} // verus!
