//! The rotation dispatcher: a pure selection policy picks one of three
//! data-movement strategies per iteration, and the dispatcher loops until a
//! strategy reduces the problem to the trivial case.

use vstd::prelude::*;
use vstd::layout::size_of;
use crate::blocks::swap_ranges;
use crate::buffer::buffer_rotate;
use crate::cycle::cycle_rotate;
use crate::model::{
    region_rotated, rotate_left_seq, lemma_rotate_concat, lemma_rotate_identity,
};

verus! {

/// Below this total region length the cycle-following strategy wins on
/// average; a tunable threshold, not a correctness constant.
pub const SMALL_TOTAL_CUTOFF: usize = 24;

/// What the dispatcher decides to do with the current `(left, right)` split.
#[derive(Clone, Copy, PartialEq, Eq, Structural, Debug)]
pub enum Strategy {
    /// One extent is empty: the rotation is complete.
    Finished,
    /// Follow the permutation cycles with a single temporary slot.
    Cycle,
    /// Move the smaller extent through a bounded scratch area.
    Buffer,
    /// Swap the trailing block of the longer left extent against the right
    /// extent, shrinking the left extent.
    BlockLeft,
    /// Swap the left extent against the leading block of the longer right
    /// extent, shrinking the right extent.
    BlockRight,
}

/// How many elements of `T` fit in the scratch area of the buffer strategy.
/// A zero-sized element always fits.
pub open spec fn spec_scratch_capacity<T>() -> int {
    if size_of::<T>() == 0 {
        usize::MAX as int
    } else {
        (size_of::<[usize; 32]>() / size_of::<T>()) as int
    }
}

/// The selection policy of the dispatcher, as a pure function of the two
/// extent lengths, the element size and the configuration.  `force_cycle`
/// pins every non-trivial split to the cycle-following strategy, a
/// specialization that favors code size over throughput.
pub open spec fn spec_choose_strategy<T>(left: int, right: int, force_cycle: bool) -> Strategy {
    if left == 0 || right == 0 {
        Strategy::Finished
    } else if force_cycle {
        Strategy::Cycle
    } else if left + right < SMALL_TOTAL_CUTOFF || size_of::<T>() > size_of::<[usize; 4]>() {
        Strategy::Cycle
    } else if (if left <= right {
        left
    } else {
        right
    }) <= spec_scratch_capacity::<T>() {
        Strategy::Buffer
    } else if left >= right {
        Strategy::BlockLeft
    } else {
        Strategy::BlockRight
    }
}

/// The executable selection policy; it returns exactly what the spec-level
/// policy says for the same inputs.
pub fn choose_strategy<T>(left: usize, right: usize, force_cycle: bool) -> (s: Strategy)
    requires
        left + right <= usize::MAX,
    ensures
        s == spec_choose_strategy::<T>(left as int, right as int, force_cycle),
{
    if left == 0 || right == 0 {
        Strategy::Finished
    } else if force_cycle {
        Strategy::Cycle
    } else if left + right < SMALL_TOTAL_CUTOFF
        || core::mem::size_of::<T>() > core::mem::size_of::<[usize; 4]>() {
        Strategy::Cycle
    } else {
        let es = core::mem::size_of::<T>();
        let cap = if es == 0 {
            usize::MAX
        } else {
            core::mem::size_of::<[usize; 32]>() / es
        };
        let smaller = if left <= right {
            left
        } else {
            right
        };
        if smaller <= cap {
            Strategy::Buffer
        } else if left >= right {
            Strategy::BlockLeft
        } else {
            Strategy::BlockRight
        }
    }
}

/// Rotate the region `[mid - left, mid + right)` of `v` in place, so that
/// its left extent (the `left` elements before `mid`) and its right extent
/// (the `right` elements from `mid` on) exchange positions.  Everything
/// outside the region is untouched.  With `force_cycle` the dispatcher uses
/// the cycle-following strategy for every non-trivial split.
#[verifier::rlimit(100)]
pub fn ptr_rotate_opt_for_size<T: Copy>(
    v: &mut Vec<T>,
    left: usize,
    mid: usize,
    right: usize,
    force_cycle: bool,
)
    requires
        left <= mid,
        mid + right <= old(v)@.len(),
    ensures
        region_rotated(old(v)@, final(v)@, mid - left, mid as int, mid + right),
{
    let vlen = v.len();
    let ghost lo0 = mid - left;
    let ghost hi0 = mid + right;
    let ghost target = rotate_left_seq(old(v)@.subrange(lo0, hi0), left as int);
    let mut cl = left;
    let mut cm = mid;
    let mut cr = right;
    proof {
        assert(v@.subrange(lo0, lo0) + rotate_left_seq(v@.subrange(lo0, hi0), left as int)
            + v@.subrange(hi0, hi0) =~= target);
    }
    loop
        invariant_except_break
            cl <= cm,
            cm + cr <= vlen,
            vlen == v@.len(),
            v@.len() == old(v)@.len(),
            lo0 == mid - left,
            hi0 == mid + right,
            0 <= lo0,
            hi0 <= vlen,
            lo0 <= cm - cl,
            cm + cr <= hi0,
            target == rotate_left_seq(old(v)@.subrange(lo0, hi0), left as int),
            target.len() == hi0 - lo0,
            forall|p: int| 0 <= p < v@.len() && !(lo0 <= p < hi0) ==> v@[p] == old(v)@[p],
            target == v@.subrange(lo0, cm - cl) + rotate_left_seq(
                v@.subrange(cm - cl, cm + cr),
                cl as int,
            ) + v@.subrange(cm + cr, hi0),
        ensures
            region_rotated(old(v)@, v@, mid - left, mid as int, mid + right),
        decreases cl + cr,
    {
        let strat = choose_strategy::<T>(cl, cr, force_cycle);
        match strat {
            Strategy::Finished => {
                proof {
                    let inner = v@.subrange(cm - cl, cm + cr);
                    lemma_rotate_identity(inner);
                    assert(v@.subrange(lo0, cm - cl) + inner + v@.subrange(cm + cr, hi0)
                        =~= v@.subrange(lo0, hi0));
                }
                break;
            },
            Strategy::Cycle => {
                let ghost w = v@;
                cycle_rotate(v, cl, cm, cr);
                proof {
                    assert(v@.subrange(lo0, cm - cl) =~= w.subrange(lo0, cm - cl));
                    assert(v@.subrange(cm + cr, hi0) =~= w.subrange(cm + cr, hi0));
                    assert(v@.subrange(lo0, cm - cl) + v@.subrange(cm - cl, cm + cr)
                        + v@.subrange(cm + cr, hi0) =~= v@.subrange(lo0, hi0));
                }
                break;
            },
            Strategy::Buffer => {
                let ghost w = v@;
                buffer_rotate(v, cl, cm, cr);
                proof {
                    assert(v@.subrange(lo0, cm - cl) =~= w.subrange(lo0, cm - cl));
                    assert(v@.subrange(cm + cr, hi0) =~= w.subrange(cm + cr, hi0));
                    assert(v@.subrange(lo0, cm - cl) + v@.subrange(cm - cl, cm + cr)
                        + v@.subrange(cm + cr, hi0) =~= v@.subrange(lo0, hi0));
                }
                break;
            },
            Strategy::BlockLeft => {
                let ghost w = v@;
                swap_ranges(v, cm - cr, cm, cr);
                proof {
                    let li = cl as int;
                    let ri = cr as int;
                    let mi = cm as int;
                    let l1 = w.subrange(mi - li, mi - ri);
                    let l2 = w.subrange(mi - ri, mi);
                    let rr = w.subrange(mi, mi + ri);
                    assert(v@.subrange(lo0, mi - li) =~= w.subrange(lo0, mi - li));
                    assert(v@.subrange(mi + ri, hi0) =~= w.subrange(mi + ri, hi0));
                    assert(v@.subrange(mi - li, mi) =~= l1 + rr);
                    assert(v@.subrange(mi, mi + ri) =~= l2);
                    assert(w.subrange(mi - li, mi + ri) =~= (l1 + l2) + rr);
                    lemma_rotate_concat(l1 + l2, rr);
                    lemma_rotate_concat(l1, rr);
                    assert(w.subrange(lo0, mi - li) + rotate_left_seq(
                        w.subrange(mi - li, mi + ri),
                        li,
                    ) + w.subrange(mi + ri, hi0) =~= w.subrange(lo0, mi - li) + rotate_left_seq(
                        l1 + rr,
                        li - ri,
                    ) + (l2 + w.subrange(mi + ri, hi0)));
                    assert(v@.subrange(mi, hi0) =~= l2 + w.subrange(mi + ri, hi0));
                }
                cm -= cr;
                cl -= cr;
            },
            Strategy::BlockRight => {
                let ghost w = v@;
                swap_ranges(v, cm - cl, cm, cl);
                proof {
                    let li = cl as int;
                    let ri = cr as int;
                    let mi = cm as int;
                    let ll = w.subrange(mi - li, mi);
                    let r1 = w.subrange(mi, mi + li);
                    let r2 = w.subrange(mi + li, mi + ri);
                    assert(v@.subrange(lo0, mi - li) =~= w.subrange(lo0, mi - li));
                    assert(v@.subrange(mi + ri, hi0) =~= w.subrange(mi + ri, hi0));
                    assert(v@.subrange(mi - li, mi) =~= r1);
                    assert(v@.subrange(mi, mi + ri) =~= ll + r2);
                    assert(w.subrange(mi - li, mi + ri) =~= ll + (r1 + r2));
                    lemma_rotate_concat(ll, r1 + r2);
                    lemma_rotate_concat(ll, r2);
                    assert(w.subrange(lo0, mi - li) + rotate_left_seq(
                        w.subrange(mi - li, mi + ri),
                        li,
                    ) + w.subrange(mi + ri, hi0) =~= (w.subrange(lo0, mi - li) + r1)
                        + rotate_left_seq(ll + r2, li) + w.subrange(mi + ri, hi0));
                    assert(v@.subrange(lo0, mi) =~= w.subrange(lo0, mi - li) + r1);
                }
                cm += cl;
                cr -= cl;
            },
        }
    }
}

} // verus!
