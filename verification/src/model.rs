//! The mathematical model of rotation.
//!
//! A left rotation by `k` of a sequence of length `n` sends the element at
//! position `(i + k) % n` of the input to position `i` of the output.  The
//! executable strategies all promise exactly this permutation, stated through
//! the spec functions below.

use vstd::prelude::*;
use vstd::arithmetic::div_mod::{
    lemma_small_mod, lemma_mod_add_multiples_vanish, lemma_add_mod_noop,
};

verus! {

/// Left rotation by `k`: the right extent `s[k..]` followed by the left
/// extent `s[..k]`.
pub open spec fn rotate_left_seq<T>(s: Seq<T>, k: int) -> Seq<T>
    recommends
        0 <= k <= s.len(),
{
    s.subrange(k, s.len() as int) + s.subrange(0, k)
}

/// Right rotation by `k` is left rotation by `len - k`.
pub open spec fn rotate_right_seq<T>(s: Seq<T>, k: int) -> Seq<T>
    recommends
        0 <= k <= s.len(),
{
    rotate_left_seq(s, s.len() - k)
}

/// `post` is the left rotation of `pre` by `k`, stated pointwise.
pub open spec fn is_left_rotation<T>(pre: Seq<T>, post: Seq<T>, k: int) -> bool {
    &&& post.len() == pre.len()
    &&& forall|i: int|
        0 <= i < pre.len() ==> post[i] == pre[(i + k) % (pre.len() as int)]
}

/// The contract every strategy meets on a region `[lo, hi)` of a vector,
/// split at `m`: the region now holds its own left rotation by `m - lo`,
/// and everything outside the region is unchanged.
pub open spec fn region_rotated<T>(pre: Seq<T>, post: Seq<T>, lo: int, m: int, hi: int) -> bool {
    &&& post.len() == pre.len()
    &&& (forall|i: int| 0 <= i < pre.len() && !(lo <= i < hi) ==> post[i] == pre[i])
    &&& post.subrange(lo, hi) == rotate_left_seq(pre.subrange(lo, hi), m - lo)
}

/// Pointwise characterization implies the subrange form of `region_rotated`.
pub proof fn lemma_region_rotated_from_pointwise<T>(
    pre: Seq<T>,
    post: Seq<T>,
    lo: int,
    m: int,
    hi: int,
)
    requires
        pre.len() == post.len(),
        0 <= lo <= m <= hi <= pre.len(),
        lo < hi,
        forall|i: int| 0 <= i < pre.len() && !(lo <= i < hi) ==> post[i] == pre[i],
        forall|p: int|
            lo <= p < hi ==> #[trigger] post[p] == pre[lo + ((p - lo + m - lo) % (hi - lo))],
    ensures
        region_rotated(pre, post, lo, m, hi),
{
    let sub_pre = pre.subrange(lo, hi);
    let sub_post = post.subrange(lo, hi);
    lemma_rotate_left_pointwise(sub_pre, m - lo);
    assert forall|p: int| 0 <= p < hi - lo implies sub_post[p] == rotate_left_seq(
        sub_pre,
        m - lo,
    )[p] by {
        assert(sub_post[p] == post[lo + p]);
        assert(rotate_left_seq(sub_pre, m - lo)[p] == sub_pre[(p + (m - lo)) % (hi - lo)]);
    }
    assert(sub_post =~= rotate_left_seq(sub_pre, m - lo));
}

/// Permutation correctness, left form: position `i` of the rotated sequence
/// holds the element from position `(i + mid) % n` of the input.
pub proof fn lemma_rotate_left_pointwise<T>(s: Seq<T>, k: int)
    requires
        0 <= k <= s.len(),
    ensures
        rotate_left_seq(s, k).len() == s.len(),
        is_left_rotation(s, rotate_left_seq(s, k), k),
{
    let n = s.len() as int;
    assert forall|i: int| 0 <= i < n implies rotate_left_seq(s, k)[i] == s[(i + k) % n] by {
        if i + k < n {
            lemma_small_mod((i + k) as nat, n as nat);
        } else {
            lemma_mod_add_multiples_vanish(i + k - n, n);
            lemma_small_mod((i + k - n) as nat, n as nat);
        }
    }
}

/// Permutation correctness, right form: position `i` of the right-rotated
/// sequence holds the element from position `(i - k) mod n` of the input,
/// written with the non-negative representative `i + n - k`.
pub proof fn lemma_rotate_right_pointwise<T>(s: Seq<T>, k: int)
    requires
        0 <= k <= s.len(),
    ensures
        rotate_right_seq(s, k).len() == s.len(),
        forall|i: int|
            0 <= i < s.len()
                ==> rotate_right_seq(s, k)[i] == s[(i + s.len() - k) % (s.len() as int)],
{
    lemma_rotate_left_pointwise(s, s.len() - k);
}

/// Rotating a concatenation left by the first part's length swaps the two
/// parts: the algebraic heart of the block-swap strategy.
pub proof fn lemma_rotate_concat<T>(a: Seq<T>, b: Seq<T>)
    ensures
        rotate_left_seq(a + b, a.len() as int) == b + a,
{
    assert(rotate_left_seq(a + b, a.len() as int) =~= b + a);
}

/// A sequence admits exactly one left rotation by `k`: any two sequences
/// satisfying the pointwise rotation relation for the same input and split
/// are equal.  Every strategy promises this relation, so all strategies
/// agree on every input.
pub proof fn lemma_rotation_result_unique<T>(pre: Seq<T>, a: Seq<T>, b: Seq<T>, k: int)
    requires
        is_left_rotation(pre, a, k),
        is_left_rotation(pre, b, k),
    ensures
        a == b,
{
    assert(a =~= b);
}

/// Cross-strategy equivalence, region form: every strategy promises
/// `region_rotated`, and any two sequences meeting that contract for the
/// same input region are identical, so the dispatcher's choice never shows
/// in the result.
pub proof fn lemma_region_rotated_unique<T>(
    pre: Seq<T>,
    a: Seq<T>,
    b: Seq<T>,
    lo: int,
    m: int,
    hi: int,
)
    requires
        0 <= lo <= m <= hi <= pre.len(),
        region_rotated(pre, a, lo, m, hi),
        region_rotated(pre, b, lo, m, hi),
    ensures
        a == b,
{
    assert forall|i: int| 0 <= i < a.len() implies a[i] == b[i] by {
        if lo <= i < hi {
            assert(a[i] == a.subrange(lo, hi)[i - lo]);
            assert(b[i] == b.subrange(lo, hi)[i - lo]);
        }
    }
    assert(a =~= b);
}

/// Rotation by `0` and rotation by the full length are both the identity;
/// with `s` empty both split points coincide and the result is empty.
pub proof fn lemma_rotate_identity<T>(s: Seq<T>)
    ensures
        rotate_left_seq(s, 0) == s,
        rotate_left_seq(s, s.len() as int) == s,
        rotate_right_seq(s, 0) == s,
        rotate_right_seq(s, s.len() as int) == s,
{
    assert(rotate_left_seq(s, 0) =~= s);
    assert(rotate_left_seq(s, s.len() as int) =~= s);
}

/// Inverse law: left-rotating by `k` and then by `n - k` restores the
/// original sequence.
pub proof fn lemma_rotate_left_inverse<T>(s: Seq<T>, k: int)
    requires
        0 <= k <= s.len(),
    ensures
        rotate_left_seq(rotate_left_seq(s, k), s.len() - k) == s,
{
    let n = s.len() as int;
    let a = rotate_left_seq(s, k);
    let b = rotate_left_seq(a, n - k);
    if k == n {
        lemma_rotate_identity(s);
        lemma_rotate_identity(a);
    } else {
        lemma_rotate_left_pointwise(s, k);
        lemma_rotate_left_pointwise(a, n - k);
        assert forall|i: int| 0 <= i < n implies b[i] == s[i] by {
            let j = (i + (n - k)) % n;
            assert(b[i] == a[j]);
            assert(a[j] == s[(j + k) % n]);
            lemma_add_mod_noop(i + n - k, k, n);
            lemma_small_mod(k as nat, n as nat);
            assert((j + k) % n == (i + n) % n);
            lemma_mod_add_multiples_vanish(i, n);
            lemma_small_mod(i as nat, n as nat);
        }
        assert(b =~= s);
    }
}

} // verus!
