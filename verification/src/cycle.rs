//! The cycle-following strategy: perform the rotation as a permutation
//! decomposed into gcd(left + right, right) independent cycles, moving one
//! element at a time through a single temporary slot.
//!
//! The walk from a start offset `s` steps by `right` modulo `n`; the cycles
//! of starts `0, 1, ..., g - 1` partition the region into residue classes
//! modulo `g = gcd(n, right)` (see the `cycles` module), so every offset is
//! written exactly once.  The gcd itself falls out of the first cycle's
//! stepping pattern: it is the smallest nonzero offset that cycle reaches,
//! so tracking the smallest wrap-around offset costs one comparison per
//! step and saves a separate gcd pass.

use vstd::prelude::*;
use vstd::arithmetic::div_mod::{lemma_small_mod, lemma_mod_bound};
use crate::cycles::{
    gcd, walk, cycle_len, visited, lemma_gcd_parts, lemma_gcd_divides, lemma_walk_step,
    lemma_walk_congruence, lemma_walk_injective, lemma_walk_closes, lemma_walk_covers,
    lemma_walk_pred, lemma_walk_one,
};
use crate::model::{region_rotated, lemma_region_rotated_from_pointwise};

verus! {

/// Rotate the region `[mid - left, mid + right)` of `v` left by `left` by
/// following the permutation cycles, one carried element at a time.
pub(crate) fn cycle_rotate<T: Copy>(v: &mut Vec<T>, left: usize, mid: usize, right: usize)
    requires
        1 <= left <= mid,
        mid + right <= old(v)@.len(),
        1 <= right,
    ensures
        region_rotated(old(v)@, final(v)@, mid - left, mid as int, mid + right),
{
    let vlen = v.len();
    let lo = mid - left;
    let n = left + right;
    let ghost n_i = n as int;
    let ghost r_i = right as int;
    let ghost g_spec = gcd(n_i as nat, r_i as nat) as int;
    let ghost c = cycle_len(n_i, r_i);
    proof {
        lemma_gcd_parts(n_i, r_i);
        lemma_gcd_divides(n_i as nat, r_i as nat);
    }
    // first cycle, from offset 0; the smallest offset it wraps to is the gcd
    let mut tmp: T = v[lo];
    let mut i: usize = right;
    let mut gmin: usize = right;
    let ghost mut k: int = 1;
    proof {
        lemma_walk_step(n_i, r_i, 0, 0);
        lemma_small_mod(0, n as nat);
        assert(walk(0, 0, n_i, r_i) == 0);
        assert(i as int == walk(0, 1, n_i, r_i));
    }
    loop
        invariant_except_break
            1 <= k < c,
            i as int == walk(0, k, n_i, r_i),
            i < n,
            tmp == old(v)@[lo + walk(0, k - 1, n_i, r_i)],
            g_spec == gcd(n_i as nat, r_i as nat) as int,
            1 <= g_spec <= left,
            g_spec <= right,
            2 <= c <= n_i,
            c == cycle_len(n_i, r_i),
            n == left + right,
            n_i == n as int,
            r_i == right as int,
            lo == mid - left,
            1 <= left,
            1 <= right,
            mid + right <= vlen,
            vlen == v@.len(),
            v@.len() == old(v)@.len(),
            r_i % g_spec == 0,
            gmin as int % g_spec == 0,
            g_spec <= gmin as int <= r_i,
            forall|j: int|
                2 <= j <= k && walk(0, j - 1, n_i, r_i) >= left ==> gmin as int <= #[trigger] walk(
                    0,
                    j,
                    n_i,
                    r_i,
                ),
            forall|p: int| 0 <= p < v@.len() && !(lo <= p < lo + n) ==> v@[p] == old(v)@[p],
            forall|p: int|
                lo <= p < lo + n && visited(0, k, n_i, r_i, p - lo) ==> #[trigger] v@[p] == old(
                    v,
                )@[lo + ((p - lo + left) % n_i)],
            forall|p: int|
                lo <= p < lo + n && !visited(0, k, n_i, r_i, p - lo) ==> #[trigger] v@[p] == old(
                    v,
                )@[p],
        ensures
            v@.len() == old(v)@.len(),
            gmin as int == g_spec,
            forall|p: int| 0 <= p < v@.len() && !(lo <= p < lo + n) ==> v@[p] == old(v)@[p],
            forall|p: int|
                lo <= p < lo + n && (p - lo) % g_spec == 0 ==> #[trigger] v@[p] == old(v)@[lo + ((p
                    - lo + left) % n_i)],
            forall|p: int|
                lo <= p < lo + n && (p - lo) % g_spec != 0 ==> #[trigger] v@[p] == old(v)@[p],
        decreases c - k,
    {
        proof {
            lemma_walk_congruence(n_i, r_i, 0, k);
            lemma_small_mod(0, g_spec as nat);
            lemma_walk_injective(n_i, r_i, 0, 0, k);
            if visited(0, k, n_i, r_i, i as int) {
                let j = choose|j: int| 1 <= j < k && walk(0, j, n_i, r_i) == i as int;
                lemma_walk_injective(n_i, r_i, 0, j, k);
                assert(false);
            }
            lemma_walk_pred(n_i, r_i, 0, k);
            assert(v@[lo + i as int] == old(v)@[lo + i as int]);
        }
        let x = v[lo + i];
        v[lo + i] = tmp;
        tmp = x;
        proof {
            assert(tmp == old(v)@[lo + walk(0, k, n_i, r_i)]);
            assert forall|p: int|
                0 <= p < v@.len() && !(lo <= p < lo + n) implies v@[p] == old(v)@[p] by {
                assert(p != lo + i as int);
            }
            assert forall|p: int|
                lo <= p < lo + n && visited(0, k + 1, n_i, r_i, p - lo) implies #[trigger] v@[p]
                == old(v)@[lo + ((p - lo + left) % n_i)] by {
                let j = choose|j: int| 1 <= j < k + 1 && walk(0, j, n_i, r_i) == p - lo;
                if j < k {
                    lemma_walk_injective(n_i, r_i, 0, j, k);
                    assert(visited(0, k, n_i, r_i, p - lo));
                }
            }
            assert forall|p: int|
                lo <= p < lo + n && !visited(0, k + 1, n_i, r_i, p - lo) implies #[trigger] v@[p]
                == old(v)@[p] by {
                if p - lo == i as int {
                    assert(walk(0, k, n_i, r_i) == p - lo);
                    assert(visited(0, k + 1, n_i, r_i, p - lo));
                }
                assert(!visited(0, k, n_i, r_i, p - lo));
            }
        }
        if i >= left {
            i -= left;
            proof {
                lemma_walk_step(n_i, r_i, 0, k);
                assert(i as int == walk(0, k + 1, n_i, r_i));
            }
            if i == 0 {
                proof {
                    if k + 1 < c {
                        lemma_walk_injective(n_i, r_i, 0, 0, k + 1);
                        assert(false);
                    }
                    assert(k + 1 == c);
                }
                v[lo] = tmp;
                proof {
                    lemma_walk_closes(n_i, r_i, 0);
                    lemma_walk_pred(n_i, r_i, 0, c);
                    lemma_small_mod(left as nat, n as nat);
                    assert(walk(0, c - 1, n_i, r_i) == left as int % n_i);
                    // the smallest wrap offset of the closed cycle is the gcd
                    if gmin as int > g_spec {
                        lemma_walk_one(n_i, r_i);
                        let k0 = lemma_walk_covers(n_i, r_i, 0, g_spec);
                        assert(k0 != 0);
                        if k0 == 1 {
                            assert(walk(0, 1, n_i, r_i) == r_i);
                            assert(false);
                        } else {
                            lemma_walk_pred(n_i, r_i, 0, k0);
                            if g_spec == r_i {
                                lemma_walk_injective(n_i, r_i, 0, 1, k0);
                                assert(walk(0, 1, n_i, r_i) == r_i);
                                assert(false);
                            }
                            lemma_small_mod((g_spec + left) as nat, n as nat);
                            assert(walk(0, k0 - 1, n_i, r_i) == g_spec + left);
                            assert(gmin as int <= walk(0, k0, n_i, r_i));
                            assert(false);
                        }
                    }
                    assert(gmin as int == g_spec);
                    assert forall|p: int|
                        lo <= p < lo + n && (p - lo) % g_spec == 0 implies #[trigger] v@[p] == old(
                            v,
                        )@[lo + ((p - lo + left) % n_i)] by {
                        let k0 = lemma_walk_covers(n_i, r_i, 0, p - lo);
                        if k0 == 0 {
                            assert(p == lo);
                        } else {
                            lemma_walk_injective(n_i, r_i, 0, 0, k0);
                            assert(visited(0, c, n_i, r_i, p - lo));
                            assert(p != lo);
                        }
                    }
                    assert forall|p: int|
                        lo <= p < lo + n && (p - lo) % g_spec != 0 implies #[trigger] v@[p] == old(
                            v,
                        )@[p] by {
                        if visited(0, c, n_i, r_i, p - lo) {
                            let j = choose|j: int| 1 <= j < c && walk(0, j, n_i, r_i) == p - lo;
                            lemma_walk_congruence(n_i, r_i, 0, j);
                            lemma_small_mod(0, g_spec as nat);
                            assert(false);
                        }
                        assert(p != lo);
                    }
                }
                break;
            }
            // track the smallest offset the cycle wraps to
            if i < gmin {
                gmin = i;
            }
            proof {
                lemma_walk_congruence(n_i, r_i, 0, k + 1);
                lemma_small_mod(0, g_spec as nat);
                if (i as int) < g_spec {
                    lemma_small_mod(i as nat, g_spec as nat);
                    assert(false);
                }
                if k + 1 == c {
                    lemma_walk_closes(n_i, r_i, 0);
                    assert(false);
                }
                k = k + 1;
            }
        } else {
            i += right;
            proof {
                lemma_walk_step(n_i, r_i, 0, k);
                assert(i as int == walk(0, k + 1, n_i, r_i));
                if k + 1 == c {
                    lemma_walk_closes(n_i, r_i, 0);
                    assert(false);
                }
                k = k + 1;
            }
        }
    }
    // the remaining cycles start at offsets 1, 2, ..., gcd - 1
    let g = gmin;
    let mut s: usize = 1;
    while s < g
        invariant
            s <= g,
            g as int == g_spec,
            g_spec == gcd(n_i as nat, r_i as nat) as int,
            1 <= g_spec <= left,
            g_spec <= right,
            2 <= c <= n_i,
            c == cycle_len(n_i, r_i),
            n == left + right,
            n_i == n as int,
            r_i == right as int,
            lo == mid - left,
            1 <= left,
            1 <= right,
            mid + right <= vlen,
            vlen == v@.len(),
            v@.len() == old(v)@.len(),
            forall|p: int| 0 <= p < v@.len() && !(lo <= p < lo + n) ==> v@[p] == old(v)@[p],
            forall|p: int|
                lo <= p < lo + n && (p - lo) % g_spec < s as int ==> #[trigger] v@[p] == old(
                    v,
                )@[lo + ((p - lo + left) % n_i)],
            forall|p: int|
                lo <= p < lo + n && (p - lo) % g_spec >= s as int ==> #[trigger] v@[p] == old(
                    v,
                )@[p],
        decreases g - s,
    {
        proof {
            lemma_small_mod(s as nat, g_spec as nat);
        }
        let mut tmp: T = v[lo + s];
        let mut i: usize = s + right;
        let ghost mut k: int = 1;
        proof {
            lemma_walk_step(n_i, r_i, s as int, 0);
            lemma_small_mod(s as nat, n as nat);
            assert(walk(s as int, 0, n_i, r_i) == s as int);
            assert(i as int == walk(s as int, 1, n_i, r_i));
        }
        loop
            invariant_except_break
                1 <= k < c,
                i as int == walk(s as int, k, n_i, r_i),
                i < n,
                tmp == old(v)@[lo + walk(s as int, k - 1, n_i, r_i)],
                s < g,
                g as int == g_spec,
                g_spec == gcd(n_i as nat, r_i as nat) as int,
                1 <= g_spec <= left,
                g_spec <= right,
                2 <= c <= n_i,
                c == cycle_len(n_i, r_i),
                n == left + right,
                n_i == n as int,
                r_i == right as int,
                lo == mid - left,
                1 <= left,
                1 <= right,
                mid + right <= vlen,
                vlen == v@.len(),
                v@.len() == old(v)@.len(),
                forall|p: int|
                    0 <= p < v@.len() && !(lo <= p < lo + n) ==> v@[p] == old(v)@[p],
                forall|p: int|
                    lo <= p < lo + n && (p - lo) % g_spec < s as int ==> #[trigger] v@[p] == old(
                        v,
                    )@[lo + ((p - lo + left) % n_i)],
                forall|p: int|
                    lo <= p < lo + n && (p - lo) % g_spec > s as int ==> #[trigger] v@[p] == old(
                        v,
                    )@[p],
                forall|p: int|
                    lo <= p < lo + n && (p - lo) % g_spec == s as int && visited(
                        s as int,
                        k,
                        n_i,
                        r_i,
                        p - lo,
                    ) ==> #[trigger] v@[p] == old(v)@[lo + ((p - lo + left) % n_i)],
                forall|p: int|
                    lo <= p < lo + n && (p - lo) % g_spec == s as int && !visited(
                        s as int,
                        k,
                        n_i,
                        r_i,
                        p - lo,
                    ) ==> #[trigger] v@[p] == old(v)@[p],
            ensures
                v@.len() == old(v)@.len(),
                forall|p: int|
                    0 <= p < v@.len() && !(lo <= p < lo + n) ==> v@[p] == old(v)@[p],
                forall|p: int|
                    lo <= p < lo + n && (p - lo) % g_spec <= s as int ==> #[trigger] v@[p] == old(
                        v,
                    )@[lo + ((p - lo + left) % n_i)],
                forall|p: int|
                    lo <= p < lo + n && (p - lo) % g_spec > s as int ==> #[trigger] v@[p] == old(
                        v,
                    )@[p],
            decreases c - k,
        {
            proof {
                lemma_walk_congruence(n_i, r_i, s as int, k);
                lemma_small_mod(s as nat, g_spec as nat);
                lemma_small_mod(s as nat, n as nat);
                lemma_walk_injective(n_i, r_i, s as int, 0, k);
                if visited(s as int, k, n_i, r_i, i as int) {
                    let j = choose|j: int|
                        1 <= j < k && walk(s as int, j, n_i, r_i) == i as int;
                    lemma_walk_injective(n_i, r_i, s as int, j, k);
                    assert(false);
                }
                lemma_walk_pred(n_i, r_i, s as int, k);
                assert((i as int) % g_spec == s as int);
                assert(v@[lo + i as int] == old(v)@[lo + i as int]);
            }
            let x = v[lo + i];
            v[lo + i] = tmp;
            tmp = x;
            proof {
                assert(tmp == old(v)@[lo + walk(s as int, k, n_i, r_i)]);
                // positions outside this cycle's residue class are untouched
                assert forall|p: int|
                    0 <= p < v@.len() && !(lo <= p < lo + n) implies v@[p] == old(v)@[p] by {
                    assert(p != lo + i as int);
                }
                assert forall|p: int|
                    lo <= p < lo + n && (p - lo) % g_spec < s as int implies #[trigger] v@[p]
                    == old(v)@[lo + ((p - lo + left) % n_i)] by {
                    assert(p - lo != i as int);
                }
                assert forall|p: int|
                    lo <= p < lo + n && (p - lo) % g_spec > s as int implies #[trigger] v@[p]
                    == old(v)@[p] by {
                    assert(p - lo != i as int);
                }
                // the replace extends the visited set by walk(s, k)
                assert forall|p: int|
                    lo <= p < lo + n && (p - lo) % g_spec == s as int && visited(
                        s as int,
                        k + 1,
                        n_i,
                        r_i,
                        p - lo,
                    ) implies #[trigger] v@[p] == old(v)@[lo + ((p - lo + left) % n_i)] by {
                    let j = choose|j: int|
                        1 <= j < k + 1 && walk(s as int, j, n_i, r_i) == p - lo;
                    if j < k {
                        lemma_walk_injective(n_i, r_i, s as int, j, k);
                        assert(visited(s as int, k, n_i, r_i, p - lo));
                    }
                }
                assert forall|p: int|
                    lo <= p < lo + n && (p - lo) % g_spec == s as int && !visited(
                        s as int,
                        k + 1,
                        n_i,
                        r_i,
                        p - lo,
                    ) implies #[trigger] v@[p] == old(v)@[p] by {
                    if p - lo == i as int {
                        assert(walk(s as int, k, n_i, r_i) == p - lo);
                        assert(visited(s as int, k + 1, n_i, r_i, p - lo));
                    }
                    assert(!visited(s as int, k, n_i, r_i, p - lo));
                }
            }
            if i >= left {
                i -= left;
                proof {
                    lemma_walk_step(n_i, r_i, s as int, k);
                    assert(i as int == walk(s as int, k + 1, n_i, r_i));
                }
                if i == s {
                    proof {
                        if k + 1 < c {
                            lemma_walk_injective(n_i, r_i, s as int, 0, k + 1);
                            assert(false);
                        }
                        assert(k + 1 == c);
                    }
                    v[lo + s] = tmp;
                    proof {
                        lemma_walk_closes(n_i, r_i, s as int);
                        lemma_walk_pred(n_i, r_i, s as int, c);
                        lemma_small_mod((s + left) as nat, n as nat);
                        assert(walk(s as int, c - 1, n_i, r_i) == (s as int + left) % n_i);
                        assert forall|p: int|
                            lo <= p < lo + n && (p - lo) % g_spec <= s as int implies #[trigger] v@[p]
                            == old(v)@[lo + ((p - lo + left) % n_i)] by {
                            if (p - lo) % g_spec == s as int {
                                let k0 = lemma_walk_covers(n_i, r_i, s as int, p - lo);
                                if k0 == 0 {
                                    assert(p == lo + s);
                                } else {
                                    lemma_walk_injective(n_i, r_i, s as int, 0, k0);
                                    assert(visited(s as int, c, n_i, r_i, p - lo));
                                    assert(p != lo + s);
                                }
                            }
                        }
                    }
                    break;
                }
                proof {
                    if k + 1 == c {
                        lemma_walk_closes(n_i, r_i, s as int);
                        assert(false);
                    }
                    k = k + 1;
                }
            } else {
                i += right;
                proof {
                    lemma_walk_step(n_i, r_i, s as int, k);
                    assert(i as int == walk(s as int, k + 1, n_i, r_i));
                    if k + 1 == c {
                        lemma_walk_closes(n_i, r_i, s as int);
                        assert(false);
                    }
                    k = k + 1;
                }
            }
        }
        s += 1;
    }
    proof {
        assert forall|p: int|
            lo as int <= p < lo + n implies #[trigger] v@[p] == old(v)@[lo + ((p - lo + left)
            % n_i)] by {
            lemma_mod_bound(p - lo, g_spec);
        }
        lemma_region_rotated_from_pointwise(
            old(v)@,
            v@,
            lo as int,
            mid as int,
            (mid + right) as int,
        );
    }
}

} // verus!
