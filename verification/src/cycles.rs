//! Number theory behind the cycle-following strategy.
//!
//! Rotating a region of length `n` by a right extent of length `r` is the
//! permutation that sends offset `i` to offset `(i + r) % n`.  Starting from
//! an offset `s` and repeatedly stepping by `r` modulo `n` visits the offsets
//! `walk(s, k) = (s + k * r) % n`.  This module proves the classical facts
//! the strategy rests on: the walk returns to `s` after exactly `n / g`
//! steps, where `g = gcd(n, r)`, it visits no offset twice before that, and
//! the walks started at `0, 1, ..., g - 1` together visit every offset of
//! the region exactly once.

use vstd::prelude::*;
use vstd::arithmetic::div_mod::{
    lemma_small_mod, lemma_fundamental_div_mod, lemma_mod_self_0, lemma_mod_multiples_basic,
    lemma_mod_multiples_vanish, lemma_add_mod_noop_right, lemma_mod_bound, lemma_mod_equivalence,
    lemma_mod_add_multiples_vanish,
};

verus! {

/// Euclid's greatest common divisor.
pub open spec fn gcd(a: nat, b: nat) -> nat
    decreases b,
{
    if b == 0 {
        a
    } else {
        gcd(b, a % b)
    }
}

/// The offset reached after `k` steps of size `r` (mod `n`) from offset `s`.
pub open spec fn walk(s: int, k: int, n: int, r: int) -> int {
    (s + k * r) % n
}

/// The number of steps after which a walk closes: `n / gcd(n, r)`.
pub open spec fn cycle_len(n: int, r: int) -> int {
    n / (gcd(n as nat, r as nat) as int)
}

pub proof fn lemma_gcd_pos(a: nat, b: nat)
    requires
        a > 0,
    ensures
        gcd(a, b) > 0,
    decreases b,
{
    if b > 0 {
        lemma_gcd_pos(b, a % b);
    }
}

/// The gcd divides both of its arguments.
pub proof fn lemma_gcd_divides(a: nat, b: nat)
    requires
        a > 0,
    ensures
        gcd(a, b) > 0,
        a % gcd(a, b) == 0,
        b % gcd(a, b) == 0,
    decreases b,
{
    lemma_gcd_pos(a, b);
    let g = gcd(a, b) as int;
    if b == 0 {
        lemma_mod_self_0(a as int);
        lemma_small_mod(0, a);
    } else {
        lemma_gcd_divides(b, a % b);
        let ai = a as int;
        let bi = b as int;
        lemma_fundamental_div_mod(ai, bi);
        lemma_fundamental_div_mod(bi, g);
        lemma_fundamental_div_mod((a % b) as int, g);
        let qa = ai / bi;
        let qb = bi / g;
        let qm = ((a % b) as int) / g;
        assert(ai == (qa * qb + qm) * g) by (nonlinear_arith)
            requires
                ai == bi * qa + ((a % b) as int),
                bi == g * qb,
                ((a % b) as int) == g * qm,
        ;
        lemma_mod_multiples_basic(qa * qb + qm, g);
    }
}

/// Bezout's identity: the gcd is an integer combination of its arguments.
/// The returned pair holds the coefficients.
pub proof fn lemma_bezout(a: nat, b: nat) -> (c: (int, int))
    requires
        a > 0,
    ensures
        gcd(a, b) as int == c.0 * a + c.1 * b,
    decreases b,
{
    if b == 0 {
        (1int, 0int)
    } else {
        let (x, y) = lemma_bezout(b, a % b);
        let ai = a as int;
        let bi = b as int;
        let g = gcd(b, a % b) as int;
        lemma_fundamental_div_mod(ai, bi);
        let q = ai / bi;
        assert(g == y * ai + (x - y * q) * bi) by (nonlinear_arith)
            requires
                g == x * bi + y * ((a % b) as int),
                ((a % b) as int) == ai - bi * q,
        ;
        (y, x - y * q)
    }
}

/// No multiple `d * r` with `0 < d < cycle_len(n, r)` is divisible by `n`:
/// a walk cannot close early.
pub proof fn lemma_no_early_closure(n: int, r: int, d: int)
    requires
        0 < r < n,
        0 < d < cycle_len(n, r),
    ensures
        (d * r) % n != 0,
{
    let g = gcd(n as nat, r as nat) as int;
    lemma_gcd_divides(n as nat, r as nat);
    let (x, y) = lemma_bezout(n as nat, r as nat);
    if (d * r) % n == 0 {
        lemma_fundamental_div_mod(d * r, n);
        let q = (d * r) / n;
        // d * g == n * (x * d + y * q), so d * g is a positive multiple of n
        assert(d * g == n * (x * d + y * q)) by (nonlinear_arith)
            requires
                g == x * n + y * r,
                d * r == n * q,
        ;
        lemma_mod_multiples_basic(x * d + y * q, n);
        assert((d * g) % n == 0) by {
            assert(d * g == (x * d + y * q) * n) by (nonlinear_arith)
                requires
                    d * g == n * (x * d + y * q),
            ;
        }
        // ... but 0 < d * g < n, contradiction
        lemma_fundamental_div_mod(n, g);
        assert(0 < d * g < n) by (nonlinear_arith)
            requires
                g > 0,
                d > 0,
                d < n / g,
                n == g * (n / g),
        ;
        lemma_small_mod((d * g) as nat, n as nat);
        assert(false);
    }
}

/// A walk closes after `cycle_len(n, r)` steps.
pub proof fn lemma_closure(n: int, r: int)
    requires
        0 < r < n,
    ensures
        (cycle_len(n, r) * r) % n == 0,
        1 <= cycle_len(n, r) <= n,
{
    let g = gcd(n as nat, r as nat) as int;
    lemma_gcd_divides(n as nat, r as nat);
    let c = cycle_len(n, r);
    lemma_fundamental_div_mod(n, g);
    lemma_fundamental_div_mod(r, g);
    assert(c * r == (r / g) * n) by (nonlinear_arith)
        requires
            n == g * c,
            r == g * (r / g),
    ;
    lemma_mod_multiples_basic(r / g, n);
    assert((c * r) % n == ((r / g) * n) % n);
    assert(1 <= c <= n) by (nonlinear_arith)
        requires
            n == g * c,
            n > 0,
            g > 0,
    ;
}

/// The offsets a walk from `s` has stepped through strictly before step `k`,
/// not counting the start itself.
pub open spec fn visited(s: int, k: int, n: int, r: int, q: int) -> bool {
    exists|j: int| 1 <= j < k && walk(s, j, n, r) == q
}

/// The gcd of `n` and `r` also divides the left extent `n - r` and is at
/// most either extent, so every cycle is at least two steps long.
pub proof fn lemma_gcd_parts(n: int, r: int)
    requires
        0 < r < n,
    ensures
        1 <= gcd(n as nat, r as nat) as int,
        gcd(n as nat, r as nat) as int <= r,
        gcd(n as nat, r as nat) as int <= n - r,
        (n - r) % (gcd(n as nat, r as nat) as int) == 0,
        2 <= cycle_len(n, r) <= n,
{
    let g = gcd(n as nat, r as nat) as int;
    lemma_gcd_divides(n as nat, r as nat);
    lemma_mod_equivalence(n, r, g);
    if g > r {
        lemma_small_mod(r as nat, g as nat);
    }
    if g > n - r {
        lemma_small_mod((n - r) as nat, g as nat);
    }
    lemma_closure(n, r);
    let c = cycle_len(n, r);
    lemma_fundamental_div_mod(n, g);
    assert(2 <= c) by (nonlinear_arith)
        requires
            n == g * c,
            n >= 2 * g,
            g > 0,
            c >= 1,
    ;
}

/// The offset a walk came from: stepping back by `r` is stepping forward by
/// the left extent `n - r`.
pub proof fn lemma_walk_pred(n: int, r: int, s: int, k: int)
    requires
        0 < r < n,
        0 <= s < n,
        k >= 1,
    ensures
        walk(s, k - 1, n, r) == (walk(s, k, n, r) + (n - r)) % n,
{
    lemma_walk_step(n, r, s, k - 1);
    let q = walk(s, k - 1, n, r);
    let w = walk(s, k, n, r);
    if q >= n - r {
        lemma_small_mod((w + (n - r)) as nat, n as nat);
    } else {
        lemma_mod_add_multiples_vanish(w + (n - r) - n, n);
        lemma_small_mod((w + (n - r) - n) as nat, n as nat);
    }
}

/// One step of a walk adds `r` and reduces mod `n`; in branch form: subtract
/// the left extent `n - r` on wrap-around, add `r` otherwise.
pub proof fn lemma_walk_step(n: int, r: int, s: int, k: int)
    requires
        0 < r < n,
        0 <= s < n,
    ensures
        0 <= walk(s, k, n, r) < n,
        walk(s, k, n, r) >= n - r ==> walk(s, k + 1, n, r) == walk(s, k, n, r) - (n - r),
        walk(s, k, n, r) < n - r ==> walk(s, k + 1, n, r) == walk(s, k, n, r) + r,
{
    let i = walk(s, k, n, r);
    lemma_mod_bound(s + k * r, n);
    assert(s + (k + 1) * r == (s + k * r) + r) by (nonlinear_arith);
    lemma_add_mod_noop_right(r, s + k * r, n);
    assert(walk(s, k + 1, n, r) == (i + r) % n);
    if i + r < n {
        lemma_small_mod((i + r) as nat, n as nat);
    } else {
        lemma_mod_add_multiples_vanish(i + r - n, n);
        lemma_small_mod((i + r - n) as nat, n as nat);
    }
}

/// The first step of the walk from offset `0` lands on `r`.
pub proof fn lemma_walk_one(n: int, r: int)
    requires
        0 < r < n,
    ensures
        walk(0, 1, n, r) == r,
{
    assert(0 + 1 * r == r) by (nonlinear_arith);
    lemma_small_mod(r as nat, n as nat);
}

/// Every offset a walk visits lies in the residue class of its start,
/// modulo `g = gcd(n, r)`.
pub proof fn lemma_walk_congruence(n: int, r: int, s: int, k: int)
    requires
        0 < r < n,
        0 <= s,
    ensures
        walk(s, k, n, r) % (gcd(n as nat, r as nat) as int) == s % (gcd(n as nat, r as nat) as int),
{
    let g = gcd(n as nat, r as nat) as int;
    lemma_gcd_divides(n as nat, r as nat);
    let w = walk(s, k, n, r);
    lemma_fundamental_div_mod(s + k * r, n);
    let q = (s + k * r) / n;
    lemma_fundamental_div_mod(r, g);
    lemma_fundamental_div_mod(n, g);
    let m = k * (r / g) - q * (n / g);
    assert(w == g * m + s) by (nonlinear_arith)
        requires
            w == (s + k * r) - n * q,
            r == g * (r / g),
            n == g * (n / g),
            m == k * (r / g) - q * (n / g),
    ;
    lemma_mod_multiples_vanish(m, s, g);
}

/// A walk visits no offset twice in its first `cycle_len(n, r)` steps.
pub proof fn lemma_walk_injective(n: int, r: int, s: int, k1: int, k2: int)
    requires
        0 < r < n,
        0 <= k1 < k2 < cycle_len(n, r),
    ensures
        walk(s, k1, n, r) != walk(s, k2, n, r),
{
    if walk(s, k1, n, r) == walk(s, k2, n, r) {
        lemma_mod_equivalence(s + k1 * r, s + k2 * r, n);
        let d = k2 - k1;
        assert((s + k1 * r) - (s + k2 * r) == 0 - d * r) by (nonlinear_arith)
            requires
                d == k2 - k1,
        ;
        lemma_mod_equivalence(0, d * r, n);
        lemma_small_mod(0, n as nat);
        assert((d * r) % n == 0);
        lemma_no_early_closure(n, r, d);
        assert(false);
    }
}

/// A walk returns to its start after exactly `cycle_len(n, r)` steps.
pub proof fn lemma_walk_closes(n: int, r: int, s: int)
    requires
        0 < r < n,
        0 <= s < n,
    ensures
        walk(s, cycle_len(n, r), n, r) == s,
{
    lemma_closure(n, r);
    let c = cycle_len(n, r);
    lemma_add_mod_noop_right(s, c * r, n);
    lemma_small_mod(s as nat, n as nat);
}

/// Every offset in the residue class of `s` modulo `g = gcd(n, r)` is
/// visited by the walk from `s` within its first `cycle_len(n, r)` steps.
/// The returned value is the step at which the walk reaches `v`.
pub proof fn lemma_walk_covers(n: int, r: int, s: int, v: int) -> (k: int)
    requires
        0 < r < n,
        0 <= s < n,
        0 <= v < n,
        v % (gcd(n as nat, r as nat) as int) == s % (gcd(n as nat, r as nat) as int),
    ensures
        0 <= k < cycle_len(n, r),
        walk(s, k, n, r) == v,
{
    let g = gcd(n as nat, r as nat) as int;
    lemma_gcd_divides(n as nat, r as nat);
    let (x, y) = lemma_bezout(n as nat, r as nat);
    let c = cycle_len(n, r);
    lemma_closure(n, r);
    lemma_fundamental_div_mod(n, g);
    lemma_fundamental_div_mod(r, g);
    let w = (v - s) % n;
    lemma_mod_bound(v - s, n);
    lemma_mod_equivalence(v, s, g);
    lemma_fundamental_div_mod(v - s, n);
    let qn = (v - s) / n;
    assert(w == g * (-(qn * (n / g))) + (v - s)) by (nonlinear_arith)
        requires
            w == (v - s) - n * qn,
            n == g * (n / g),
    ;
    lemma_mod_multiples_vanish(-(qn * (n / g)), v - s, g);
    assert(w % g == 0);
    lemma_fundamental_div_mod(w, g);
    let j = w / g;
    let t = j * y;
    let k = t % c;
    lemma_mod_bound(t, c);
    lemma_fundamental_div_mod(t, c);
    let qc = t / c;
    assert(c * r == n * (r / g)) by (nonlinear_arith)
        requires
            n == g * c,
            r == g * (r / g),
    ;
    assert(t * r == w + n * (-(j * x))) by (nonlinear_arith)
        requires
            t == j * y,
            g == x * n + y * r,
            w == g * j,
    ;
    assert(k * r == w + n * (-(j * x) - qc * (r / g))) by (nonlinear_arith)
        requires
            k == t - c * qc,
            t * r == w + n * (-(j * x)),
            c * r == n * (r / g),
    ;
    lemma_mod_multiples_vanish(-(j * x) - qc * (r / g), s + w, n);
    assert(s + k * r == n * (-(j * x) - qc * (r / g)) + (s + w));
    assert(walk(s, k, n, r) == (s + w) % n);
    lemma_add_mod_noop_right(s, v - s, n);
    lemma_small_mod(v as nat, n as nat);
    assert((s + w) % n == v);
    k
}

} // verus!
