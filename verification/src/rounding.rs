//! The numbers that a binary64 (IEEE 754 double precision) can hold, and rounding to them.
//!
//! Non-negative doubles are counted from zero: the *ordinal* of a double is its bit pattern
//! without the sign. Consecutive ordinals are consecutive doubles, and the ordinal after the
//! largest finite double is that of infinity, which takes the place of 2^1024.
//! Magnitudes are integers in units of 2^-1074, the smallest positive double.
use vstd::arithmetic::power2::*;
use vstd::prelude::*;

verus! {

/// 2^52, the number of doubles between two neighbouring powers of two.
pub const BINADE: u64 = 0x10_0000_0000_0000;

/// The ordinal of infinity.
pub const INFINITE_ORDINAL: u64 = 0x7ff0_0000_0000_0000;

/// The exponent of the gap between the double of ordinal `k` and the next one.
pub open spec fn gap_exponent(k: nat) -> nat {
    if k < BINADE {
        0
    } else {
        (k / (BINADE as nat) - 1) as nat
    }
}

/// The double of ordinal `k`, in units of 2^-1074.
pub open spec fn magnitude(k: nat) -> nat {
    if k < BINADE {
        k
    } else {
        (BINADE as nat + k % (BINADE as nat)) * pow2(gap_exponent(k))
    }
}

/// Rounding to nearest, ties to even: the quotient `p / q` lies no farther from the double of
/// ordinal `k` than from its two neighbours, and halfway only where `k` is even.
pub open spec fn rounds_to(p: nat, q: nat, k: nat) -> bool {
    &&& k <= INFINITE_ORDINAL
    &&& k > 0 ==> {
        let below = (magnitude((k - 1) as nat) + magnitude(k)) * q;
        below < 2 * p || (below == 2 * p && k % 2 == 0)
    }
    &&& k < INFINITE_ORDINAL ==> {
        let above = (magnitude(k) + magnitude(k + 1)) * q;
        2 * p < above || (2 * p == above && k % 2 == 0)
    }
}

/// The ordinal of the double nearest to `p / q`.
pub open spec fn nearest(p: nat, q: nat) -> nat {
    choose|k: nat| rounds_to(p, q, k)
}

/// Neighbouring doubles lie `2^gap_exponent` apart.
pub proof fn lemma_magnitude_step(k: nat)
    ensures
        magnitude(k + 1) == magnitude(k) + pow2(gap_exponent(k)),
        magnitude(k) < magnitude(k + 1),
{
    let b = BINADE as nat;
    lemma_pow2_pos(gap_exponent(k));
    if k < b {
        assert(pow2(0) == 1) by {
            lemma2_to64();
        }
        if k + 1 == b {
            assert(gap_exponent(b) == 0);
            assert(b % b == 0);
            assert(magnitude(b) == (b + 0) * pow2(0));
        }
    } else {
        let g = gap_exponent(k);
        let r = k % b;
        assert(k == (g + 1) * b + r) by (nonlinear_arith)
            requires
                b == 0x10_0000_0000_0000,
                r == k % b,
                g + 1 == k / b,
        ;
        if r + 1 < b {
            assert((k + 1) / b == g + 1 && (k + 1) % b == r + 1) by (nonlinear_arith)
                requires
                    b == 0x10_0000_0000_0000,
                    k == (g + 1) * b + r,
                    r + 1 < b,
            ;
            assert((b + r + 1) * pow2(g) == (b + r) * pow2(g) + pow2(g)) by (nonlinear_arith);
        } else {
            assert((k + 1) / b == g + 2 && (k + 1) % b == 0) by (nonlinear_arith)
                requires
                    b == 0x10_0000_0000_0000,
                    k == (g + 1) * b + r,
                    r + 1 == b,
            ;
            lemma_pow2_unfold(g + 1);
            assert(gap_exponent(k + 1) == g + 1);
            assert((b + 0) * pow2(g + 1) == (b + r) * pow2(g) + pow2(g)) by (nonlinear_arith)
                requires
                    r + 1 == b,
                    pow2(g + 1) == 2 * pow2(g),
            ;
        }
    }
}

/// A larger ordinal is a larger double.
pub proof fn lemma_magnitude_increases(i: nat, j: nat)
    requires
        i < j,
    ensures
        magnitude(i) < magnitude(j),
    decreases j - i,
{
    lemma_magnitude_step((j - 1) as nat);
    if i < j - 1 {
        lemma_magnitude_increases(i, (j - 1) as nat);
    }
}

/// The gaps do not shrink towards larger doubles.
pub proof fn lemma_exponents_ordered(a: nat, b: nat)
    requires
        b <= a,
    ensures
        gap_exponent(b) <= gap_exponent(a),
{
    vstd::arithmetic::div_mod::lemma_div_is_ordered(b as int, a as int, BINADE as int);
}

/// Rounding keeps the order of quotients.
pub proof fn lemma_rounds_to_monotone(p1: nat, q1: nat, k1: nat, p2: nat, q2: nat, k2: nat)
    requires
        q1 > 0,
        q2 > 0,
        p1 * q2 <= p2 * q1,
        rounds_to(p1, q1, k1),
        rounds_to(p2, q2, k2),
    ensures
        k1 <= k2,
{
    if k1 > k2 {
        let a = magnitude((k1 - 1) as nat) + magnitude(k1);
        let b = magnitude(k2) + magnitude(k2 + 1);
        if k2 + 1 < k1 {
            lemma_magnitude_increases(k2, (k1 - 1) as nat);
            lemma_magnitude_increases(k2 + 1, k1);
            assert(b < a);
        } else {
            assert(a == b);
        }
        assert(a * q1 <= 2 * p1);
        assert(2 * p2 <= b * q2);
        assert(a * q1 * q2 <= 2 * (p1 * q2)) by (nonlinear_arith)
            requires
                a * q1 <= 2 * p1,
        ;
        assert(2 * (p2 * q1) <= b * q1 * q2) by (nonlinear_arith)
            requires
                2 * p2 <= b * q2,
        ;
        assert(a * q1 * q2 <= b * q1 * q2);
        if b < a {
            assert(b * q1 * q2 < a * q1 * q2) by (nonlinear_arith)
                requires
                    b < a,
                    q1 > 0,
                    q2 > 0,
            ;
        } else {
            // Both quotients lie halfway between two neighbours, one of which is odd.
            assert(2 * (p1 * q2) == a * q1 * q2);
            assert(2 * p1 == a * q1) by (nonlinear_arith)
                requires
                    2 * (p1 * q2) == a * q1 * q2,
                    q2 > 0,
            ;
            assert(2 * p2 == b * q2) by (nonlinear_arith)
                requires
                    2 * (p2 * q1) == b * q1 * q2,
                    q1 > 0,
            ;
        }
    }
}

/// The largest ordinal up to `bound` whose double is at most `p / q`.
proof fn lemma_floor_ordinal(p: nat, q: nat, bound: nat) -> (k: nat)
    ensures
        k <= bound,
        magnitude(k) * q <= p,
        k < bound ==> p < magnitude(k + 1) * q,
    decreases bound,
{
    if magnitude(bound) * q <= p {
        bound
    } else if bound == 0 {
        assert(magnitude(0) * q == 0) by (nonlinear_arith)
            requires
                magnitude(0) == 0,
        ;
        0
    } else {
        lemma_floor_ordinal(p, q, (bound - 1) as nat)
    }
}

/// Every quotient rounds to exactly one ordinal.
pub proof fn lemma_nearest(p: nat, q: nat)
    requires
        q > 0,
    ensures
        rounds_to(p, q, nearest(p, q)),
        forall|k: nat| rounds_to(p, q, k) ==> k == nearest(p, q),
{
    let top = INFINITE_ORDINAL as nat;
    let k = lemma_floor_ordinal(p, q, top);
    let m = magnitude(k);
    if k > 0 {
        lemma_magnitude_step((k - 1) as nat);
        assert((magnitude((k - 1) as nat) + m) * q < 2 * p) by (nonlinear_arith)
            requires
                magnitude((k - 1) as nat) < m,
                m * q <= p,
                q > 0,
        ;
    }
    if k == top {
        assert(rounds_to(p, q, k));
    } else {
        let n = magnitude(k + 1);
        lemma_magnitude_step(k);
        let mid = (m + n) * q;
        if 2 * p < mid || (2 * p == mid && k % 2 == 0) {
            assert(rounds_to(p, q, k));
        } else {
            lemma_magnitude_step(k + 1);
            assert(2 * p < (n + magnitude(k + 2)) * q) by (nonlinear_arith)
                requires
                    n < magnitude(k + 2),
                    p < n * q,
                    q > 0,
            ;
            assert(rounds_to(p, q, k + 1));
        }
    }
    assert forall|j: nat| rounds_to(p, q, j) implies j == nearest(p, q) by {
        lemma_rounds_to_monotone(p, q, j, p, q, nearest(p, q));
        lemma_rounds_to_monotone(p, q, nearest(p, q), p, q, j);
    }
}

/// Rounding keeps the order of quotients.
pub proof fn lemma_nearest_monotone(p1: nat, q1: nat, p2: nat, q2: nat)
    requires
        q1 > 0,
        q2 > 0,
        p1 * q2 <= p2 * q1,
    ensures
        nearest(p1, q1) <= nearest(p2, q2),
{
    lemma_nearest(p1, q1);
    lemma_nearest(p2, q2);
    lemma_rounds_to_monotone(p1, q1, nearest(p1, q1), p2, q2, nearest(p2, q2));
}

/// A quotient that is a double is not changed by rounding.
pub proof fn lemma_nearest_exact(p: nat, q: nat, k: nat)
    requires
        q > 0,
        k <= INFINITE_ORDINAL,
        p == magnitude(k) * q,
    ensures
        nearest(p, q) == k,
{
    let m = magnitude(k);
    lemma_magnitude_step(k);
    if k > 0 {
        lemma_magnitude_step((k - 1) as nat);
        assert((magnitude((k - 1) as nat) + m) * q < 2 * p) by (nonlinear_arith)
            requires
                magnitude((k - 1) as nat) < m,
                p == m * q,
                q > 0,
        ;
    }
    assert(2 * p < (m + magnitude(k + 1)) * q) by (nonlinear_arith)
        requires
            m < magnitude(k + 1),
            p == m * q,
            q > 0,
    ;
    assert(rounds_to(p, q, k));
    lemma_nearest(p, q);
}

/// Above the smallest numbers and up to the largest, rounding moves a quotient by at most 2^-53 of
/// itself.
pub proof fn lemma_nearest_error(p: nat, q: nat)
    requires
        q > 0,
        BINADE * q <= p <= magnitude((INFINITE_ORDINAL - 1) as nat) * q,
    ensures
        ({
            let moved = magnitude(nearest(p, q)) * q - p;
            &&& moved * (2 * BINADE) <= p
            &&& -moved * (2 * BINADE) <= p
        }),
{
    let b = BINADE as nat;
    let k = nearest(p, q);
    let top = (INFINITE_ORDINAL - 1) as nat;
    lemma_nearest(p, q);
    lemma2_to64();
    assert(magnitude(b) == b) by {
        assert(b % b == 0 && b / b == 1);
        assert((b + 0) * pow2(0) == b);
    }
    lemma_nearest_exact(b * q, q, b);
    assert((b * q) * q <= p * q) by (nonlinear_arith)
        requires
            b * q <= p,
    ;
    lemma_nearest_monotone(b * q, q, p, q);
    lemma_nearest_exact(magnitude(top) * q, q, top);
    assert(p * q <= (magnitude(top) * q) * q) by (nonlinear_arith)
        requires
            p <= magnitude(top) * q,
    ;
    lemma_nearest_monotone(p, q, magnitude(top) * q, q);
    let m = magnitude(k);
    if m * q < p {
        let g = pow2(gap_exponent(k));
        lemma_magnitude_step(k);
        lemma_gap_of_magnitude(k);
        assert(2 * (p - m * q) <= g * q) by (nonlinear_arith)
            requires
                2 * p <= (m + magnitude(k + 1)) * q,
                magnitude(k + 1) == m + g,
        ;
        assert((p - m * q) * (2 * b) <= p) by (nonlinear_arith)
            requires
                2 * (p - m * q) <= g * q,
                b * g <= m,
                m * q < p,
                q > 0,
                b > 0,
        {
            assert(b * (2 * (p - m * q)) <= b * (g * q));
            assert(b * (g * q) == (b * g) * q);
            assert((b * g) * q <= m * q);
        }
        assert((m * q - p) * (2 * b) <= 0) by (nonlinear_arith)
            requires
                m * q < p,
        ;
    } else if m * q > p {
        assert(k != b);
        let l = (k - 1) as nat;
        let g = pow2(gap_exponent(l));
        let below = magnitude(l);
        lemma_magnitude_step(l);
        lemma_gap_of_magnitude(l);
        assert(2 * (m * q - p) <= g * q) by (nonlinear_arith)
            requires
                (below + m) * q <= 2 * p,
                m == below + g,
        ;
        assert(below * q <= p) by (nonlinear_arith)
            requires
                (below + m) * q <= 2 * p,
                below <= m,
        ;
        assert((m * q - p) * (2 * b) <= p) by (nonlinear_arith)
            requires
                2 * (m * q - p) <= g * q,
                b * g <= below,
                below * q <= p,
                q > 0,
                b > 0,
        {
            assert(b * (2 * (m * q - p)) <= b * (g * q));
            assert(b * (g * q) == (b * g) * q);
            assert((b * g) * q <= below * q);
        }
        assert((p - m * q) * (2 * b) <= 0) by (nonlinear_arith)
            requires
                m * q > p,
        ;
    }
}

/// From 2^52 units on, the gap after a double is at most 2^-52 of it.
proof fn lemma_gap_of_magnitude(k: nat)
    requires
        k >= BINADE,
    ensures
        BINADE * pow2(gap_exponent(k)) <= magnitude(k),
{
    let b = BINADE as nat;
    assert(b * pow2(gap_exponent(k)) <= (b + k % b) * pow2(gap_exponent(k))) by (nonlinear_arith);
}

/// No double lies closer to a quotient than the one it rounds to; where another one lies as close,
/// the even one is taken. Infinity takes the place of 2^1024.
pub proof fn nearest_is_closest(p: nat, q: nat, j: nat)
    requires
        q > 0,
        j <= INFINITE_ORDINAL,
    ensures
        ({
            let k = nearest(p, q);
            let off = magnitude(k) * q - p;
            let other = magnitude(j) * q - p;
            let size = if off < 0 {
                -off
            } else {
                off
            };
            let other_size = if other < 0 {
                -other
            } else {
                other
            };
            &&& size <= other_size
            &&& size == other_size && j != k ==> k % 2 == 0
        }),
{
    let k = nearest(p, q);
    lemma_nearest(p, q);
    let (m, n) = (magnitude(k), magnitude(j));
    if j < k {
        let below = magnitude((k - 1) as nat);
        if j < k - 1 {
            lemma_magnitude_increases(j, (k - 1) as nat);
        }
        lemma_magnitude_step((k - 1) as nat);
        assert(n * q <= below * q && below * q < m * q && (below + m) * q == below * q + m * q)
            by (nonlinear_arith)
            requires
                n <= below < m,
                q > 0,
        ;
    } else if k < j {
        let above = magnitude(k + 1);
        if k + 1 < j {
            lemma_magnitude_increases(k + 1, j);
        }
        lemma_magnitude_step(k);
        assert(above * q <= n * q && m * q < above * q && (m + above) * q == m * q + above * q)
            by (nonlinear_arith)
            requires
                m < above <= n,
                q > 0,
        ;
    }
}

} // verus!
