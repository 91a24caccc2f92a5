//! Double precision numbers as bit patterns, with correctly rounded arithmetic on them.
use crate::rounding;
use crate::rounding::{BINADE, INFINITE_ORDINAL};
use vstd::arithmetic::power2::*;
use vstd::prelude::*;

verus! {

/// 2^63, the place of the sign.
pub const SIGN: u64 = 0x8000_0000_0000_0000;

/// The quiet NaN that every invalid operation gives.
pub const QUIET_NAN: u64 = 0x7ff8_0000_0000_0000;

/// The exponent of one, in units of 2^-1074.
pub const UNIT_EXPONENT: u32 = 1074;

/// What `round_quotient` adds to an exponent so that it does not become negative.
const BIAS: u32 = 1200;

/// A double precision number, given by its IEEE 754 bit pattern. `==` compares bit patterns; the
/// order of numbers is that of `lt` and `le`.
#[derive(Debug, Clone, Copy, PartialEq, Eq, Structural)]
pub struct Binary64 {
    pub bits: u64,
}

/// The double nearest to `p / q`, in units of 2^-1074, with the given sign.
pub open spec fn rounded(negative: bool, p: nat, q: nat) -> Binary64 {
    signed(negative, rounding::nearest(p, q))
}

/// The double of the given sign and ordinal.
pub open spec fn signed(negative: bool, ordinal: nat) -> Binary64 {
    Binary64 {
        bits: (ordinal + if negative {
            SIGN as nat
        } else {
            0
        }) as u64,
    }
}

/// The absolute value of an integer.
pub open spec fn abs(x: int) -> nat {
    if x < 0 {
        (-x) as nat
    } else {
        x as nat
    }
}

impl Binary64 {
    pub open spec fn negative(self) -> bool {
        self.bits >= SIGN
    }

    /// The place of this number, without its sign, among the non-negative doubles.
    pub open spec fn ordinal(self) -> nat {
        self.bits as nat % (SIGN as nat)
    }

    pub open spec fn nan(self) -> bool {
        self.ordinal() > INFINITE_ORDINAL
    }

    pub open spec fn infinite(self) -> bool {
        self.ordinal() == INFINITE_ORDINAL
    }

    pub open spec fn finite(self) -> bool {
        self.ordinal() < INFINITE_ORDINAL
    }

    /// This number in units of 2^-1074; an infinity counts as 2^1024 with its sign.
    pub open spec fn value(self) -> int {
        if self.negative() {
            -(rounding::magnitude(self.ordinal()) as int)
        } else {
            rounding::magnitude(self.ordinal()) as int
        }
    }
}

/// The sum `a + b`.
#[verifier::opaque]
pub open spec fn sum(a: Binary64, b: Binary64) -> Binary64 {
    if a.nan() || b.nan() {
        Binary64 { bits: QUIET_NAN }
    } else if a.infinite() {
        if b.infinite() && a.negative() != b.negative() {
            Binary64 { bits: QUIET_NAN }
        } else {
            a
        }
    } else if b.infinite() {
        b
    } else {
        let exact = a.value() + b.value();
        if exact == 0 {
            signed(a.negative() && b.negative(), 0)
        } else {
            rounded(exact < 0, abs(exact), 1)
        }
    }
}

/// `-a`.
pub open spec fn negation(a: Binary64) -> Binary64 {
    Binary64 {
        bits: if a.negative() {
            (a.bits - SIGN) as u64
        } else {
            (a.bits + SIGN) as u64
        },
    }
}

/// The difference `a - b`.
pub open spec fn difference(a: Binary64, b: Binary64) -> Binary64 {
    sum(a, negation(b))
}

/// The product `a * b`.
#[verifier::opaque]
pub open spec fn product(a: Binary64, b: Binary64) -> Binary64 {
    let negative = a.negative() != b.negative();
    if a.nan() || b.nan() {
        Binary64 { bits: QUIET_NAN }
    } else if a.infinite() || b.infinite() {
        if a.value() == 0 || b.value() == 0 {
            Binary64 { bits: QUIET_NAN }
        } else {
            signed(negative, INFINITE_ORDINAL as nat)
        }
    } else {
        rounded(negative, abs(a.value()) * abs(b.value()), pow2(UNIT_EXPONENT as nat))
    }
}

/// The quotient `a / b`.
#[verifier::opaque]
pub open spec fn quotient(a: Binary64, b: Binary64) -> Binary64 {
    let negative = a.negative() != b.negative();
    if a.nan() || b.nan() || (a.infinite() && b.infinite()) || (a.value() == 0 && b.value() == 0) {
        Binary64 { bits: QUIET_NAN }
    } else if a.infinite() || b.value() == 0 {
        signed(negative, INFINITE_ORDINAL as nat)
    } else if b.infinite() {
        signed(negative, 0)
    } else {
        rounded(negative, abs(a.value()) * pow2(UNIT_EXPONENT as nat), abs(b.value()))
    }
}

/// The double nearest to the integer `n`.
pub open spec fn integer(n: nat) -> Binary64 {
    rounded(false, n * pow2(UNIT_EXPONENT as nat), 1)
}

/// `num / den`, each rounded to a double first.
pub open spec fn ratio_of(num: nat, den: nat) -> Binary64 {
    quotient(integer(num), integer(den))
}

/// `a < b`.
pub open spec fn less(a: Binary64, b: Binary64) -> bool {
    !a.nan() && !b.nan() && a.value() < b.value()
}

/// `a <= b`.
pub open spec fn at_most(a: Binary64, b: Binary64) -> bool {
    !a.nan() && !b.nan() && a.value() <= b.value()
}

/// `a` without its sign.
pub open spec fn absolute(a: Binary64) -> Binary64 {
    Binary64 { bits: (a.bits % SIGN) as u64 }
}

/// Zero.
pub open spec fn zero() -> Binary64 {
    Binary64 { bits: 0 }
}

/// The smaller of two numbers; a NaN gives way to the other one.
pub open spec fn smaller(a: Binary64, b: Binary64) -> Binary64 {
    if a.nan() || less(b, a) {
        b
    } else {
        a
    }
}

/// Rounds the quotient `p / q` (in units of 2^-1074), of which `m` holds the leading digits:
/// `m * 2^e` is at most the quotient and `(m + 1) * 2^e` is above it, with `e = biased - BIAS`.
/// `inexact` says that the quotient is not `m * 2^e` itself.
fn round_quotient(m: u128, biased: u32, inexact: bool, Ghost(p): Ghost<nat>, Ghost(q): Ghost<nat>) -> (k: u64)
    requires
        q > 0,
        biased <= 6000,
        m * (pow2(biased as nat) * q) <= p * pow2(BIAS as nat),
        p * pow2(BIAS as nat) < (m + 1) * (pow2(biased as nat) * q),
        inexact == (m * (pow2(biased as nat) * q) != p * pow2(BIAS as nat)),
        inexact ==> m >= 4 * BINADE,
    ensures
        k == rounding::nearest(p, q),
        k <= INFINITE_ORDINAL,
{
    let ghost x: nat = p * pow2(BIAS as nat);
    // The quotient is (n + half / 2 + d / 2) * 2^e with 0 <= d < 1, and d is zero iff not `below`.
    let mut n: u128 = m / 2;
    let mut half: u128 = m % 2;
    let mut exp: u32 = biased + 1;
    let mut below: bool = inexact;
    proof {
        lemma_pow2_unfold(exp as nat);
        lemma_pow2_pos(biased as nat);
        let u = pow2(biased as nat) * q;
        assert(pow2(exp as nat) * q == 2 * u) by (nonlinear_arith)
            requires
                pow2(exp as nat) == 2 * pow2(biased as nat),
                u == pow2(biased as nat) * q,
        ;
        assert((2 * n + half) * (2 * u) == 2 * (m * u)) by (nonlinear_arith)
            requires
                2 * n + half == m,
        ;
        assert((m + 1) * u == m * u + u) by (nonlinear_arith);
    }
    proof {
        assert(pow2(0) == 1) by {
            lemma2_to64();
        }
        assert(n * pow2(0) == n) by (nonlinear_arith)
            requires
                pow2(0) == 1,
        ;
    }
    while n >= 2 * BINADE as u128 || exp < BIAS
        invariant
            q > 0,
            biased <= 6000,
            biased < exp,
            n * pow2((exp - biased - 1) as nat) <= u128::MAX,
            half <= 1,
            (2 * n + half) * (pow2(exp as nat) * q) <= 2 * x,
            2 * x < (2 * n + half) * (pow2(exp as nat) * q) + pow2(exp as nat) * q,
            below == ((2 * n + half) * (pow2(exp as nat) * q) != 2 * x),
            below ==> n >= BINADE || exp <= BIAS,
        decreases n, BIAS - exp,
    {
        let ghost g = (exp - biased - 1) as nat;
        let ghost u = pow2(exp as nat) * q;
        let ghost (n0, h0) = (n as int, half as int);
        proof {
            if exp >= BIAS && g >= 128 {
                lemma_power_of_128();
                if g > 128 {
                    lemma_pow2_strictly_increases(128, g);
                }
                assert(n * pow2(g) >= pow2(128)) by (nonlinear_arith)
                    requires
                        n >= 1,
                        pow2(g) >= pow2(128),
                ;
            }
            lemma_pow2_unfold((exp + 1) as nat);
            lemma_pow2_unfold(g + 1);
            lemma_pow2_pos(exp as nat);
            assert(u > 0) by (nonlinear_arith)
                requires
                    u == pow2(exp as nat) * q,
                    q > 0,
                    pow2(exp as nat) > 0,
            ;
        }
        below = below || half == 1;
        half = n % 2;
        n = n / 2;
        exp = exp + 1;
        proof {
            assert(pow2(exp as nat) * q == 2 * u) by (nonlinear_arith)
                requires
                    pow2(exp as nat) == 2 * pow2((exp - 1) as nat),
                    u == pow2((exp - 1) as nat) * q,
            ;
            assert((2 * n + half) * (2 * u) == (2 * n0 + h0) * u - h0 * u) by (nonlinear_arith)
                requires
                    2 * n + half == n0,
            ;
            assert(h0 * u == 0 || h0 * u == u) by (nonlinear_arith)
                requires
                    h0 == 0 || h0 == 1,
            ;
            assert(h0 * u == 0 <==> h0 == 0) by (nonlinear_arith)
                requires
                    h0 == 0 || h0 == 1,
                    u > 0,
            ;
            assert(n * pow2(g + 1) <= n0 * pow2(g)) by (nonlinear_arith)
                requires
                    2 * n <= n0,
                    pow2(g + 1) == 2 * pow2(g),
            ;
        }
    }
    while n < BINADE as u128 && exp > BIAS
        invariant
            q > 0,
            BIAS <= exp,
            n < 2 * BINADE,
            half <= 1,
            (2 * n + half) * (pow2(exp as nat) * q) <= 2 * x,
            2 * x < (2 * n + half) * (pow2(exp as nat) * q) + pow2(exp as nat) * q,
            below == ((2 * n + half) * (pow2(exp as nat) * q) != 2 * x),
            below ==> n >= BINADE || exp <= BIAS,
        decreases exp,
    {
        let ghost (n0, h0) = (n as int, half as int);
        let ghost u = pow2((exp - 1) as nat) * q;
        n = 2 * n + half;
        half = 0;
        exp = exp - 1;
        proof {
            lemma_pow2_unfold((exp + 1) as nat);
            lemma_pow2_pos(exp as nat);
            assert(pow2((exp + 1) as nat) * q == 2 * u) by (nonlinear_arith)
                requires
                    pow2((exp + 1) as nat) == 2 * pow2(exp as nat),
                    u == pow2(exp as nat) * q,
            ;
            assert((2 * n + half) * u == (2 * n0 + h0) * (2 * u)) by (nonlinear_arith)
                requires
                    n == 2 * n0 + h0,
                    half == 0,
            ;
            assert(u > 0) by (nonlinear_arith)
                requires
                    u == pow2(exp as nat) * q,
                    q > 0,
                    pow2(exp as nat) > 0,
            ;
        }
    }
    let t: u32 = exp - BIAS;
    proof {
        let w = pow2(BIAS as nat);
        let v = pow2(t as nat) * q;
        lemma_pow2_pos(BIAS as nat);
        lemma_pow2_adds(t as nat, BIAS as nat);
        assert(pow2(exp as nat) * q == v * w) by (nonlinear_arith)
            requires
                pow2(exp as nat) == pow2(t as nat) * w,
                v == pow2(t as nat) * q,
        ;
        let c = (2 * n + half) as nat;
        assert(c * (v * w) == (c * v) * w) by (nonlinear_arith);
        assert(2 * x == (2 * p) * w) by (nonlinear_arith)
            requires
                x == p * w,
        ;
        assert(c * v <= 2 * p) by (nonlinear_arith)
            requires
                (c * v) * w <= (2 * p) * w,
                w > 0,
        ;
        assert(2 * p < c * v + v) by (nonlinear_arith)
            requires
                (2 * p) * w < (c * v) * w + v * w,
                w > 0,
        ;
        assert(c * v == 2 * p <==> (c * v) * w == (2 * p) * w) by (nonlinear_arith)
            requires
                w > 0,
        ;
        lemma_round_digits(p, q, n as nat, t as nat, half as nat, below);
    }
    if t >= 2046 {
        return INFINITE_ORDINAL;
    }
    let k: u64 = t as u64 * BINADE + n as u64;
    if half == 1 && (below || n % 2 == 1) {
        k + 1
    } else {
        k
    }
}

/// Which ordinal `(n + half / 2 + d / 2) * 2^t` rounds to, where `0 <= d < 1` and `d` is zero iff
/// not `below`.
proof fn lemma_round_digits(p: nat, q: nat, n: nat, t: nat, half: nat, below: bool)
    requires
        q > 0,
        half <= 1,
        n < 2 * BINADE,
        n >= BINADE || t == 0,
        (2 * n + half) * (pow2(t) * q) <= 2 * p,
        2 * p < (2 * n + half) * (pow2(t) * q) + pow2(t) * q,
        below == ((2 * n + half) * (pow2(t) * q) != 2 * p),
    ensures
        ({
            let k = t * BINADE + n;
            if t >= 2046 {
                rounding::nearest(p, q) == INFINITE_ORDINAL
            } else if half == 1 && (below || n % 2 == 1) {
                rounding::nearest(p, q) == k + 1 <= INFINITE_ORDINAL
            } else {
                rounding::nearest(p, q) == k <= INFINITE_ORDINAL
            }
        }),
{
    let b = BINADE as nat;
    let k = (t * b + n) as nat;
    let g = pow2(t);
    let v = g * q;
    lemma_pow2_pos(t);
    lemma_digits_ordinal(n, t);
    let below_k = rounding::magnitude(k);
    let above_k = rounding::magnitude(k + 1);
    rounding::lemma_magnitude_step(k);
    assert(above_k == (n + 1) * g) by (nonlinear_arith)
        requires
            above_k == below_k + g,
            below_k == n * g,
    ;
    assert(below_k * q == n * v && above_k * q == n * v + v) by (nonlinear_arith)
        requires
            below_k == n * g,
            above_k == (n + 1) * g,
            v == g * q,
    ;
    assert((below_k + above_k) * q == 2 * (n * v) + v) by (nonlinear_arith)
        requires
            below_k * q == n * v,
            above_k * q == n * v + v,
    ;
    assert((2 * n + half) * v == 2 * (n * v) + half * v) by (nonlinear_arith);
    assert(half * v == if half == 0 { 0 } else { v }) by (nonlinear_arith)
        requires
            half == 0 || half == 1,
    ;
    assert(v > 0) by (nonlinear_arith)
        requires
            v == g * q,
            g > 0,
            q > 0,
    ;
    rounding::lemma_nearest(p, q);
    let top = INFINITE_ORDINAL as nat;
    if t >= 2046 {
        assert(k >= top) by (nonlinear_arith)
            requires
                k == t * b + n,
                t >= 2046,
                n >= b,
                top == 2047 * b,
        ;
        if k > top {
            rounding::lemma_magnitude_increases(top, k);
        }
        rounding::lemma_magnitude_step((top - 1) as nat);
        let mt = rounding::magnitude(top);
        let ms = rounding::magnitude((top - 1) as nat);
        assert((ms + mt) * q < 2 * p) by (nonlinear_arith)
            requires
                ms < mt,
                mt <= below_k,
                2 * (below_k * q) <= 2 * p,
                q > 0,
        ;
        assert(rounding::rounds_to(p, q, top));
    } else {
        assert(k < top) by (nonlinear_arith)
            requires
                k == t * b + n,
                t <= 2045,
                n < 2 * b,
                top == 2047 * b,
        ;
        assert(k % 2 == n % 2) by (nonlinear_arith)
            requires
                k == t * b + n,
                b == 0x10_0000_0000_0000,
        ;
        if half == 1 && (below || n % 2 == 1) {
            rounding::lemma_magnitude_step(k + 1);
            let next = rounding::magnitude(k + 2);
            assert(2 * p < (above_k + next) * q) by (nonlinear_arith)
                requires
                    above_k < next,
                    2 * p < 2 * (above_k * q),
                    q > 0,
            ;
            assert((k + 1) % 2 == 1 - n % 2);
            assert(rounding::rounds_to(p, q, k + 1));
        } else {
            if k > 0 {
                rounding::lemma_magnitude_step((k - 1) as nat);
                let prev = rounding::magnitude((k - 1) as nat);
                assert((prev + below_k) * q < 2 * p) by (nonlinear_arith)
                    requires
                        prev < below_k,
                        2 * (below_k * q) <= 2 * p,
                        q > 0,
                ;
            }
            assert(rounding::rounds_to(p, q, k));
        }
    }
}

/// The ordinal of the double whose digits are `n` and whose last place counts `2^t`.
pub proof fn lemma_digits_ordinal(n: nat, t: nat)
    requires
        n < 2 * BINADE,
        n >= BINADE || t == 0,
    ensures
        rounding::magnitude((t * BINADE + n) as nat) == n * pow2(t),
        rounding::gap_exponent((t * BINADE + n) as nat) == t,
{
    let b = BINADE as nat;
    let k = (t * b + n) as nat;
    if n < b {
        assert(k == n) by (nonlinear_arith)
            requires
                k == t * b + n,
                t == 0,
        ;
        lemma2_to64();
        assert(n * pow2(0) == n) by (nonlinear_arith)
            requires
                pow2(0) == 1,
        ;
    } else {
        let r = (n - b) as nat;
        assert(k / b == t + 1 && k % b == r) by (nonlinear_arith)
            requires
                k == t * b + n,
                n == b + r,
                r < b,
                b == 0x10_0000_0000_0000,
        ;
    }
}

/// 2^128 is one more than the largest `u128`.
proof fn lemma_power_of_128()
    ensures
        pow2(128) == u128::MAX + 1,
{
    lemma2_to64();
    lemma_pow2_adds(64, 64);
}

/// The parts of a number that is not a NaN and not infinite: its digits and the exponent of its
/// last place, so that its magnitude is `digits * 2^exponent`.
fn digits(ordinal: u64) -> (parts: (u64, u32))
    requires
        ordinal < INFINITE_ORDINAL,
    ensures
        rounding::magnitude(ordinal as nat) == parts.0 * pow2(parts.1 as nat),
        parts.0 < 2 * BINADE,
        parts.1 == rounding::gap_exponent(ordinal as nat),
        parts.1 <= 2045,
        parts.1 > 0 ==> parts.0 >= BINADE,
        parts.0 == 0 <==> ordinal == 0,
{
    if ordinal < BINADE {
        proof {
            lemma2_to64();
            assert(ordinal * pow2(0) == ordinal) by (nonlinear_arith)
                requires
                    pow2(0) == 1,
            ;
        }
        (ordinal, 0)
    } else {
        (BINADE + ordinal % BINADE, (ordinal / BINADE - 1) as u32)
    }
}

/// Only zero has the magnitude zero.
proof fn lemma_zero_ordinal(k: nat)
    ensures
        rounding::magnitude(k) == 0 <==> k == 0,
{
    if k > 0 {
        rounding::lemma_magnitude_increases(0, k);
    }
}

/// The digits of a positive number, shifted to the left end of their 53 places: its magnitude is
/// `digits * 2^(exponent - 64)`.
fn leading_digits(ordinal: u64) -> (parts: (u64, u32))
    requires
        0 < ordinal < INFINITE_ORDINAL,
    ensures
        rounding::magnitude(ordinal as nat) * pow2(64) == parts.0 * pow2(parts.1 as nat),
        BINADE <= parts.0 < 2 * BINADE,
        parts.1 <= 2109,
{
    let (d, e) = digits(ordinal);
    let mut n: u64 = d;
    let mut exp: u32 = e + 64;
    let ghost scaled: nat = rounding::magnitude(ordinal as nat) * pow2(64);
    proof {
        lemma_pow2_adds(e as nat, 64);
        lemma_pow2_pos(e as nat);
        lemma2_to64();
        assert(scaled == n * pow2(exp as nat)) by (nonlinear_arith)
            requires
                scaled == (d * pow2(e as nat)) * pow2(64),
                pow2(exp as nat) == pow2(e as nat) * pow2(64),
                n == d,
        ;
        assert(scaled >= pow2(64)) by (nonlinear_arith)
            requires
                scaled == (d * pow2(e as nat)) * pow2(64),
                d >= 1,
                pow2(e as nat) >= 1,
        ;
    }
    while n < BINADE
        invariant
            0 < n < 2 * BINADE,
            exp <= 2109,
            scaled == n * pow2(exp as nat),
            scaled >= pow2(64),
        decreases exp,
    {
        proof {
            lemma2_to64();
            assert(exp > 0) by {
                if exp == 0 {
                    assert(n * pow2(0) == n) by (nonlinear_arith)
                        requires
                            pow2(0) == 1,
                    ;
                }
            }
            lemma_pow2_unfold(exp as nat);
            assert((2 * n) * pow2((exp - 1) as nat) == n * pow2(exp as nat)) by (nonlinear_arith)
                requires
                    pow2(exp as nat) == 2 * pow2((exp - 1) as nat),
            ;
        }
        n = 2 * n;
        exp = exp - 1;
    }
    (n, exp)
}

/// Dividing digits by digits gives the leading digits of the quotient.
proof fn lemma_division_digits(ma: nat, mb: nat, na: nat, ea: nat, nb: nat, eb: nat, m: nat)
    requires
        ma * pow2(64) == na * pow2(ea),
        mb * pow2(64) == nb * pow2(eb),
        nb > 0,
        mb > 0,
        eb <= ea + 2204,
        m == (na * 0x40_0000_0000_0000_0000) / nb,
    ensures
        ({
            let x = (ma * pow2(UNIT_EXPONENT as nat)) * pow2(BIAS as nat);
            let u = pow2((ea + 2204 - eb) as nat) * mb;
            &&& m * u <= x
            &&& x < (m + 1) * u
            &&& (m * u != x) == ((na * 0x40_0000_0000_0000_0000) % nb != 0)
        }),
{
    let x = (ma * pow2(UNIT_EXPONENT as nat)) * pow2(BIAS as nat);
    let u = pow2((ea + 2204 - eb) as nat) * mb;
    let w = pow2(ea + 2204);
    let d = na * 0x40_0000_0000_0000_0000;
    let f = pow2(64);
    lemma2_to64();
    lemma_pow2_adds(64, 6);
    assert(pow2(70) == 0x40_0000_0000_0000_0000);
    lemma_pow2_adds(UNIT_EXPONENT as nat, BIAS as nat);
    lemma_pow2_adds(ea, 2274);
    lemma_pow2_adds(ea + 2204, 70);
    lemma_pow2_adds((ea + 2204 - eb) as nat, eb);
    lemma_pow2_pos(ea + 2204);
    assert(x * f == d * w) by (nonlinear_arith)
        requires
            x == (ma * pow2(1074)) * pow2(1200),
            pow2(2274) == pow2(1074) * pow2(1200),
            ma * f == na * pow2(ea),
            pow2(ea + 2274) == pow2(ea) * pow2(2274),
            pow2(ea + 2274) == w * pow2(70),
            d == na * pow2(70),
    {
        assert(x * f == (ma * f) * pow2(2274));
        assert(x * f == na * pow2(ea + 2274));
    }
    assert(u * f == nb * w) by (nonlinear_arith)
        requires
            u == pow2((ea + 2204 - eb) as nat) * mb,
            mb * f == nb * pow2(eb),
            w == pow2((ea + 2204 - eb) as nat) * pow2(eb),
    ;
    let r = d % nb;
    assert(d == m * nb + r && r < nb) by (nonlinear_arith)
        requires
            nb > 0,
            m == d / nb,
            r == d % nb,
    ;
    assert((m * u) * f == (m * nb) * w) by (nonlinear_arith)
        requires
            u * f == nb * w,
    ;
    assert(((m + 1) * u) * f == (m * nb) * w + nb * w) by (nonlinear_arith)
        requires
            u * f == nb * w,
    ;
    assert(d * w == (m * nb) * w + r * w) by (nonlinear_arith)
        requires
            d == m * nb + r,
    ;
    assert(r * w < nb * w && r * w >= 0 && (r * w == 0 <==> r == 0)) by (nonlinear_arith)
        requires
            0 <= r < nb,
            w > 0,
    ;
    assert(m * u <= x) by (nonlinear_arith)
        requires
            (m * u) * f <= x * f,
            f > 0,
    ;
    assert(x < (m + 1) * u) by (nonlinear_arith)
        requires
            x * f < ((m + 1) * u) * f,
            f > 0,
    ;
    assert(m * u == x <==> (m * u) * f == x * f) by (nonlinear_arith)
        requires
            f > 0,
    ;
}

/// 2 to the power `e`.
fn power_of_two(e: u32) -> (r: u128)
    requires
        e <= 64,
    ensures
        r == pow2(e as nat),
{
    let mut r: u128 = 1;
    let mut i: u32 = 0;
    proof {
        lemma2_to64();
    }
    while i < e
        invariant
            i <= e <= 64,
            r == pow2(i as nat),
        decreases e - i,
    {
        proof {
            lemma2_to64();
            if i < 64 {
                lemma_pow2_strictly_increases(i as nat, 64);
            }
            lemma_pow2_unfold((i + 1) as nat);
        }
        r = 2 * r;
        i = i + 1;
    }
    r
}

/// The ordinal of `a + b`, or of `a - b` where `subtract`, for the doubles of the ordinals `a` and
/// `b`.
fn add_ordinals(a: u64, b: u64, subtract: bool) -> (k: u64)
    requires
        b <= a < INFINITE_ORDINAL,
        subtract ==> b < a,
    ensures
        ({
            let (x, y) = (rounding::magnitude(a as nat) as int, rounding::magnitude(b as nat));
            k == rounding::nearest((if subtract { x - y } else { x + y }) as nat, 1)
        }),
        k <= INFINITE_ORDINAL,
{
    let (da, ea) = digits(a);
    let (db, eb) = digits(b);
    let ghost x = rounding::magnitude(a as nat) as int;
    let ghost y = rounding::magnitude(b as nat) as int;
    let ghost p: nat = (if subtract { x - y } else { x + y }) as nat;
    let ghost w = pow2(BIAS as nat);
    proof {
        if b < a {
            rounding::lemma_magnitude_increases(b as nat, a as nat);
        }
        rounding::lemma_exponents_ordered(a as nat, b as nat);
        lemma2_to64();
    }
    let d: u32 = ea - eb;
    if d <= 64 {
        let ghost u = pow2((eb + BIAS) as nat);
        let scale = power_of_two(d);
        proof {
            if d < 64 {
                lemma_pow2_strictly_increases(d as nat, 64);
            }
            lemma_pow2_pos(d as nat);
            assert(da * scale <= 2 * BINADE * 0x1_0000_0000_0000_0000) by (nonlinear_arith)
                requires
                    da < 2 * BINADE,
                    scale <= 0x1_0000_0000_0000_0000,
            ;
            lemma_pow2_pos((eb + BIAS) as nat);
            lemma_pow2_pos(eb as nat);
            lemma_pow2_adds(eb as nat, BIAS as nat);
            lemma_pow2_adds(d as nat, eb as nat);
            assert(x == (da * scale) * pow2(eb as nat)) by (nonlinear_arith)
                requires
                    x == da * pow2(ea as nat),
                    pow2(ea as nat) == scale * pow2(eb as nat),
            ;
            if subtract {
                assert(da * scale >= db) by (nonlinear_arith)
                    requires
                        (da * scale) * pow2(eb as nat) >= db * pow2(eb as nat),
                        pow2(eb as nat) > 0,
                ;
            }
        }
        let shifted: u128 = da as u128 * scale;
        let m: u128 = if subtract {
            shifted - db as u128
        } else {
            shifted + db as u128
        };
        proof {
            assert(p == m * pow2(eb as nat)) by (nonlinear_arith)
                requires
                    x == shifted * pow2(eb as nat),
                    y == db * pow2(eb as nat),
                    p == if subtract { x - y } else { x + y },
                    m == if subtract { shifted - db } else { shifted + db },
            ;
            assert(m * (u * 1) == p * w) by (nonlinear_arith)
                requires
                    p == m * pow2(eb as nat),
                    u == pow2(eb as nat) * w,
            ;
            assert((m + 1) * (u * 1) == m * (u * 1) + u) by (nonlinear_arith);
        }
        round_quotient(m, eb + BIAS, false, Ghost(p), Ghost(1))
    } else {
        let s: u32 = d - 64;
        let ghost v = pow2((eb + BIAS) as nat);
        let (quot, rem) = if s > 64 {
            (0, db as u128)
        } else {
            let unit = power_of_two(s);
            proof {
                lemma_pow2_pos(s as nat);
            }
            (db as u128 / unit, db as u128 % unit)
        };
        proof {
            if s > 64 {
                lemma_pow2_strictly_increases(64, s as nat);
                assert(0 * pow2(s as nat) == 0) by (nonlinear_arith);
            } else {
                let unit = pow2(s as nat);
                lemma_pow2_pos(s as nat);
                vstd::arithmetic::div_mod::lemma_fundamental_div_mod(db as int, unit as int);
                assert(quot * unit == unit * quot) by (nonlinear_arith);
                assert(quot <= db) by (nonlinear_arith)
                    requires
                        db == unit * quot + rem,
                        unit >= 1,
                        rem >= 0,
                        quot >= 0,
                ;
            }
            assert(db == quot * pow2(s as nat) + rem && rem < pow2(s as nat));
            lemma_pow2_pos((eb + BIAS) as nat);
            lemma_pow2_adds(ea as nat, BIAS as nat);
            lemma_pow2_adds(eb as nat, BIAS as nat);
            lemma_pow2_adds((eb + BIAS) as nat, s as nat);
            lemma_pow2_adds((eb + BIAS + s) as nat, 64);
        }
        let ghost u = pow2((eb + BIAS + s) as nat);
        let inexact = rem != 0;
        let shifted: u128 = da as u128 * 0x1_0000_0000_0000_0000;
        let m: u128 = if !subtract {
            shifted + quot
        } else if inexact {
            shifted - quot - 1
        } else {
            shifted - quot
        };
        proof {
            assert(x * w == shifted * u) by (nonlinear_arith)
                requires
                    x == da * pow2(ea as nat),
                    shifted == da * pow2(64),
                    pow2(ea as nat) * w == u * pow2(64),
            ;
            let low = rem * v;
            assert(y * w == quot * u + low) by (nonlinear_arith)
                requires
                    y == db * pow2(eb as nat),
                    db == quot * pow2(s as nat) + rem,
                    v == pow2(eb as nat) * w,
                    u == v * pow2(s as nat),
                    low == rem * v,
            {
                assert(y * w == db * v);
            }
            assert(0 <= low < u && (low == 0 <==> rem == 0)) by (nonlinear_arith)
                requires
                    low == rem * v,
                    0 <= rem < pow2(s as nat),
                    v > 0,
                    u == v * pow2(s as nat),
            ;
            assert(p * w == if subtract { x * w - y * w } else { x * w + y * w })
                by (nonlinear_arith)
                requires
                    p == if subtract { x - y } else { x + y },
            ;
            assert((shifted + quot) * u == shifted * u + quot * u) by (nonlinear_arith);
            assert((shifted - quot) * u == shifted * u - quot * u) by (nonlinear_arith);
            assert((shifted - quot - 1) * u == shifted * u - quot * u - u) by (nonlinear_arith);
            assert((m + 1) * u == m * u + u) by (nonlinear_arith);
            assert(u * 1 == u);
        }
        round_quotient(m, ea - 64 + BIAS, inexact, Ghost(p), Ghost(1))
    }
}

/// The bit pattern of the given sign and ordinal.
fn with_sign(negative: bool, ordinal: u64) -> (r: Binary64)
    requires
        ordinal <= INFINITE_ORDINAL,
    ensures
        r == signed(negative, ordinal as nat),
{
    if negative {
        Binary64 { bits: ordinal + SIGN }
    } else {
        Binary64 { bits: ordinal }
    }
}

impl Binary64 {
    /// The double nearest to `n`.
    pub fn from_u64(n: u64) -> (r: Binary64)
        ensures
            r == integer(n as nat),
    {
        let ghost p: nat = n as nat * pow2(UNIT_EXPONENT as nat);
        proof {
            let e = (UNIT_EXPONENT + BIAS) as nat;
            lemma_pow2_adds(UNIT_EXPONENT as nat, BIAS as nat);
            lemma_pow2_pos(e);
            assert(n * (pow2(e) * 1) == p * pow2(BIAS as nat)) by (nonlinear_arith)
                requires
                    p == n * pow2(UNIT_EXPONENT as nat),
                    pow2(e) == pow2(UNIT_EXPONENT as nat) * pow2(BIAS as nat),
            ;
            assert((n + 1) * (pow2(e) * 1) == n * (pow2(e) * 1) + pow2(e)) by (nonlinear_arith);
        }
        let k = round_quotient(n as u128, UNIT_EXPONENT + BIAS, false, Ghost(p), Ghost(1));
        with_sign(false, k)
    }

    /// Zero.
    pub fn zero() -> (r: Binary64)
        ensures
            r == zero(),
    {
        Binary64 { bits: 0 }
    }

    /// `self * other`.
    pub fn mul(self, other: Binary64) -> (r: Binary64)
        ensures
            r == product(self, other),
    {
        reveal(product);
        let negative = (self.bits >= SIGN) != (other.bits >= SIGN);
        let a: u64 = self.bits % SIGN;
        let b: u64 = other.bits % SIGN;
        proof {
            lemma_zero_ordinal(a as nat);
            lemma_zero_ordinal(b as nat);
        }
        if a > INFINITE_ORDINAL || b > INFINITE_ORDINAL {
            return Binary64 { bits: QUIET_NAN };
        }
        if a == INFINITE_ORDINAL || b == INFINITE_ORDINAL {
            if a == 0 || b == 0 {
                return Binary64 { bits: QUIET_NAN };
            }
            return with_sign(negative, INFINITE_ORDINAL);
        }
        let (da, ea) = digits(a);
        let (db, eb) = digits(b);
        let ghost p: nat = rounding::magnitude(a as nat) * rounding::magnitude(b as nat);
        let ghost q: nat = pow2(UNIT_EXPONENT as nat);
        assert(da * db < 4 * BINADE * BINADE) by (nonlinear_arith)
            requires
                da < 2 * BINADE,
                db < 2 * BINADE,
        ;
        let m: u128 = da as u128 * db as u128;
        let biased: u32 = ea + eb + (BIAS - UNIT_EXPONENT);
        proof {
            let w = pow2(BIAS as nat);
            lemma_pow2_pos(biased as nat);
            lemma_pow2_pos(UNIT_EXPONENT as nat);
            lemma_pow2_adds(biased as nat, UNIT_EXPONENT as nat);
            lemma_pow2_adds(ea as nat, eb as nat);
            lemma_pow2_adds((ea + eb) as nat, BIAS as nat);
            let u = pow2(biased as nat) * q;
            assert(m * u == p * w) by (nonlinear_arith)
                requires
                    m == da * db,
                    u == (pow2(ea as nat) * pow2(eb as nat)) * w,
                    p == (da * pow2(ea as nat)) * (db * pow2(eb as nat)),
            ;
            assert(u > 0) by (nonlinear_arith)
                requires
                    u == pow2(biased as nat) * q,
                    pow2(biased as nat) > 0,
                    q > 0,
            ;
            assert((m + 1) * u == m * u + u) by (nonlinear_arith);
        }
        let k = round_quotient(m, biased, false, Ghost(p), Ghost(q));
        with_sign(negative, k)
    }

    /// `self / other`.
    pub fn div(self, other: Binary64) -> (r: Binary64)
        ensures
            r == quotient(self, other),
    {
        reveal(quotient);
        let negative = (self.bits >= SIGN) != (other.bits >= SIGN);
        let a: u64 = self.bits % SIGN;
        let b: u64 = other.bits % SIGN;
        proof {
            lemma_zero_ordinal(a as nat);
            lemma_zero_ordinal(b as nat);
        }
        if a > INFINITE_ORDINAL || b > INFINITE_ORDINAL || (a == INFINITE_ORDINAL && b
            == INFINITE_ORDINAL) || (a == 0 && b == 0) {
            return Binary64 { bits: QUIET_NAN };
        }
        if a == INFINITE_ORDINAL || b == 0 {
            return with_sign(negative, INFINITE_ORDINAL);
        }
        if b == INFINITE_ORDINAL {
            return with_sign(negative, 0);
        }
        let ghost p: nat = rounding::magnitude(a as nat) * pow2(UNIT_EXPONENT as nat);
        let ghost q: nat = rounding::magnitude(b as nat);
        if a == 0 {
            proof {
                assert(p == 0 * q) by (nonlinear_arith)
                    requires
                        p == 0 * pow2(UNIT_EXPONENT as nat),
                ;
                rounding::lemma_nearest_exact(p, q, 0);
            }
            return with_sign(negative, 0);
        }
        let (na, ea) = leading_digits(a);
        let (nb, eb) = leading_digits(b);
        // The digits of the dividend, 70 places to the left; the exponent of their quotient is
        // `ea - eb + UNIT_EXPONENT - 70`.
        let dividend: u128 = na as u128 * 0x40_0000_0000_0000_0000;
        let m: u128 = dividend / nb as u128;
        let biased: u32 = ea + 2204 - eb;
        let inexact = dividend % nb as u128 != 0;
        proof {
            lemma_division_digits(
                rounding::magnitude(a as nat),
                q,
                na as nat,
                ea as nat,
                nb as nat,
                eb as nat,
                m as nat,
            );
            assert(m >= 4 * BINADE) by (nonlinear_arith)
                requires
                    m == dividend / nb as u128,
                    dividend == na * 0x40_0000_0000_0000_0000,
                    na >= BINADE,
                    nb < 2 * BINADE,
                    nb > 0,
                    BINADE == 0x10_0000_0000_0000,
            ;
        }
        let k = round_quotient(m, biased, inexact, Ghost(p), Ghost(q));
        with_sign(negative, k)
    }

    /// `self + other`.
    pub fn add(self, other: Binary64) -> (r: Binary64)
        ensures
            r == sum(self, other),
    {
        reveal(sum);
        let a: u64 = self.bits % SIGN;
        let b: u64 = other.bits % SIGN;
        let na = self.bits >= SIGN;
        let nb = other.bits >= SIGN;
        if a > INFINITE_ORDINAL || b > INFINITE_ORDINAL {
            return Binary64 { bits: QUIET_NAN };
        }
        if a == INFINITE_ORDINAL {
            if b == INFINITE_ORDINAL && na != nb {
                return Binary64 { bits: QUIET_NAN };
            }
            return self;
        }
        if b == INFINITE_ORDINAL {
            return other;
        }
        proof {
            lemma_zero_ordinal(a as nat);
            lemma_zero_ordinal(b as nat);
            if a < b {
                rounding::lemma_magnitude_increases(a as nat, b as nat);
            }
            if b < a {
                rounding::lemma_magnitude_increases(b as nat, a as nat);
            }
        }
        if a == b && (na != nb || a == 0) {
            with_sign(na && nb, 0)
        } else if a >= b {
            with_sign(na, add_ordinals(a, b, na != nb))
        } else {
            with_sign(nb, add_ordinals(b, a, na != nb))
        }
    }

    /// `-self`.
    pub fn neg(self) -> (r: Binary64)
        ensures
            r == negation(self),
    {
        if self.bits >= SIGN {
            Binary64 { bits: self.bits - SIGN }
        } else {
            Binary64 { bits: self.bits + SIGN }
        }
    }

    /// `self - other`.
    pub fn sub(self, other: Binary64) -> (r: Binary64)
        ensures
            r == difference(self, other),
    {
        self.add(other.neg())
    }

    /// `self` without its sign.
    pub fn abs(self) -> (r: Binary64)
        ensures
            r == absolute(self),
    {
        Binary64 { bits: self.bits % SIGN }
    }

    /// `self < other`.
    pub fn lt(self, other: Binary64) -> (r: bool)
        ensures
            r == less(self, other),
    {
        let a: u64 = self.bits % SIGN;
        let b: u64 = other.bits % SIGN;
        if a > INFINITE_ORDINAL || b > INFINITE_ORDINAL {
            return false;
        }
        proof {
            lemma_zero_ordinal(a as nat);
            lemma_zero_ordinal(b as nat);
            if a < b {
                rounding::lemma_magnitude_increases(a as nat, b as nat);
            }
            if b < a {
                rounding::lemma_magnitude_increases(b as nat, a as nat);
            }
        }
        if self.bits >= SIGN {
            if other.bits >= SIGN {
                b < a
            } else {
                a > 0 || b > 0
            }
        } else {
            other.bits < SIGN && a < b
        }
    }

    /// `self <= other`.
    pub fn le(self, other: Binary64) -> (r: bool)
        ensures
            r == at_most(self, other),
    {
        let a: u64 = self.bits % SIGN;
        let b: u64 = other.bits % SIGN;
        a <= INFINITE_ORDINAL && b <= INFINITE_ORDINAL && !other.lt(self)
    }

    /// The smaller of two numbers; a NaN gives way to the other one.
    pub fn min(self, other: Binary64) -> (r: Binary64)
        ensures
            r == smaller(self, other),
    {
        if self.bits % SIGN > INFINITE_ORDINAL || other.lt(self) {
            other
        } else {
            self
        }
    }

    /// `num / den`, each rounded to a double first; for a decimal fraction, the double nearest to it.
    pub fn ratio(num: u64, den: u64) -> (r: Binary64)
        ensures
            r == ratio_of(num as nat, den as nat),
    {
        Binary64::from_u64(num).div(Binary64::from_u64(den))
    }
}

} // verus!
