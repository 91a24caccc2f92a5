//! What holds of rounded arithmetic: it keeps the order of numbers, and it is exact where the
//! result is a double.
use crate::binary64;
use crate::binary64::Binary64;
use crate::binary64::SIGN;
use crate::binary64::UNIT_EXPONENT;
use crate::rounding;
use crate::rounding::BINADE;
use crate::rounding::INFINITE_ORDINAL;
use vstd::arithmetic::power2::*;
use vstd::prelude::*;

verus! {

/// `a` is a number, and at least zero.
pub open spec fn non_negative(a: Binary64) -> bool {
    !a.nan() && a.value() >= 0
}

/// One, in units of 2^-1074.
pub open spec fn one() -> nat {
    pow2(UNIT_EXPONENT as nat)
}

/// `a` is a number from zero to one.
pub open spec fn in_unit_interval(a: Binary64) -> bool {
    !a.nan() && 0 <= a.value() <= one()
}

/// What a sign and an ordinal stand for.
pub proof fn signed_parts(negative: bool, ordinal: nat)
    requires
        ordinal <= INFINITE_ORDINAL,
    ensures
        ({
            let r = binary64::signed(negative, ordinal);
            &&& r.ordinal() == ordinal
            &&& r.negative() == negative
            &&& r.value() == if negative {
                -(rounding::magnitude(ordinal) as int)
            } else {
                rounding::magnitude(ordinal) as int
            }
        }),
{
}

/// A number is not changed by rounding.
pub proof fn lemma_value_exact(a: Binary64)
    requires
        !a.nan(),
    ensures
        rounding::nearest(binary64::abs(a.value()), 1) == a.ordinal(),
        binary64::abs(a.value()) == rounding::magnitude(a.ordinal()),
        binary64::abs(a.value()) <= rounding::magnitude(INFINITE_ORDINAL as nat),
        a.infinite() <==> binary64::abs(a.value()) == rounding::magnitude(
            INFINITE_ORDINAL as nat,
        ),
{
    let m = rounding::magnitude(a.ordinal());
    assert(m == m * 1);
    rounding::lemma_nearest_exact(m, 1, a.ordinal());
    if a.ordinal() < INFINITE_ORDINAL {
        rounding::lemma_magnitude_increases(a.ordinal(), INFINITE_ORDINAL as nat);
    }
}

/// A larger ordinal stands for a larger or equal magnitude.
proof fn lemma_magnitude_ordered(i: nat, j: nat)
    requires
        i <= j,
    ensures
        rounding::magnitude(i) <= rounding::magnitude(j),
{
    if i < j {
        rounding::lemma_magnitude_increases(i, j);
    }
}

/// The ordinal that a quotient rounds to is a number.
proof fn lemma_nearest_bounded(p: nat, q: nat)
    requires
        q > 0,
    ensures
        rounding::nearest(p, q) <= INFINITE_ORDINAL,
{
    rounding::lemma_nearest(p, q);
}

/// The sum of numbers that are not negative is not below either of them.
pub proof fn sum_not_below_terms(a: Binary64, b: Binary64)
    requires
        non_negative(a),
        non_negative(b),
    ensures
        non_negative(binary64::sum(a, b)),
        a.value() <= binary64::sum(a, b).value(),
        b.value() <= binary64::sum(a, b).value(),
{
    reveal(binary64::sum);
    lemma_value_exact(a);
    lemma_value_exact(b);
    rounding::lemma_magnitude_step(0);
    if a.infinite() || b.infinite() {
        lemma_magnitude_ordered(a.ordinal(), INFINITE_ORDINAL as nat);
        lemma_magnitude_ordered(b.ordinal(), INFINITE_ORDINAL as nat);
        lemma_infinite_not_zero();
    } else {
        let exact = a.value() + b.value();
        signed_parts(a.negative() && b.negative(), 0);
        if exact != 0 {
            let k = rounding::nearest(exact as nat, 1);
            lemma_nearest_bounded(exact as nat, 1);
            signed_parts(false, k);
            rounding::lemma_nearest_monotone(a.value() as nat, 1, exact as nat, 1);
            rounding::lemma_nearest_monotone(b.value() as nat, 1, exact as nat, 1);
            lemma_magnitude_ordered(a.ordinal(), k);
            lemma_magnitude_ordered(b.ordinal(), k);
        }
    }
}

/// Infinity is not zero.
proof fn lemma_infinite_not_zero()
    ensures
        rounding::magnitude(INFINITE_ORDINAL as nat) > 0,
{
    rounding::lemma_magnitude_increases(0, INFINITE_ORDINAL as nat);
}

/// The sum of numbers that are not negative grows with its terms.
pub proof fn sum_monotone(a1: Binary64, b1: Binary64, a2: Binary64, b2: Binary64)
    requires
        non_negative(a1),
        non_negative(b1),
        a1.value() <= a2.value(),
        b1.value() <= b2.value(),
        !a2.nan(),
        !b2.nan(),
    ensures
        binary64::sum(a1, b1).value() <= binary64::sum(a2, b2).value(),
{
    reveal(binary64::sum);
    let s1 = binary64::sum(a1, b1);
    let s2 = binary64::sum(a2, b2);
    sum_not_below_terms(a1, b1);
    sum_not_below_terms(a2, b2);
    lemma_value_exact(a1);
    lemma_value_exact(b1);
    lemma_value_exact(a2);
    lemma_value_exact(b2);
    lemma_value_exact(s1);
    if !a2.infinite() && !b2.infinite() {
        let e1 = a1.value() + b1.value();
        let e2 = a2.value() + b2.value();
        signed_parts(a1.negative() && b1.negative(), 0);
        if e1 != 0 {
            let k1 = rounding::nearest(e1 as nat, 1);
            let k2 = rounding::nearest(e2 as nat, 1);
            lemma_nearest_bounded(e1 as nat, 1);
            lemma_nearest_bounded(e2 as nat, 1);
            rounding::lemma_nearest_monotone(e1 as nat, 1, e2 as nat, 1);
            signed_parts(false, k1);
            signed_parts(false, k2);
            lemma_magnitude_ordered(k1, k2);
        }
    }
}

/// A number that is not negative, times a positive finite factor, is not negative, and it grows
/// with the number.
pub proof fn product_monotone(a1: Binary64, a2: Binary64, c: Binary64)
    requires
        non_negative(a1),
        !a2.nan(),
        a1.value() <= a2.value(),
        c.finite(),
        c.value() > 0,
    ensures
        non_negative(binary64::product(a1, c)),
        non_negative(binary64::product(a2, c)),
        binary64::product(a1, c).value() <= binary64::product(a2, c).value(),
{
    lemma_product_rounded(a1, c);
    lemma_product_rounded(a2, c);
    let q = one();
    lemma_pow2_pos(UNIT_EXPONENT as nat);
    if a2.infinite() {
        lemma_value_exact(binary64::product(a1, c));
    } else {
        lemma_value_exact(a1);
        lemma_value_exact(a2);
        let p1 = binary64::abs(a1.value()) * binary64::abs(c.value());
        let p2 = binary64::abs(a2.value()) * binary64::abs(c.value());
        assert(p1 * q <= p2 * q) by (nonlinear_arith)
            requires
                p1 == binary64::abs(a1.value()) * binary64::abs(c.value()),
                p2 == binary64::abs(a2.value()) * binary64::abs(c.value()),
                binary64::abs(a1.value()) <= binary64::abs(a2.value()),
        ;
        rounding::lemma_nearest_monotone(p1, q, p2, q);
        lemma_magnitude_ordered(rounding::nearest(p1, q), rounding::nearest(p2, q));
    }
}

/// The value of a product of a number that is not negative and a positive finite factor.
proof fn lemma_product_rounded(a: Binary64, c: Binary64)
    requires
        non_negative(a),
        c.finite(),
        c.value() > 0,
    ensures
        non_negative(binary64::product(a, c)),
        binary64::product(a, c).value() == if a.infinite() {
            rounding::magnitude(INFINITE_ORDINAL as nat)
        } else {
            rounding::magnitude(
                rounding::nearest(binary64::abs(a.value()) * binary64::abs(c.value()), one()),
            )
        },
{
    reveal(binary64::product);
    let negative = a.negative() != c.negative();
    lemma_pow2_pos(UNIT_EXPONENT as nat);
    lemma_infinite_not_zero();
    assert(!c.negative());
    if a.infinite() {
        signed_parts(negative, INFINITE_ORDINAL as nat);
    } else {
        let p = binary64::abs(a.value()) * binary64::abs(c.value());
        let k = rounding::nearest(p, one());
        lemma_nearest_bounded(p, one());
        signed_parts(negative, k);
        if a.negative() {
            // A zero with a sign.
            assert(p == 0) by (nonlinear_arith)
                requires
                    p == binary64::abs(a.value()) * binary64::abs(c.value()),
                    binary64::abs(a.value()) == 0,
            ;
            assert(0 == 0 * one()) by (nonlinear_arith);
            rounding::lemma_nearest_exact(0, one(), 0);
        }
    }
}

/// A double whose digits are `n` and whose last place counts `2^e` exists.
proof fn lemma_double_exists(n: nat, e: nat) -> (k: nat)
    requires
        0 < n < 2 * BINADE,
        e <= 2045,
    ensures
        rounding::magnitude(k) == n * pow2(e),
        0 < k < INFINITE_ORDINAL,
    decreases e,
{
    if n >= BINADE || e == 0 {
        binary64::lemma_digits_ordinal(n, e);
        let k = (e * BINADE + n) as nat;
        assert(0 < k < INFINITE_ORDINAL) by (nonlinear_arith)
            requires
                k == e * BINADE + n,
                0 < n < 2 * BINADE,
                e <= 2045,
                INFINITE_ORDINAL == 2047 * BINADE,
        ;
        k
    } else {
        lemma_pow2_unfold(e);
        assert((2 * n) * pow2((e - 1) as nat) == n * pow2(e)) by (nonlinear_arith)
            requires
                pow2(e) == 2 * pow2((e - 1) as nat),
        ;
        lemma_double_exists(2 * n, (e - 1) as nat)
    }
}

/// Integers up to 2^53 are doubles.
pub proof fn integer_exact(n: nat)
    requires
        n <= 2 * BINADE,
    ensures
        binary64::integer(n).value() == n * one(),
        binary64::integer(n).finite(),
        !binary64::integer(n).negative(),
{
    let p = n * one();
    if n == 0 {
        assert(p == 0) by (nonlinear_arith)
            requires
                p == 0 * one(),
        ;
        rounding::lemma_nearest_exact(0, 1, 0);
        signed_parts(false, 0);
    } else {
        let k = if n < 2 * BINADE {
            lemma_double_exists(n, UNIT_EXPONENT as nat)
        } else {
            lemma_pow2_unfold((UNIT_EXPONENT + 1) as nat);
            lemma_double_exists(BINADE as nat, (UNIT_EXPONENT + 1) as nat)
        };
        assert(p == rounding::magnitude(k)) by (nonlinear_arith)
            requires
                p == n * one(),
                rounding::magnitude(k) == n * one() || (n == 2 * BINADE && rounding::magnitude(k)
                    == BINADE * (2 * one())),
        ;
        assert(p == rounding::magnitude(k) * 1);
        rounding::lemma_nearest_exact(p, 1, k);
        signed_parts(false, k);
    }
}

/// Rounding keeps the order of integers; those from one to 2^64 become finite and at least one.
pub proof fn integer_monotone(i: nat, m: nat)
    requires
        i <= m <= u64::MAX,
    ensures
        0 <= binary64::integer(i).value() <= binary64::integer(m).value(),
        binary64::integer(i).finite(),
        binary64::integer(m).finite(),
        !binary64::integer(i).negative(),
        !binary64::integer(m).negative(),
        m > 0 ==> binary64::integer(m).value() >= one(),
        binary64::integer(m).value() <= 0x1_0000_0000_0000_0000 * one(),
{
    let u = one();
    let top = lemma_double_exists(BINADE as nat, (UNIT_EXPONENT + 12) as nat);
    let huge = rounding::magnitude(top);
    lemma_pow2_adds(UNIT_EXPONENT as nat, 12);
    lemma2_to64();
    assert(huge == 0x1_0000_0000_0000_0000 * u) by (nonlinear_arith)
        requires
            huge == 0x10_0000_0000_0000 * pow2((UNIT_EXPONENT + 12) as nat),
            pow2((UNIT_EXPONENT + 12) as nat) == u * 0x1000,
    ;
    assert(i * u <= m * u <= huge) by (nonlinear_arith)
        requires
            i <= m <= 0xffff_ffff_ffff_ffff,
            huge == 0x1_0000_0000_0000_0000 * u,
    ;
    assert(huge == huge * 1);
    rounding::lemma_nearest_exact(huge, 1, top);
    rounding::lemma_nearest_monotone(m * u, 1, huge, 1);
    rounding::lemma_nearest_monotone(i * u, 1, m * u, 1);
    let ki = rounding::nearest(i * u, 1);
    let km = rounding::nearest(m * u, 1);
    signed_parts(false, ki);
    signed_parts(false, km);
    lemma_magnitude_ordered(ki, km);
    lemma_magnitude_ordered(km, top);
    if m > 0 {
        integer_exact(1);
        assert(1 * u <= m * u) by (nonlinear_arith)
            requires
                m >= 1,
        ;
        rounding::lemma_nearest_monotone(1 * u, 1, m * u, 1);
        let k1 = rounding::nearest(1 * u, 1);
        signed_parts(false, k1);
        lemma_magnitude_ordered(k1, km);
    }
}

/// A part of a whole is a number from zero to one.
pub proof fn ratio_in_unit_interval(i: nat, m: nat)
    requires
        i <= m <= u64::MAX,
        m > 0,
    ensures
        in_unit_interval(binary64::ratio_of(i, m)),
{
    reveal(binary64::quotient);
    let a = binary64::integer(i);
    let b = binary64::integer(m);
    integer_monotone(i, m);
    lemma_pow2_pos(UNIT_EXPONENT as nat);
    let p = binary64::abs(a.value()) * one();
    let q = binary64::abs(b.value());
    let k1 = lemma_double_exists(1, UNIT_EXPONENT as nat);
    assert(1 * one() == one());
    rounding::lemma_nearest_exact(one() * q, q, k1);
    assert(p * q <= (one() * q) * q) by (nonlinear_arith)
        requires
            p == binary64::abs(a.value()) * one(),
            binary64::abs(a.value()) <= q,
    ;
    rounding::lemma_nearest_monotone(p, q, one() * q, q);
    let k = rounding::nearest(p, q);
    signed_parts(false, k);
    lemma_magnitude_ordered(k, k1);
}

/// Rounding a quotient does not depend on a common factor.
proof fn lemma_common_factor(p: nat, q: nat, f: nat)
    requires
        q > 0,
        f > 0,
    ensures
        rounding::nearest(p * f, q * f) == rounding::nearest(p, q),
{
    assert(q * f > 0) by (nonlinear_arith)
        requires
            q > 0,
            f > 0,
    ;
    assert((p * f) * q == p * (q * f)) by (nonlinear_arith);
    rounding::lemma_nearest_monotone(p * f, q * f, p, q);
    rounding::lemma_nearest_monotone(p, q, p * f, q * f);
}

/// The ratio of integers up to 2^53 is the double nearest to it: a decimal fraction is rounded once.
pub proof fn ratio_rounded_once(num: nat, den: nat)
    requires
        num <= 2 * BINADE,
        0 < den <= 2 * BINADE,
    ensures
        binary64::ratio_of(num, den) == binary64::rounded(false, num * one(), den),
        binary64::ratio_of(num, den).value() == rounding::magnitude(
            rounding::nearest(num * one(), den),
        ),
        !binary64::ratio_of(num, den).nan(),
{
    reveal(binary64::quotient);
    integer_exact(num);
    integer_exact(den);
    lemma_pow2_pos(UNIT_EXPONENT as nat);
    let u = one();
    assert(den * u > 0) by (nonlinear_arith)
        requires
            den > 0,
            u > 0,
    ;
    lemma_common_factor(num * u, den, u);
    lemma_nearest_bounded(num * u, den);
    signed_parts(false, rounding::nearest(num * u, den));
}

/// Rounding keeps the order of fractions of integers below 2^53.
pub proof fn ratio_monotone(n1: nat, d1: nat, n2: nat, d2: nat)
    requires
        n1 < 2 * BINADE,
        n2 < 2 * BINADE,
        0 < d1 < 2 * BINADE,
        0 < d2 < 2 * BINADE,
        n1 * d2 <= n2 * d1,
    ensures
        binary64::ratio_of(n1, d1).value() <= binary64::ratio_of(n2, d2).value(),
{
    ratio_rounded_once(n1, d1);
    ratio_rounded_once(n2, d2);
    let u = one();
    assert((n1 * u) * d2 <= (n2 * u) * d1) by (nonlinear_arith)
        requires
            n1 * d2 <= n2 * d1,
    ;
    rounding::lemma_nearest_monotone(n1 * u, d1, n2 * u, d2);
    lemma_magnitude_ordered(rounding::nearest(n1 * u, d1), rounding::nearest(n2 * u, d2));
}

/// A positive fraction of integers below 2^53 is finite and not zero.
pub proof fn ratio_positive(num: nat, den: nat)
    requires
        0 < num < 2 * BINADE,
        0 < den < 2 * BINADE,
    ensures
        binary64::ratio_of(num, den).finite(),
        binary64::ratio_of(num, den).value() >= pow2((UNIT_EXPONENT - 53) as nat) > 0,
        !binary64::ratio_of(num, den).negative(),
{
    // It lies between 2^-53 and 2^53, which are doubles.
    let u = one();
    ratio_rounded_once(num, den);
    lemma2_to64_rest();
    let small = lemma_double_exists(1, (UNIT_EXPONENT - 53) as nat);
    let large = lemma_double_exists(1, (UNIT_EXPONENT + 53) as nat);
    let ms = rounding::magnitude(small);
    let ml = rounding::magnitude(large);
    lemma_pow2_adds((UNIT_EXPONENT - 53) as nat, 53);
    lemma_pow2_adds(UNIT_EXPONENT as nat, 53);
    lemma_pow2_pos((UNIT_EXPONENT - 53) as nat);
    assert(u == ms * (2 * BINADE));
    assert(ml == u * (2 * BINADE));
    rounding::lemma_nearest_exact(ms * den, den, small);
    rounding::lemma_nearest_exact(ml * den, den, large);
    assert((ms * den) * den <= (num * u) * den) by (nonlinear_arith)
        requires
            u == ms * (2 * BINADE),
            den < 2 * BINADE,
            num >= 1,
    {
        assert(ms * den <= u);
        assert(u <= num * u);
    }
    assert((num * u) * den <= (ml * den) * den) by (nonlinear_arith)
        requires
            ml == u * (2 * BINADE),
            num < 2 * BINADE,
            den >= 1,
    {
        assert(num * u <= ml);
        assert(ml <= ml * den);
    }
    rounding::lemma_nearest_monotone(ms * den, den, num * u, den);
    rounding::lemma_nearest_monotone(num * u, den, ml * den, den);
    let k = rounding::nearest(num * u, den);
    signed_parts(false, k);
    lemma_magnitude_ordered(small, k);
    assert(ms == pow2((UNIT_EXPONENT - 53) as nat));
}

/// A product of two numbers of at least 2^-53 is not zero.
pub proof fn product_positive(a: Binary64, b: Binary64)
    requires
        a.finite(),
        b.finite(),
        a.value() >= pow2((UNIT_EXPONENT - 53) as nat),
        b.value() >= pow2((UNIT_EXPONENT - 53) as nat),
    ensures
        non_negative(binary64::product(a, b)),
        binary64::product(a, b).value() > 0,
{
    let s = pow2((UNIT_EXPONENT - 53) as nat);
    let q = one();
    let p = binary64::abs(a.value()) * binary64::abs(b.value());
    lemma_pow2_pos((UNIT_EXPONENT - 53) as nat);
    lemma_pow2_pos(UNIT_EXPONENT as nat);
    lemma_pow2_adds((UNIT_EXPONENT - 53) as nat, (UNIT_EXPONENT - 53) as nat);
    lemma_pow2_strictly_increases(
        UNIT_EXPONENT as nat,
        (2 * (UNIT_EXPONENT - 53)) as nat,
    );
    assert(s * s <= p) by (nonlinear_arith)
        requires
            p == binary64::abs(a.value()) * binary64::abs(b.value()),
            s <= binary64::abs(a.value()),
            s <= binary64::abs(b.value()),
    ;
    lemma_product_rounded(a, b);
    assert(rounding::magnitude(1) == 1);
    assert(1 * q == q);
    rounding::lemma_nearest_exact(q, q, 1);
    assert(q * q <= p * q) by (nonlinear_arith)
        requires
            q <= p,
    ;
    rounding::lemma_nearest_monotone(q, q, p, q);
    lemma_magnitude_ordered(1, rounding::nearest(p, q));
}

/// A finite number that is not negative, over a positive finite one, is not negative, and it grows
/// with the number.
pub proof fn quotient_monotone(a1: Binary64, a2: Binary64, c: Binary64)
    requires
        a1.finite(),
        a2.finite(),
        !a1.negative(),
        !a2.negative(),
        a1.value() <= a2.value(),
        c.finite(),
        c.value() > 0,
    ensures
        non_negative(binary64::quotient(a1, c)),
        non_negative(binary64::quotient(a2, c)),
        binary64::quotient(a1, c).value() <= binary64::quotient(a2, c).value(),
        !binary64::quotient(a1, c).negative(),
        !binary64::quotient(a2, c).negative(),
        c.value() >= one() ==> binary64::quotient(a2, c).finite(),
{
    reveal(binary64::quotient);
    let u = one();
    let q = binary64::abs(c.value());
    let p1 = binary64::abs(a1.value()) * u;
    let p2 = binary64::abs(a2.value()) * u;
    assert(p1 * q <= p2 * q) by (nonlinear_arith)
        requires
            p1 == binary64::abs(a1.value()) * u,
            p2 == binary64::abs(a2.value()) * u,
            binary64::abs(a1.value()) <= binary64::abs(a2.value()),
    ;
    lemma_nearest_bounded(p1, q);
    lemma_nearest_bounded(p2, q);
    signed_parts(false, rounding::nearest(p1, q));
    signed_parts(false, rounding::nearest(p2, q));
    rounding::lemma_nearest_monotone(p1, q, p2, q);
    lemma_magnitude_ordered(rounding::nearest(p1, q), rounding::nearest(p2, q));
    if c.value() >= u {
        let m = binary64::abs(a2.value());
        lemma_value_exact(a2);
        assert(p2 * 1 <= m * q) by (nonlinear_arith)
            requires
                p2 == m * u,
                u <= q,
        ;
        rounding::lemma_nearest_monotone(p2, q, m, 1);
    }
}

/// A part of a whole of up to 2^53 is one exactly where it is the whole.
pub proof fn ratio_is_one(i: nat, m: nat)
    requires
        i <= m,
        0 < m <= 2 * BINADE,
    ensures
        binary64::ratio_of(i, m) == binary64::integer(1) <==> i == m,
{
    let u = one();
    let k1 = lemma_double_exists(1, UNIT_EXPONENT as nat);
    lemma_pow2_pos(UNIT_EXPONENT as nat);
    assert(1 * u == u);
    assert(u == rounding::magnitude(k1) * 1);
    rounding::lemma_nearest_exact(1 * u, 1, k1);
    ratio_rounded_once(i, m);
    lemma_nearest_bounded(i * u, m);
    if i == m {
        assert(m * u == rounding::magnitude(k1) * m) by (nonlinear_arith)
            requires
                rounding::magnitude(k1) == u,
        ;
        rounding::lemma_nearest_exact(m * u, m, k1);
    } else {
        // The fraction is at most 1 - 2^-53, which is a double.
        let t = (UNIT_EXPONENT - 53) as nat;
        let g = pow2(t);
        let d = (2 * BINADE - 1) as nat;
        lemma_pow2_pos(t);
        lemma_pow2_adds(t, 53);
        lemma2_to64_rest();
        assert(u == (2 * BINADE) * g) by (nonlinear_arith)
            requires
                u == g * 0x20_0000_0000_0000,
                BINADE == 0x10_0000_0000_0000,
        ;
        let k = lemma_double_exists(d, t);
        let low = rounding::magnitude(k);
        rounding::lemma_nearest_exact(low * m, m, k);
        assert((i * u) * m <= (low * m) * m) by (nonlinear_arith)
            requires
                u == (2 * BINADE) * g,
                low == d * g,
                d == 2 * BINADE - 1,
                i + 1 <= m,
                m <= 2 * BINADE,
        {
            assert(i * (2 * BINADE) <= d * m);
            assert(i * u == (i * (2 * BINADE)) * g);
            assert(low * m == (d * m) * g);
            assert(i * u <= low * m);
        }
        rounding::lemma_nearest_monotone(i * u, m, low * m, m);
        lemma_magnitude_ordered(rounding::nearest(i * u, m), k);
        assert(low < u) by (nonlinear_arith)
            requires
                u == (2 * BINADE) * g,
                low == (2 * BINADE - 1) * g,
                g > 0,
        ;
        signed_parts(false, rounding::nearest(i * u, m));
        signed_parts(false, k1);
    }
}

/// A part of a whole is zero exactly where there is none.
pub proof fn ratio_is_zero(i: nat, m: nat)
    requires
        i <= m <= u64::MAX,
        m > 0,
    ensures
        binary64::ratio_of(i, m) == binary64::zero() <==> i == 0,
{
    reveal(binary64::quotient);
    let u = one();
    let a = binary64::integer(i);
    let b = binary64::integer(m);
    integer_monotone(i, m);
    lemma_pow2_pos(UNIT_EXPONENT as nat);
    let p = binary64::abs(a.value()) * u;
    let q = binary64::abs(b.value());
    lemma_nearest_bounded(p, q);
    signed_parts(false, rounding::nearest(p, q));
    if i == 0 {
        integer_exact(0);
        assert(a.value() == 0) by (nonlinear_arith)
            requires
                a.value() == 0 * one(),
        ;
        assert(p == 0) by (nonlinear_arith)
            requires
                p == 0 * u,
        ;
        assert(0 == 0 * q) by (nonlinear_arith);
        rounding::lemma_nearest_exact(0, q, 0);
    } else {
        integer_monotone(i, i);
        lemma2_to64();
        lemma_pow2_strictly_increases(64, UNIT_EXPONENT as nat);
        assert(q * 1 <= p) by (nonlinear_arith)
            requires
                q <= 0x1_0000_0000_0000_0000 * u,
                0x1_0000_0000_0000_0000 <= u,
                u <= binary64::abs(a.value()),
                p == binary64::abs(a.value()) * u,
        {
            assert(0x1_0000_0000_0000_0000 * u <= u * u);
            assert(u * u <= p);
        }
        assert(rounding::magnitude(1) == 1);
        rounding::lemma_nearest_exact(q, q, 1);
        assert(q * q <= p * q) by (nonlinear_arith)
            requires
                q <= p,
        ;
        rounding::lemma_nearest_monotone(q, q, p, q);
    }
}

/// A fraction below one hundredth, with a denominator up to 2^52, stays below it when rounded.
pub proof fn below_one_hundredth(i: nat, m: nat)
    requires
        0 < m <= BINADE,
        100 * i < m,
    ensures
        binary64::ratio_of(i, m).value() < binary64::ratio_of(1, 100).value(),
{
    // 0.01 rounds to d * 2^-59, and the fraction to at most (d - 1) * 2^-59.
    let d: nat = 5764607523034235;
    let t = (UNIT_EXPONENT - 59) as nat;
    let g = pow2(t);
    let u = one();
    lemma_pow2_pos(t);
    lemma_pow2_adds(t, 59);
    lemma2_to64_rest();
    ratio_rounded_once(i, m);
    ratio_rounded_once(1, 100);
    binary64::lemma_digits_ordinal(d, t);
    binary64::lemma_digits_ordinal((d - 1) as nat, t);
    let k = (t * BINADE + d) as nat;
    rounding::lemma_magnitude_step(k);
    assert(rounding::magnitude(k) == d * g);
    assert(rounding::magnitude((k - 1) as nat) == (d - 1) * g);
    assert(rounding::magnitude(k + 1) == (d + 1) * g) by (nonlinear_arith)
        requires
            rounding::magnitude(k + 1) == rounding::magnitude(k) + g,
            rounding::magnitude(k) == d * g,
    ;
    assert(k < INFINITE_ORDINAL);
    assert(u == 576460752303423488 * g);
    assert(rounding::rounds_to(u, 100, k));
    rounding::lemma_nearest(u, 100);
    assert(1 * u == u);
    let low = rounding::magnitude((k - 1) as nat);
    rounding::lemma_nearest_exact(low * m, m, (k - 1) as nat);
    assert((i * u) * m <= (low * m) * m) by (nonlinear_arith)
        requires
            u == 576460752303423488 * g,
            low == 5764607523034234 * g,
            100 * i + 1 <= m,
            m <= 0x10_0000_0000_0000,
    {
        assert(576460752303423488 * i <= 5764607523034234 * m);
        assert(i * u <= low * m);
    }
    rounding::lemma_nearest_monotone(i * u, m, low * m, m);
    lemma_magnitude_ordered(rounding::nearest(i * u, m), (k - 1) as nat);
}

/// A fraction above nine tenths, with a denominator up to 2^49, stays above it when rounded.
pub proof fn above_nine_tenths(i: nat, m: nat)
    requires
        0 < m <= BINADE / 8,
        i <= m,
        10 * i > 9 * m,
    ensures
        binary64::ratio_of(i, m).value() > binary64::ratio_of(9, 10).value(),
{
    // 0.9 rounds to at most d * 2^-53, and the fraction to at least (d + 1) * 2^-53.
    let d: nat = 8106479329266893;
    let t = (UNIT_EXPONENT - 53) as nat;
    let g = pow2(t);
    let u = one();
    lemma_pow2_pos(t);
    lemma_pow2_adds(t, 53);
    lemma2_to64_rest();
    ratio_rounded_once(i, m);
    ratio_rounded_once(9, 10);
    binary64::lemma_digits_ordinal(d, t);
    binary64::lemma_digits_ordinal(d + 1, t);
    let k = (t * BINADE + d) as nat;
    let at = rounding::magnitude(k);
    let above = rounding::magnitude(k + 1);
    assert(at == d * g);
    assert(above == (d + 1) * g);
    assert(k + 1 < INFINITE_ORDINAL);
    assert(u == 9007199254740992 * g);
    rounding::lemma_nearest_exact(at * 10, 10, k);
    assert((9 * u) * 10 <= (at * 10) * 10);
    rounding::lemma_nearest_monotone(9 * u, 10, at * 10, 10);
    rounding::lemma_nearest_exact(above * m, m, k + 1);
    assert((above * m) * m <= (i * u) * m) by (nonlinear_arith)
        requires
            u == 9007199254740992 * g,
            above == 8106479329266894 * g,
            10 * i >= 9 * m + 1,
            m <= 0x2_0000_0000_0000,
    {
        assert(8106479329266894 * m <= 9007199254740992 * i);
        assert(above * m <= i * u);
    }
    rounding::lemma_nearest_monotone(above * m, m, i * u, m);
    lemma_magnitude_ordered(rounding::nearest(9 * u, 10), k);
    lemma_magnitude_ordered(k + 1, rounding::nearest(i * u, m));
    rounding::lemma_magnitude_step(k);
}

/// What a quotient of finite numbers that are not negative stands for.
proof fn lemma_quotient_value(a: Binary64, c: Binary64)
    requires
        a.finite(),
        !a.negative(),
        c.finite(),
        !c.negative(),
        c.value() > 0,
    ensures
        binary64::quotient(a, c) == binary64::rounded(
            false,
            (a.value() * one()) as nat,
            c.value() as nat,
        ),
        binary64::quotient(a, c).value() == rounding::magnitude(
            rounding::nearest((a.value() * one()) as nat, c.value() as nat),
        ),
{
    reveal(binary64::quotient);
    let p = (a.value() * one()) as nat;
    assert(binary64::abs(a.value()) * one() == p);
    lemma_nearest_bounded(p, c.value() as nat);
    signed_parts(false, rounding::nearest(p, c.value() as nat));
}

/// Zero over a positive number is zero.
pub proof fn zero_quotient(c: Binary64)
    requires
        c.finite(),
        !c.negative(),
        c.value() > 0,
    ensures
        binary64::quotient(binary64::zero(), c) == binary64::zero(),
{
    let q = c.value() as nat;
    lemma_quotient_value(binary64::zero(), c);
    assert(0 * one() == 0);
    assert(0 == 0 * q) by (nonlinear_arith);
    rounding::lemma_nearest_exact(0, q, 0);
}

/// `a` is `b / c` up to 2^-53 of `b / c`.
pub open spec fn near_fraction(a: int, b: int, c: int) -> bool {
    &&& (c * a - b) * (2 * BINADE) <= b
    &&& (b - c * a) * (2 * BINADE) <= b
}

/// An integer moves by at most 2^-53 of itself when it is rounded.
pub proof fn integer_error(n: nat)
    requires
        0 < n <= u64::MAX,
    ensures
        near_fraction(binary64::integer(n).value(), (n * one()) as int, 1),
{
    let u = one();
    let p = n * u;
    let top = lemma_double_exists(BINADE as nat, (UNIT_EXPONENT + 12) as nat);
    integer_monotone(n, n);
    lemma_one_is_many_units();
    lemma_pow2_adds(UNIT_EXPONENT as nat, 12);
    lemma2_to64();
    assert(BINADE * 1 <= p && p <= rounding::magnitude(top)) by (nonlinear_arith)
        requires
            p == n * u,
            1 <= n <= 0xffff_ffff_ffff_ffff,
            u >= BINADE,
            rounding::magnitude(top) == 0x10_0000_0000_0000 * (u * 0x1000),
    ;
    lemma_magnitude_ordered(top, (INFINITE_ORDINAL - 1) as nat);
    rounding::lemma_nearest_error(p, 1);
    lemma_nearest_bounded(p, 1);
    signed_parts(false, rounding::nearest(p, 1));
}

/// `a` is `b / c` up to 2^-49.
pub open spec fn close_to(a: int, b: int, c: int) -> bool {
    &&& (c * a - b) * 0x2_0000_0000_0000 <= c * one()
    &&& (b - c * a) * 0x2_0000_0000_0000 <= c * one()
}

/// Rounding moves a quotient of at most eight by at most 2^-49.
proof fn lemma_nearest_close(p: nat, q: nat)
    requires
        q > 0,
        p <= (8 * one()) * q,
    ensures
        close_to(rounding::magnitude(rounding::nearest(p, q)) as int, p as int, q as int),
        rounding::nearest(p, q) < INFINITE_ORDINAL,
{
    let u = one();
    let b = BINADE as nat;
    let k = rounding::nearest(p, q);
    let m = rounding::magnitude(k);
    let eight = lemma_double_exists(8, UNIT_EXPONENT as nat);
    rounding::lemma_nearest_exact((8 * u) * q, q, eight);
    assert(p * q <= ((8 * u) * q) * q) by (nonlinear_arith)
        requires
            p <= (8 * u) * q,
    ;
    rounding::lemma_nearest_monotone(p, q, (8 * u) * q, q);
    assert(m * q == q * m) by (nonlinear_arith);
    if b * q <= p {
        let last = (INFINITE_ORDINAL - 1) as nat;
        lemma_magnitude_ordered(eight, last);
        assert((8 * u) * q <= rounding::magnitude(last) * q) by (nonlinear_arith)
            requires
                8 * u <= rounding::magnitude(last),
        ;
        rounding::lemma_nearest_error(p, q);
        assert((8 * u) * q == 8 * (q * u)) by (nonlinear_arith);
        let moved = m * q - p;
        assert(moved * 0x20_0000_0000_0000 <= p && -moved * 0x20_0000_0000_0000 <= p);
    } else {
        let small = lemma_double_exists(b, 0);
        lemma2_to64();
        assert(rounding::magnitude(small) == b);
        rounding::lemma_nearest_exact(b * q, q, small);
        assert(p * q <= (b * q) * q) by (nonlinear_arith)
            requires
                p <= b * q,
        ;
        rounding::lemma_nearest_monotone(p, q, b * q, q);
        lemma_magnitude_ordered(k, small);
        lemma_one_is_many_units();
        assert(q * m <= b * q) by (nonlinear_arith)
            requires
                m <= b,
        ;
        assert((b * q) * 0x2_0000_0000_0000 <= q * u) by (nonlinear_arith)
            requires
                b == 0x10_0000_0000_0000,
                u > 0x1_0000_0000_0000_0000 * 0x1_0000_0000_0000_0000,
                q > 0,
        ;
    }
}

/// The sum of numbers that are not negative moves by at most 2^-49 when it is rounded, up to eight.
pub proof fn sum_close(a: Binary64, b: Binary64)
    requires
        non_negative(a),
        non_negative(b),
        a.value() + b.value() <= 8 * one(),
    ensures
        non_negative(binary64::sum(a, b)),
        close_to(binary64::sum(a, b).value(), a.value() + b.value(), 1),
{
    reveal(binary64::sum);
    let exact = (a.value() + b.value()) as nat;
    let eight = lemma_double_exists(8, UNIT_EXPONENT as nat);
    lemma_value_exact(a);
    lemma_value_exact(b);
    rounding::lemma_magnitude_increases(eight, INFINITE_ORDINAL as nat);
    sum_not_below_terms(a, b);
    signed_parts(a.negative() && b.negative(), 0);
    if exact != 0 {
        lemma_nearest_close(exact, 1);
        signed_parts(false, rounding::nearest(exact, 1));
    }
}

/// The product of a number from zero to one and a factor up to one moves by at most 2^-49 when it is
/// rounded.
pub proof fn product_close(a: Binary64, c: Binary64)
    requires
        in_unit_interval(a),
        c.finite(),
        0 < c.value() <= one(),
    ensures
        non_negative(binary64::product(a, c)),
        close_to(binary64::product(a, c).value(), a.value() * c.value(), one() as int),
{
    let u = one();
    let p = binary64::abs(a.value()) * binary64::abs(c.value());
    lemma_pow2_pos(UNIT_EXPONENT as nat);
    lemma_product_rounded(a, c);
    lemma_value_exact(a);
    let eight = lemma_double_exists(8, UNIT_EXPONENT as nat);
    rounding::lemma_magnitude_increases(eight, INFINITE_ORDINAL as nat);
    assert(p <= (8 * u) * u) by (nonlinear_arith)
        requires
            p == binary64::abs(a.value()) * binary64::abs(c.value()),
            binary64::abs(a.value()) <= u,
            binary64::abs(c.value()) <= u,
    ;
    lemma_nearest_close(p, u);
}

/// A part of a whole of at most 2^53 moves by at most 2^-49 when it is rounded.
pub proof fn ratio_close(num: nat, den: nat)
    requires
        num <= den,
        0 < den <= 2 * BINADE,
    ensures
        close_to(binary64::ratio_of(num, den).value(), (num * one()) as int, den as int),
{
    let u = one();
    ratio_rounded_once(num, den);
    assert(num * u <= (8 * u) * den) by (nonlinear_arith)
        requires
            num <= den,
    ;
    lemma_nearest_close(num * u, den);
}

/// One is far above the smallest numbers: it is more than 2^128 of them.
pub proof fn lemma_one_is_many_units()
    ensures
        one() > 0x1_0000_0000_0000_0000 * 0x1_0000_0000_0000_0000,
{
    lemma2_to64();
    lemma_pow2_adds(64, 64);
    lemma_pow2_strictly_increases(128, UNIT_EXPONENT as nat);
}

/// The quotient of a number of at least 2^80 units by an integer up to 2^20 moves by at most 2^-53 of
/// itself when it is rounded.
pub proof fn quotient_error(a: Binary64, n: nat)
    requires
        a.finite(),
        !a.negative(),
        a.value() >= 0x1_0000_0000_0000_0000 * 0x1_0000,
        0 < n <= 0x10_0000,
    ensures
        near_fraction(
            binary64::quotient(a, binary64::integer(n)).value(),
            a.value(),
            n as int,
        ),
{
    let u = one();
    let c = binary64::integer(n);
    integer_exact(n);
    lemma_pow2_pos(UNIT_EXPONENT as nat);
    assert(n * u > 0) by (nonlinear_arith)
        requires
            n > 0,
            u > 0,
    ;
    lemma_quotient_value(a, c);
    let x = a.value() as nat;
    lemma_common_factor(x, n, u);
    lemma_value_exact(a);
    let last = rounding::magnitude((INFINITE_ORDINAL - 1) as nat);
    lemma_magnitude_ordered(a.ordinal(), (INFINITE_ORDINAL - 1) as nat);
    assert(BINADE * n <= x && x <= last * n) by (nonlinear_arith)
        requires
            0 < n <= 0x10_0000,
            x >= 0x1_0000_0000_0000_0000 * 0x1_0000,
            x <= last,
            BINADE == 0x10_0000_0000_0000,
    ;
    rounding::lemma_nearest_error(x, n);
    let m = rounding::magnitude(rounding::nearest(x, n));
    assert(m * n == n * m) by (nonlinear_arith);
}

/// `-a` differs from `a` in its sign only.
pub proof fn negation_parts(a: Binary64)
    ensures
        binary64::negation(a).ordinal() == a.ordinal(),
        binary64::negation(a).negative() == !a.negative(),
        binary64::negation(a).value() == -a.value(),
{
    assert(binary64::negation(a).bits as nat % (SIGN as nat) == a.bits as nat % (SIGN as nat));
}

/// The size of a difference: that of the exact difference, rounded.
proof fn lemma_difference_size(a: Binary64, b: Binary64)
    requires
        a.finite(),
        b.finite(),
    ensures
        binary64::absolute(binary64::difference(a, b)).bits == rounding::nearest(
            binary64::abs(a.value() - b.value()),
            1,
        ),
{
    reveal(binary64::sum);
    negation_parts(b);
    let exact = a.value() - b.value();
    let k = rounding::nearest(binary64::abs(exact), 1);
    lemma_nearest_bounded(binary64::abs(exact), 1);
    signed_parts(exact < 0, k);
    signed_parts(a.negative() && binary64::negation(b).negative(), 0);
    rounding::lemma_nearest_exact(0, 1, 0);
}

/// `a - b` and `b - a` have the same size.
pub proof fn difference_symmetric(a: Binary64, b: Binary64)
    ensures
        binary64::absolute(binary64::difference(a, b)) == binary64::absolute(
            binary64::difference(b, a),
        ),
{
    reveal(binary64::sum);
    negation_parts(a);
    negation_parts(b);
    if a.finite() && b.finite() {
        lemma_difference_size(a, b);
        lemma_difference_size(b, a);
        assert(binary64::abs(a.value() - b.value()) == binary64::abs(b.value() - a.value()));
    }
}

/// A finite number differs by zero from itself; an infinity or a NaN does not give a number.
pub proof fn difference_from_itself(a: Binary64)
    ensures
        a.finite() ==> binary64::absolute(binary64::difference(a, a)) == binary64::zero(),
        !a.finite() ==> binary64::difference(a, a).nan(),
{
    reveal(binary64::sum);
    negation_parts(a);
    if a.finite() {
        lemma_difference_size(a, a);
        rounding::lemma_nearest_exact(0, 1, 0);
    }
}

/// Of two numbers that are not negative, the one with the smaller bit pattern is the smaller one.
/// Every bit pattern above that of infinity is not a number.
pub proof fn order_is_that_of_the_bits(a: Binary64, b: Binary64)
    requires
        a.bits < 0x8000_0000_0000_0000,
        b.bits < 0x8000_0000_0000_0000,
    ensures
        a.nan() <==> a.bits > 0x7ff0_0000_0000_0000,
        binary64::less(a, b) <==> a.bits < b.bits <= 0x7ff0_0000_0000_0000,
        binary64::at_most(a, b) <==> a.bits <= b.bits <= 0x7ff0_0000_0000_0000,
        a.value() >= 0,
{
    if a.bits < b.bits {
        rounding::lemma_magnitude_increases(a.bits as nat, b.bits as nat);
    } else if b.bits < a.bits {
        rounding::lemma_magnitude_increases(b.bits as nat, a.bits as nat);
    }
}

/// Of two numbers with the sign bit, the one with the larger bit pattern is the smaller one.
pub proof fn order_of_signed_numbers(a: Binary64, b: Binary64)
    requires
        a.bits >= 0x8000_0000_0000_0000,
        b.bits >= 0x8000_0000_0000_0000,
    ensures
        a.nan() <==> a.bits > 0xfff0_0000_0000_0000,
        binary64::less(a, b) <==> b.bits < a.bits <= 0xfff0_0000_0000_0000,
        a.value() <= 0,
{
    let (i, j) = (a.ordinal(), b.ordinal());
    if i < j {
        rounding::lemma_magnitude_increases(i, j);
    } else if j < i {
        rounding::lemma_magnitude_increases(j, i);
    }
}

/// A number with the sign bit is not above zero, and lies below every number above zero.
pub proof fn signed_numbers_come_first(a: Binary64, b: Binary64)
    requires
        0x8000_0000_0000_0000 <= a.bits <= 0xfff0_0000_0000_0000,
        0 < b.bits <= 0x7ff0_0000_0000_0000,
    ensures
        binary64::less(a, b),
        !binary64::less(b, a),
{
    rounding::lemma_magnitude_increases(0, b.bits as nat);
}

/// A fraction of integers is the double with the digits `n` and the exponent `t` where no other double
/// lies closer: `num / den` lies between `n - 1/2` and `n + 1/2` times `2^(t - 1074)`.
pub proof fn ratio_bits(num: nat, den: nat, n: nat, t: nat)
    requires
        num <= 2 * BINADE,
        0 < den <= 2 * BINADE,
        BINADE < n < 2 * BINADE - 1,
        1010 <= t <= 1074,
        (2 * n - 1) * den < 2 * (num * pow2((1074 - t) as nat)) < (2 * n + 1) * den,
    ensures
        binary64::ratio_of(num, den).bits == t * BINADE + n,
{
    let b = BINADE as nat;
    let k = (t * b + n) as nat;
    let s = pow2((1074 - t) as nat);
    let g = pow2(t);
    let u = one();
    ratio_rounded_once(num, den);
    lemma_pow2_adds(t, (1074 - t) as nat);
    lemma_pow2_pos(t);
    binary64::lemma_digits_ordinal(n, t);
    binary64::lemma_digits_ordinal((n - 1) as nat, t);
    binary64::lemma_digits_ordinal(n + 1, t);
    assert((t * b + (n + 1)) as nat == k + 1);
    assert((t * b + (n - 1) as nat) as nat == (k - 1) as nat);
    assert(0 < k < INFINITE_ORDINAL) by (nonlinear_arith)
        requires
            k == t * b + n,
            t <= 1074,
            0 < n < 2 * b,
            b == 0x10_0000_0000_0000,
            INFINITE_ORDINAL == 0x7ff0_0000_0000_0000,
    ;
    let (lo, hi) = (((n - 1) as nat * g + n * g) * den, (n * g + (n + 1) * g) * den);
    assert(lo < 2 * (num * u) && 2 * (num * u) < hi) by (nonlinear_arith)
        requires
            lo == ((n - 1) as nat * g + n * g) * den,
            hi == (n * g + (n + 1) * g) * den,
            n >= 1,
            u == g * s,
            g > 0,
            (2 * n - 1) * den < 2 * (num * s) < (2 * n + 1) * den,
    {
        assert(lo == g * ((2 * n - 1) * den));
        assert(hi == g * ((2 * n + 1) * den));
        assert(2 * (num * u) == g * (2 * (num * s)));
    }
    assert(rounding::rounds_to(num * u, den, k));
    rounding::lemma_nearest(num * u, den);
    signed_parts(false, k);
}

/// The decimal fractions that weigh the signals of a score, as bit patterns.
pub proof fn weights()
    ensures
        binary64::ratio_of(25, 100).bits == 0x3fd0_0000_0000_0000,
        binary64::ratio_of(8, 10).bits == 0x3fe9_9999_9999_999a,
        binary64::ratio_of(20, 100).bits == 0x3fc9_9999_9999_999a,
        binary64::ratio_of(15, 100).bits == 0x3fc3_3333_3333_3333,
        binary64::ratio_of(10, 100).bits == 0x3fb9_9999_9999_999a,
        binary64::ratio_of(5, 100).bits == 0x3fa9_9999_9999_999a,
{
    lemma2_to64();
    lemma2_to64_rest();
    ratio_bits(8, 10, 0x19_9999_9999_999a, 1021);
    ratio_bits(20, 100, 0x19_9999_9999_999a, 1019);
    ratio_bits(15, 100, 0x13_3333_3333_3333, 1019);
    ratio_bits(10, 100, 0x19_9999_9999_999a, 1018);
    ratio_bits(5, 100, 0x19_9999_9999_999a, 1017);
    // A quarter is a double.
    let b = BINADE as nat;
    let u = one();
    ratio_rounded_once(25, 100);
    binary64::lemma_digits_ordinal(b, 1020);
    lemma_pow2_adds(1020, 54);
    let k = (1020 * b + b) as nat;
    rounding::lemma_nearest_exact(25 * u, 100, k);
    signed_parts(false, k);
}

/// The decimal fractions 0.3, 0.9 and 0.01 as bit patterns.
pub proof fn decimal_fractions()
    ensures
        binary64::ratio_of(3, 10).bits == 0x3fd3_3333_3333_3333,
        binary64::ratio_of(9, 10).bits == 0x3fec_cccc_cccc_cccd,
        binary64::ratio_of(1, 100).bits == 0x3f84_7ae1_47ae_147b,
{
    lemma2_to64_rest();
    ratio_bits(3, 10, 0x13_3333_3333_3333, 1020);
    ratio_bits(9, 10, 0x1c_cccc_cccc_cccd, 1021);
    ratio_bits(1, 100, 0x14_7ae1_47ae_147b, 1015);
}

/// One as a bit pattern.
pub proof fn one_bits()
    ensures
        binary64::integer(1).bits == 0x3ff0_0000_0000_0000,
{
    let b = BINADE as nat;
    lemma2_to64();
    lemma2_to64_rest();
    lemma_pow2_adds(1022, 52);
    binary64::lemma_digits_ordinal(b, 1022);
    rounding::lemma_nearest_exact(1 * one(), 1, (1022 * b + b) as nat);
    signed_parts(false, (1022 * b + b) as nat);
}

/// The distance of an integer from zero.
pub open spec fn distance(x: int) -> int {
    if x < 0 {
        -x
    } else {
        x
    }
}

/// What the sign says of an exact magnitude.
spec fn with_sign(negative: bool, p: nat) -> int {
    if negative {
        -(p as int)
    } else {
        p as int
    }
}

/// No number lies closer to a quotient with a sign than the one it rounds to.
proof fn lemma_rounded_closest(negative: bool, p: nat, q: nat, d: Binary64)
    requires
        q > 0,
        !d.nan(),
    ensures
        ({
            let r = binary64::rounded(negative, p, q);
            let exact = with_sign(negative, p);
            let off = distance(r.value() * q - exact);
            let other = distance(d.value() * q - exact);
            &&& !r.nan()
            &&& r.value() == with_sign(negative, rounding::magnitude(rounding::nearest(p, q)))
            &&& off <= other
            &&& off == other && d.value() != r.value() ==> r.bits % 2 == 0
        }),
{
    let k = rounding::nearest(p, q);
    lemma_nearest_bounded(p, q);
    signed_parts(negative, k);
    rounding::nearest_is_closest(p, q, d.ordinal());
    rounding::nearest_is_closest(p, q, 0);
    rounding::lemma_magnitude_step(0);
    let (m, n) = (rounding::magnitude(k) as int, rounding::magnitude(d.ordinal()) as int);
    assert(-m * q == -(m * q) && -n * q == -(n * q) && n * q >= 0 && m * q >= 0 && 0 * q == 0)
        by (nonlinear_arith)
        requires
            m >= 0,
            n >= 0,
            q > 0,
    ;
    if n > 0 {
        assert(n * q > 0) by (nonlinear_arith)
            requires
                n > 0,
                q > 0,
        ;
    }
}

/// Rounding moves a quotient with a sign by at most 2^-53 of it and one unit; an integer moves by at
/// most 2^-53 of it.
proof fn lemma_rounded_error(negative: bool, p: nat, q: nat)
    requires
        q > 0,
        p <= rounding::magnitude((INFINITE_ORDINAL - 1) as nat) * q,
    ensures
        ({
            let r = binary64::rounded(negative, p, q);
            let off = distance(r.value() * q - with_sign(negative, p));
            &&& !r.nan()
            &&& off * 0x20_0000_0000_0000 <= p + 0x20_0000_0000_0000 * q
            &&& q == 1 ==> off * 0x20_0000_0000_0000 <= p
        }),
{
    let b = BINADE as nat;
    let k = rounding::nearest(p, q);
    let m = rounding::magnitude(k) as int;
    lemma_rounded_closest(negative, p, q, binary64::zero());
    assert(-m * q == -(m * q)) by (nonlinear_arith);
    if b * q <= p {
        rounding::lemma_nearest_error(p, q);
    } else {
        let j = p / q;
        assert(j * q <= p < j * q + q && j < b) by (nonlinear_arith)
            requires
                j == p / q,
                q > 0,
                p < b * q,
        ;
        rounding::nearest_is_closest(p, q, j);
        assert(rounding::magnitude(j) == j);
    }
}

/// The largest finite number, in units of 2^-1074.
pub open spec fn largest() -> nat {
    rounding::magnitude((INFINITE_ORDINAL - 1) as nat)
}

/// A number of at most the largest finite one is finite.
proof fn lemma_bounded_finite(a: Binary64)
    requires
        !a.nan(),
        distance(a.value()) <= largest(),
    ensures
        a.finite(),
{
    rounding::lemma_magnitude_increases(
        (INFINITE_ORDINAL - 1) as nat,
        INFINITE_ORDINAL as nat,
    );
    lemma_value_exact(a);
}

/// The largest finite number is more than 2^81.
pub proof fn lemma_largest()
    ensures
        largest() >= 0x1_0000_0000_0000_0000 * (0x2_0000 * one()),
{
    let k = lemma_double_exists(1, (UNIT_EXPONENT + 81) as nat);
    lemma_pow2_adds(UNIT_EXPONENT as nat, 81);
    lemma_pow2_adds(64, 17);
    lemma2_to64();
    lemma_magnitude_ordered(k, (INFINITE_ORDINAL - 1) as nat);
    assert(rounding::magnitude(k) == 0x1_0000_0000_0000_0000 * (0x2_0000 * one()))
        by (nonlinear_arith)
        requires
            rounding::magnitude(k) == 1 * (one() * (0x1_0000_0000_0000_0000 * 0x2_0000)),
    ;
}

/// The numbers up to 2^1021 are at most a sixth of the largest one.
pub proof fn lemma_sixth_of_largest(a: Binary64)
    requires
        a.ordinal() <= 0x7fc0_0000_0000_0000,
    ensures
        6 * distance(a.value()) <= largest(),
{
    let b = BINADE as nat;
    binary64::lemma_digits_ordinal(b, 2043);
    binary64::lemma_digits_ordinal((2 * b - 1) as nat, 2045);
    lemma_pow2_unfold(2045);
    lemma_pow2_unfold(2044);
    lemma_magnitude_ordered(a.ordinal(), 0x7fc0_0000_0000_0000);
    let g = pow2(2043);
    assert((2043 * b + b) as nat == 0x7fc0_0000_0000_0000);
    assert((2045 * b + (2 * b - 1) as nat) as nat == INFINITE_ORDINAL - 1);
    assert(6 * (b * g) <= (2 * b - 1) as nat * (4 * g)) by (nonlinear_arith)
        requires
            b == 0x10_0000_0000_0000,
    ;
}

/// The numbers up to eight are among those up to 2^1021.
pub proof fn lemma_small_numbers(a: Binary64)
    requires
        !a.nan(),
        distance(a.value()) <= 8 * one(),
    ensures
        a.ordinal() <= 0x7fc0_0000_0000_0000,
{
    let b = BINADE as nat;
    let top: nat = 0x7fc0_0000_0000_0000;
    binary64::lemma_digits_ordinal(b, 2043);
    assert((2043 * b + b) as nat == top);
    lemma_pow2_strictly_increases(UNIT_EXPONENT as nat, 2043);
    assert(8 * one() < b * pow2(2043)) by (nonlinear_arith)
        requires
            one() < pow2(2043),
            b == 0x10_0000_0000_0000,
    ;
    if a.ordinal() > top {
        rounding::lemma_magnitude_increases(top, a.ordinal());
    }
}

/// What the sum of finite numbers is: zero, or the exact sum rounded.
proof fn lemma_sum_parts(a: Binary64, b: Binary64)
    requires
        a.finite(),
        b.finite(),
    ensures
        ({
            let exact = a.value() + b.value();
            let r = binary64::rounded(exact < 0, binary64::abs(exact), 1);
            &&& binary64::sum(a, b).ordinal() == r.ordinal()
            &&& binary64::sum(a, b).value() == r.value()
        }),
{
    reveal(binary64::sum);
    let p = binary64::abs(a.value() + b.value());
    lemma_nearest_bounded(p, 1);
    signed_parts(a.negative() && b.negative(), 0);
    signed_parts(a.value() + b.value() < 0, rounding::nearest(p, 1));
    rounding::lemma_nearest_exact(0, 1, 0);
}

/// The last bit of a number is that of its ordinal.
proof fn lemma_parity(a: Binary64)
    ensures
        a.bits % 2 == 0 <==> a.ordinal() % 2 == 0,
{
}

/// No number lies closer to the exact sum of two finite numbers than their sum; where another one
/// lies as close, the last bit is zero.
pub proof fn sum_is_closest(a: Binary64, b: Binary64, d: Binary64)
    requires
        a.finite(),
        b.finite(),
        !d.nan(),
    ensures
        !binary64::sum(a, b).nan(),
        ({
            let exact = a.value() + b.value();
            let off = distance(binary64::sum(a, b).value() - exact);
            let other = distance(d.value() - exact);
            &&& off <= other
            &&& off == other && d.value() != binary64::sum(a, b).value()
                ==> binary64::sum(a, b).bits % 2 == 0
        }),
{
    let exact = a.value() + b.value();
    let r = binary64::rounded(exact < 0, binary64::abs(exact), 1);
    lemma_sum_parts(a, b);
    lemma_rounded_closest(exact < 0, binary64::abs(exact), 1, d);
    lemma_parity(binary64::sum(a, b));
    lemma_parity(r);
}

/// No number lies closer to the exact product of two finite numbers than their product; where
/// another one lies as close, the last bit is zero.
pub proof fn product_is_closest(a: Binary64, b: Binary64, d: Binary64)
    requires
        a.finite(),
        b.finite(),
        !d.nan(),
    ensures
        !binary64::product(a, b).nan(),
        ({
            let exact = a.value() * b.value();
            let off = distance(binary64::product(a, b).value() * one() - exact);
            let other = distance(d.value() * one() - exact);
            &&& off <= other
            &&& off == other && d.value() != binary64::product(a, b).value()
                ==> binary64::product(a, b).bits % 2 == 0
        }),
{
    reveal(binary64::product);
    lemma_pow2_pos(UNIT_EXPONENT as nat);
    lemma_product_sign(a, b);
    lemma_rounded_closest(
        a.negative() != b.negative(),
        binary64::abs(a.value()) * binary64::abs(b.value()),
        one(),
        d,
    );
}

/// The sign of a product, and its size.
proof fn lemma_product_sign(a: Binary64, b: Binary64)
    ensures
        with_sign(
            a.negative() != b.negative(),
            binary64::abs(a.value()) * binary64::abs(b.value()),
        ) == a.value() * b.value(),
{
    let (x, y) = (rounding::magnitude(a.ordinal()) as int, rounding::magnitude(b.ordinal()) as int);
    assert(-x * y == -(x * y) && x * -y == -(x * y) && -x * -y == x * y) by (nonlinear_arith);
}

/// No number lies closer to the exact quotient of two finite numbers than their quotient; where
/// another one lies as close, the last bit is zero.
pub proof fn quotient_is_closest(a: Binary64, b: Binary64, d: Binary64)
    requires
        a.finite(),
        b.finite(),
        b.value() > 0,
        !d.nan(),
    ensures
        !binary64::quotient(a, b).nan(),
        ({
            let exact = a.value() * one();
            let off = distance(binary64::quotient(a, b).value() * b.value() - exact);
            let other = distance(d.value() * b.value() - exact);
            &&& off <= other
            &&& off == other && d.value() != binary64::quotient(a, b).value()
                ==> binary64::quotient(a, b).bits % 2 == 0
        }),
{
    reveal(binary64::quotient);
    let x = rounding::magnitude(a.ordinal()) as int;
    let u = one() as int;
    assert(-x * u == -(x * u)) by (nonlinear_arith);
    assert(!b.negative());
    lemma_rounded_closest(
        a.negative(),
        binary64::abs(a.value()) * one(),
        binary64::abs(b.value()),
        d,
    );
}

/// A sum is not a number exactly where a term is not, or where the terms are opposite infinities; a
/// sum with one infinity is that infinity.
pub proof fn sums_without_a_number(a: Binary64, b: Binary64)
    ensures
        binary64::sum(a, b).nan() <==> a.nan() || b.nan() || (a.infinite() && b.infinite()
            && a.negative() != b.negative()),
        a.infinite() && b.finite() ==> binary64::sum(a, b) == a,
        b.infinite() && a.finite() ==> binary64::sum(a, b) == b,
{
    reveal(binary64::sum);
    if a.finite() && b.finite() {
        sum_is_closest(a, b, a);
    }
}

/// A product is not a number exactly where a factor is not, or where zero meets an infinity; an
/// infinity times a finite number above zero is that infinity.
pub proof fn products_without_a_number(a: Binary64, b: Binary64)
    ensures
        binary64::product(a, b).nan() <==> a.nan() || b.nan() || (a.infinite() && b.value() == 0)
            || (b.infinite() && a.value() == 0),
        a.infinite() && b.finite() && b.value() > 0 ==> binary64::product(a, b) == a,
{
    reveal(binary64::product);
    lemma_infinite_not_zero();
    signed_parts(a.negative() != b.negative(), INFINITE_ORDINAL as nat);
    if a.finite() && b.finite() {
        product_is_closest(a, b, a);
    }
}

/// The sum of two finite numbers of whatever sign, up to half the largest one, moves by at most
/// 2^-53 of itself.
pub proof fn sum_error(a: Binary64, b: Binary64)
    requires
        a.finite(),
        b.finite(),
        2 * distance(a.value() + b.value()) <= largest(),
    ensures
        binary64::sum(a, b).finite(),
        distance(binary64::sum(a, b).value() - (a.value() + b.value())) * 0x20_0000_0000_0000
            <= distance(a.value() + b.value()),
{
    let exact = a.value() + b.value();
    let p = binary64::abs(exact);
    let largest = rounding::magnitude((INFINITE_ORDINAL - 1) as nat);
    lemma_sum_parts(a, b);
    lemma_largest();
    assert(largest * 1 == largest);
    lemma_rounded_error(exact < 0, p, 1);
    lemma_bounded_finite(binary64::sum(a, b));
}

/// The product of a finite number of whatever sign, up to 2^1021, and a percentage is that part of it,
/// up to 2^-51 of it and 2^7 units.
pub proof fn percentage_error(a: Binary64, percent: nat)
    requires
        a.ordinal() <= 0x7fc0_0000_0000_0000,
        0 < percent <= 100,
    ensures
        ({
            let r = binary64::product(a, binary64::ratio_of(percent, 100));
            let off = distance(100 * r.value() - percent * a.value());
            &&& r.finite()
            &&& off * 0x20_0000_0000_0000 <= 4 * (percent * distance(a.value()))
                + 0x20_0000_0000_0000 * 128
        }),
{
    reveal(binary64::product);
    let u = one() as int;
    let ratio = binary64::ratio_of(percent, 100);
    let result = binary64::product(a, ratio);
    ratio_positive(percent, 100);
    ratio_rounded_once(percent, 100);
    ratio_in_unit_interval(percent, 100);
    lemma_one_is_many_units();
    lemma_largest();
    lemma_sixth_of_largest(a);
    let largest = rounding::magnitude((INFINITE_ORDINAL - 1) as nat) as int;
    let (x, r, w) = (a.value(), ratio.value(), result.value());
    let z = distance(x);
    assert(BINADE * 100 <= percent * u && percent * u <= largest * 100) by (nonlinear_arith)
        requires
            0 < percent <= 100,
            u > 0x1_0000_0000_0000_0000 * 0x1_0000_0000_0000_0000,
            BINADE == 0x10_0000_0000_0000,
            largest >= 0x1_0000_0000_0000_0000 * (0x2_0000 * u),
    ;
    rounding::lemma_nearest_error((percent * u) as nat, 100);
    let e = 100 * r - percent * u;
    assert(distance(e) * 0x20_0000_0000_0000 <= percent * u);
    // The product, rounded.
    let p = binary64::abs(x) * binary64::abs(r);
    assert(p == z * r);
    assert(p <= largest * u) by (nonlinear_arith)
        requires
            p == z * r,
            0 <= z <= largest,
            0 <= r <= u,
    {
        assert(z * r <= z * u);
        assert(z * u <= largest * u);
    }
    lemma_product_sign(a, ratio);
    lemma_rounded_error(a.negative() != ratio.negative(), p, u as nat);
    let d = w * u - x * r;
    assert(distance(d) * 0x20_0000_0000_0000 <= z * r + 0x20_0000_0000_0000 * u);
    // Both errors together.
    let off = 100 * w - percent * x;
    assert(off * u == 100 * d + x * e) by (nonlinear_arith)
        requires
            off == 100 * w - percent * x,
            d == w * u - x * r,
            e == 100 * r - percent * u,
    ;
    assert(distance(x * e) == z * distance(e)) by (nonlinear_arith)
        requires
            z == distance(x),
    ;
    let f = distance(e) * 0x20_0000_0000_0000;
    assert((z * distance(e)) * 0x20_0000_0000_0000 <= (percent * z) * u) by (nonlinear_arith)
        requires
            f == distance(e) * 0x20_0000_0000_0000,
            f <= percent * u,
            z >= 0,
    {
        assert((z * distance(e)) * 0x20_0000_0000_0000 == z * f);
        assert(z * f <= z * (percent * u));
        assert(z * (percent * u) == (percent * z) * u);
    }
    assert(100 * (z * r) <= 2 * ((percent * z) * u)) by (nonlinear_arith)
        requires
            100 * r <= 2 * (percent * u),
            z >= 0,
    {
        assert(z * (100 * r) <= z * (2 * (percent * u)));
        assert(z * (100 * r) == 100 * (z * r));
        assert(z * (2 * (percent * u)) == 2 * ((percent * z) * u));
    }
    assert(distance(off * u) == distance(off) * u) by (nonlinear_arith)
        requires
            u > 0,
    ;
    let g = distance(off) * 0x20_0000_0000_0000;
    assert(g * u == (distance(off) * u) * 0x20_0000_0000_0000) by (nonlinear_arith)
        requires
            g == distance(off) * 0x20_0000_0000_0000,
    ;
    let bound = 4 * (percent * z) + 0x20_0000_0000_0000 * 128;
    assert(bound * u == 4 * ((percent * z) * u) + 0x20_0000_0000_0000 * (128 * u))
        by (nonlinear_arith)
        requires
            bound == 4 * (percent * z) + 0x20_0000_0000_0000 * 128,
    ;
    assert(distance(off * u) <= 100 * distance(d) + distance(x * e));
    assert((percent * z) * u >= 0) by (nonlinear_arith)
        requires
            percent > 0,
            z >= 0,
            u > 0,
    ;
    assert((distance(off) * u) * 0x20_0000_0000_0000 <= 100 * (distance(d) * 0x20_0000_0000_0000)
        + distance(x * e) * 0x20_0000_0000_0000);
    let part = (percent * z) * u;
    let dn = distance(d) * 0x20_0000_0000_0000;
    let en = distance(x * e) * 0x20_0000_0000_0000;
    assert(dn <= z * r + 0x20_0000_0000_0000 * u);
    assert(en <= part);
    assert(100 * dn <= 2 * part + 0x20_0000_0000_0000 * (100 * u));
    assert(g * u <= 3 * part + 0x20_0000_0000_0000 * (100 * u));
    assert(g * u <= bound * u);
    assert(g <= bound) by (nonlinear_arith)
        requires
            g * u <= bound * u,
            u > 0,
    ;
    assert(percent * z <= 100 * z && percent * z >= 0) by (nonlinear_arith)
        requires
            0 < percent <= 100,
            z >= 0,
    ;
    assert(distance(percent * x) == percent * z) by (nonlinear_arith)
        requires
            percent > 0,
            z == distance(x),
    ;
    lemma_bounded_finite(result);
}

/// A part of a whole of at most 2^53, as a double, is that part up to 2^-53 of it.
pub proof fn ratio_near(i: nat, m: nat)
    requires
        i <= m,
        0 < m <= 2 * BINADE,
    ensures
        near_fraction(binary64::ratio_of(i, m).value(), (i * one()) as int, m as int),
{
    let u = one();
    ratio_rounded_once(i, m);
    if i == 0 {
        ratio_is_zero(0, m);
        let v = binary64::ratio_of(i, m).value();
        assert(v == 0);
        assert(i * u == 0 && m * v == 0) by (nonlinear_arith)
            requires
                i == 0,
                v == 0,
        ;
    } else {
        let largest = rounding::magnitude((INFINITE_ORDINAL - 1) as nat);
        lemma_largest();
        lemma_one_is_many_units();
        assert(BINADE * m <= i * u && i * u <= largest * m) by (nonlinear_arith)
            requires
                1 <= i <= m,
                m <= 2 * BINADE,
                u > 0x1_0000_0000_0000_0000 * 0x1_0000_0000_0000_0000,
                BINADE == 0x10_0000_0000_0000,
                largest >= 0x1_0000_0000_0000_0000 * (0x2_0000 * u),
        ;
        rounding::lemma_nearest_error(i * u, m);
        let v = rounding::magnitude(rounding::nearest(i * u, m));
        assert(v * m == m * v) by (nonlinear_arith);
    }
}

/// A larger part of a whole of at most 2^52 is a larger double.
pub proof fn ratio_strictly_grows(i: nat, j: nat, m: nat)
    requires
        i < j <= m,
        0 < m <= BINADE,
    ensures
        binary64::ratio_of(i, m).value() < binary64::ratio_of(j, m).value(),
        binary64::less(binary64::ratio_of(i, m), binary64::ratio_of(j, m)),
{
    let u = one() as int;
    ratio_near(i, m);
    ratio_near(j, m);
    ratio_in_unit_interval(i, m);
    ratio_in_unit_interval(j, m);
    lemma_pow2_pos(UNIT_EXPONENT as nat);
    let (x, y) = (binary64::ratio_of(i, m).value(), binary64::ratio_of(j, m).value());
    assert(j * u >= i * u + u && j * u <= m * u && m * u <= 0x10_0000_0000_0000 * u)
        by (nonlinear_arith)
        requires
            i + 1 <= j <= m,
            m <= 0x10_0000_0000_0000,
            u > 0,
    ;
    let (p, q) = (i * u, j * u);
    let (mx, my) = (m * x, m * y);
    assert((mx - p) * 0x20_0000_0000_0000 <= p);
    assert((q - my) * 0x20_0000_0000_0000 <= q);
    assert(mx < my);
    assert(x < y) by (nonlinear_arith)
        requires
            m * x < m * y,
            m > 0,
    ;
}

/// What the size of a difference stands for.
proof fn lemma_difference_value(a: Binary64, b: Binary64)
    requires
        a.finite(),
        b.finite(),
    ensures
        ({
            let size = binary64::absolute(binary64::difference(a, b));
            let k = rounding::nearest(binary64::abs(a.value() - b.value()), 1);
            &&& !size.nan()
            &&& size.value() == rounding::magnitude(k)
        }),
{
    let p = binary64::abs(a.value() - b.value());
    lemma_difference_size(a, b);
    lemma_nearest_bounded(p, 1);
    signed_parts(false, rounding::nearest(p, 1));
    assert(binary64::absolute(binary64::difference(a, b)) == binary64::signed(
        false,
        rounding::nearest(p, 1),
    ));
}

/// The size of a difference is above 0.01 where the exact one is, up to 2^-51 of it, and it is not
/// where the exact one is not.
pub proof fn difference_above_a_hundredth(a: Binary64, b: Binary64)
    requires
        a.finite(),
        b.finite(),
    ensures
        ({
            let exact = distance(a.value() - b.value());
            let above = binary64::less(
                binary64::ratio_of(1, 100),
                binary64::absolute(binary64::difference(a, b)),
            );
            &&& 100 * exact <= one() ==> !above
            &&& (100 * exact - one()) * 0x8_0000_0000_0000 >= one() ==> above
        }),
{
    let u = one();
    let p = binary64::abs(a.value() - b.value());
    let size = binary64::absolute(binary64::difference(a, b));
    let c = binary64::ratio_of(1, 100);
    let k = rounding::nearest(p, 1);
    lemma_difference_value(a, b);
    ratio_rounded_once(1, 100);
    ratio_positive(1, 100);
    lemma_nearest_bounded(1 * u, 100);
    signed_parts(false, rounding::nearest(1 * u, 100));
    assert(1 * u == u);
    let kc = rounding::nearest(u, 100);
    if 100 * p <= u {
        rounding::lemma_nearest_monotone(p, 1, u, 100);
        lemma_magnitude_ordered(k, kc);
    }
    if (100 * p - u) * 0x8_0000_0000_0000 >= u {
        ratio_near(1, 100);
        lemma_one_is_many_units();
        lemma_largest();
        let most = if p <= u {
            p
        } else {
            u
        };
        let j = rounding::nearest(most, 1);
        assert(rounding::magnitude((INFINITE_ORDINAL - 1) as nat) * 1 == rounding::magnitude(
            (INFINITE_ORDINAL - 1) as nat,
        ));
        rounding::lemma_nearest_error(most, 1);
        rounding::lemma_nearest_monotone(most, 1, p, 1);
        lemma_magnitude_ordered(j, k);
        let (m, v) = (rounding::magnitude(j) as int, c.value());
        assert((100 * most - u) * 0x8_0000_0000_0000 >= u);
        assert((most - m) * 0x20_0000_0000_0000 <= most);
        assert((100 * v - u) * 0x20_0000_0000_0000 <= u);
        assert(m > v) by (nonlinear_arith)
            requires
                (100 * most - u) * 0x8_0000_0000_0000 >= u,
                (most - m) * 0x20_0000_0000_0000 <= most,
                (100 * v - u) * 0x20_0000_0000_0000 <= u,
                0 < most <= u,
        ;
    }
}

/// The size of a difference is above 0.01 where that of a smaller difference is.
pub proof fn difference_grows(a: Binary64, b: Binary64, c: Binary64, d: Binary64)
    requires
        a.finite(),
        b.finite(),
        c.finite(),
        d.finite(),
        distance(a.value() - b.value()) <= distance(c.value() - d.value()),
    ensures
        binary64::at_most(
            binary64::absolute(binary64::difference(a, b)),
            binary64::absolute(binary64::difference(c, d)),
        ),
{
    let (p, q) = (binary64::abs(a.value() - b.value()), binary64::abs(c.value() - d.value()));
    lemma_difference_value(a, b);
    lemma_difference_value(c, d);
    rounding::lemma_nearest_monotone(p, 1, q, 1);
    lemma_magnitude_ordered(rounding::nearest(p, 1), rounding::nearest(q, 1));
}

/// A difference from an infinity is infinite, unless both are the same; one with what is not a number
/// is not a number.
pub proof fn difference_beyond_numbers(a: Binary64, b: Binary64)
    ensures
        a.nan() || b.nan() ==> binary64::absolute(binary64::difference(a, b)).nan(),
        a.infinite() && a == b ==> binary64::absolute(binary64::difference(a, b)).nan(),
        a.infinite() && !b.nan() && a != b ==> binary64::less(
            binary64::ratio_of(1, 100),
            binary64::absolute(binary64::difference(a, b)),
        ),
{
    negation_parts(b);
    sums_without_a_number(a, binary64::negation(b));
    let r = binary64::difference(a, b);
    assert(binary64::absolute(r).ordinal() == r.ordinal());
    if a.infinite() && !b.nan() && a != b {
        reveal(binary64::sum);
        ratio_positive(1, 100);
        lemma_value_exact(binary64::ratio_of(1, 100));
        lemma_value_exact(binary64::absolute(r));
        rounding::lemma_magnitude_increases(
            binary64::ratio_of(1, 100).ordinal(),
            INFINITE_ORDINAL as nat,
        );
    }
}

/// 0.3 over a hundred parts is the double 0.3.
pub proof fn thirty_hundredths()
    ensures
        binary64::ratio_of(30, 100).bits == 0x3fd3_3333_3333_3333,
{
    lemma2_to64_rest();
    ratio_bits(30, 100, 0x13_3333_3333_3333, 1020);
}

/// Numbers above zero with the same value are the same.
pub proof fn same_value_same_number(a: Binary64, b: Binary64)
    requires
        !a.nan(),
        !b.nan(),
        a.value() == b.value(),
        a.value() > 0,
    ensures
        a == b,
{
    let (i, j) = (a.ordinal(), b.ordinal());
    if i < j {
        rounding::lemma_magnitude_increases(i, j);
    } else if j < i {
        rounding::lemma_magnitude_increases(j, i);
    }
}

/// Six twentieths, multiplied and rounded, are not below 0.3.
pub proof fn six_twentieths()
    ensures
        binary64::ratio_of(30, 100).value() <= binary64::product(
            binary64::integer(6),
            binary64::ratio_of(5, 100),
        ).value(),
{
    lemma2_to64();
    lemma2_to64_rest();
    ratio_positive(5, 100);
    ratio_bits(5, 100, 0x19_9999_9999_999a, 1017);
    ratio_bits(30, 100, 0x13_3333_3333_3333, 1020);
    integer_exact(6);
    lemma_pow2_pos(UNIT_EXPONENT as nat);
    let u = one();
    let (a, r) = (binary64::integer(6), binary64::ratio_of(5, 100));
    let k = binary64::ratio_of(30, 100).ordinal();
    binary64::lemma_digits_ordinal(0x19_9999_9999_999a, 1017);
    binary64::lemma_digits_ordinal(0x13_3333_3333_3333, 1020);
    lemma_pow2_adds(1017, 3);
    lemma_product_rounded(a, r);
    let m = rounding::magnitude(k);
    assert((m * u) * u <= ((6 * u) * r.value()) * u) by (nonlinear_arith)
        requires
            r.value() == 0x19_9999_9999_999a * pow2(1017),
            m == 0x13_3333_3333_3333 * (pow2(1017) * 8),
    {
        assert(m <= 6 * r.value());
        assert(m * u <= (6 * r.value()) * u);
        assert((6 * r.value()) * u == (6 * u) * r.value());
    }
    rounding::lemma_nearest_exact(m * u, u, k);
    let p = binary64::abs(a.value()) * binary64::abs(r.value());
    assert(p == (6 * u) * r.value());
    rounding::lemma_nearest_monotone(m * u, u, p, u);
    lemma_magnitude_ordered(k, rounding::nearest(p, u));
}

/// No number lies closer to a fraction of integers up to 2^53 than the double for it.
pub proof fn ratio_is_closest(num: nat, den: nat, d: Binary64)
    requires
        num <= 2 * BINADE,
        0 < den <= 2 * BINADE,
        !d.nan(),
    ensures
        distance(binary64::ratio_of(num, den).value() * den - num * one()) <= distance(
            d.value() * den - num * one(),
        ),
{
    ratio_rounded_once(num, den);
    lemma_rounded_closest(false, num * one(), den, d);
}

/// No number lies closer to an integer than the double for it.
pub proof fn integer_is_closest(n: nat, d: Binary64)
    requires
        !d.nan(),
    ensures
        distance(binary64::integer(n).value() - n * one()) <= distance(d.value() - n * one()),
{
    lemma_rounded_closest(false, n * one(), 1, d);
}

} // verus!
