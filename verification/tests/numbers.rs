use plato_e2e_pipeline::text::{is_white_space, WordSet};
use plato_e2e_pipeline::Binary64;

fn bits(x: f64) -> Binary64 {
    Binary64 { bits: x.to_bits() }
}

fn same(x: Binary64, y: f64) -> bool {
    let x = f64::from_bits(x.bits);
    if y.is_nan() {
        x.is_nan()
    } else {
        x.to_bits() == y.to_bits()
    }
}

fn check(x: f64, y: f64) {
    let (a, b) = (bits(x), bits(y));
    assert!(same(a.add(b), x + y), "{:e} + {:e}", x, y);
    assert!(same(a.sub(b), x - y), "{:e} - {:e}", x, y);
    assert!(same(a.mul(b), x * y), "{:e} * {:e}", x, y);
    assert!(same(a.div(b), x / y), "{:e} / {:e}", x, y);
    assert_eq!(a.lt(b), x < y);
    assert_eq!(a.le(b), x <= y);
    assert!(same(a.abs(), x.abs()));
    assert!(same(a.neg(), -x));
    if x != 0.0 || y != 0.0 {
        assert!(same(a.min(b), x.min(y)), "min {:e} {:e}", x, y);
    }
}

fn next(state: &mut u64) -> u64 {
    *state ^= *state << 13;
    *state ^= *state >> 7;
    *state ^= *state << 17;
    *state
}

#[test]
fn special_numbers() {
    let numbers = [
        0.0,
        -0.0,
        1.0,
        -1.0,
        0.1,
        0.3,
        0.01,
        10.0,
        3600.0,
        f64::INFINITY,
        f64::NEG_INFINITY,
        f64::NAN,
        f64::MAX,
        f64::MIN,
        f64::MIN_POSITIVE,
        f64::EPSILON,
        f64::from_bits(1),
        f64::from_bits(0x000f_ffff_ffff_ffff),
        f64::from_bits(0x7fef_ffff_ffff_fffe),
        f64::from_bits(0x0010_0000_0000_0001),
        9007199254740991.0,
        9007199254740992.0,
        1.0 + f64::EPSILON,
        0.5 + f64::EPSILON / 4.0,
        1e-320,
        1e308,
    ];
    for x in numbers {
        for y in numbers {
            check(x, y);
        }
    }
}

#[test]
fn random_bit_patterns() {
    let mut state: u64 = 0x9e37_79b9_7f4a_7c15;
    for _ in 0..20000 {
        let x = f64::from_bits(next(&mut state));
        let y = f64::from_bits(next(&mut state));
        check(x, y);
    }
}

#[test]
fn random_numbers_of_similar_size() {
    let mut state: u64 = 0x1234_5678_9abc_def1;
    for _ in 0..20000 {
        let x = next(&mut state);
        let spread = next(&mut state) % 140;
        let low = next(&mut state) & 0x800f_ffff_ffff_ffff;
        let exponent = ((x >> 52) & 0x7ff).saturating_sub(spread);
        check(f64::from_bits(x), f64::from_bits(low | (exponent << 52)));
    }
}

#[test]
fn few_digits_give_ties() {
    let mut state: u64 = 77;
    for _ in 0..20000 {
        let x = (next(&mut state) % 64) as f64 * 2f64.powi((next(&mut state) % 120) as i32 - 60);
        let y = (next(&mut state) % 64) as f64 * 2f64.powi((next(&mut state) % 120) as i32 - 60);
        check(x, y);
        check(x, -y);
    }
}

#[test]
fn tiny_numbers() {
    let mut state: u64 = 99;
    for _ in 0..5000 {
        let x = f64::from_bits(next(&mut state) % 0x0040_0000_0000_0000);
        let y = f64::from_bits(next(&mut state) % 0x0040_0000_0000_0000);
        check(x, y);
        check(x, 0.75);
        check(y, 3.0);
        let z = f64::from_bits((next(&mut state) % 600 + 300) << 52 | (next(&mut state) >> 12));
        check(z, f64::from_bits((next(&mut state) % 600 + 300) << 52 | (next(&mut state) >> 12)));
    }
}

#[test]
fn integers_round_to_nearest() {
    let mut state: u64 = 5;
    let fixed = [
        0,
        1,
        2,
        10,
        9007199254740991,
        9007199254740992,
        9007199254740993,
        9007199254740994,
        9007199254740995,
        u64::MAX,
        u64::MAX - 1023,
        u64::MAX - 1024,
        u64::MAX - 1025,
    ];
    for n in fixed {
        assert!(same(Binary64::from_u64(n), n as f64), "{}", n);
    }
    for _ in 0..20000 {
        let n = next(&mut state) >> (next(&mut state) % 64);
        assert!(same(Binary64::from_u64(n), n as f64), "{}", n);
        let m = next(&mut state) >> (next(&mut state) % 64);
        assert!(same(Binary64::ratio(n, m), n as f64 / m as f64));
    }
}

#[test]
fn decimal_fractions_are_their_literals() {
    for (num, den, literal) in [
        (3, 10, 0.3),
        (30, 100, 0.30),
        (25, 100, 0.25),
        (20, 100, 0.20),
        (15, 100, 0.15),
        (10, 100, 0.10),
        (5, 100, 0.05),
        (1, 100, 0.01),
        (8, 10, 0.8),
        (9, 10, 0.9),
    ] {
        assert!(same(Binary64::ratio(num, den), literal));
    }
    assert!(same(Binary64::zero(), 0.0));
}

#[test]
fn white_space_is_that_of_unicode() {
    for c in '\0'..=char::MAX {
        assert_eq!(is_white_space(c), c.is_whitespace());
    }
}

#[test]
fn words_are_those_between_white_space() {
    let texts = [
        "",
        " ",
        "one",
        " one  two\tone\nthree\r\n",
        "\u{a0}no\u{2003}break\u{3000}space\u{200b}here",
        "a b c a b c",
        "tr\u{e8}s bien tr\u{e8}s",
        "x\u{85}y\u{2028}z",
    ];
    for a in texts {
        let set_a: std::collections::HashSet<&str> = a.split_whitespace().collect();
        assert_eq!(WordSet::of(a).len(), set_a.len());
        for b in texts {
            let set_b: std::collections::HashSet<&str> = b.split_whitespace().collect();
            assert_eq!(WordSet::of(a).common(&WordSet::of(b)), set_a.intersection(&set_b).count());
            assert_eq!(WordSet::of_both(a, b).len(), set_a.union(&set_b).count());
        }
    }
}
