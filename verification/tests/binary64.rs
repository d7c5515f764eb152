use koharu::binary64::Double;

fn value(d: Double) -> f64 {
    let (significand, exponent) = d.parts();
    significand as f64 * 2f64.powi(exponent)
}

fn next(state: &mut u64) -> u64 {
    *state = state
        .wrapping_mul(6364136223846793005)
        .wrapping_add(1442695040888963407);
    *state >> 11
}

#[test]
fn products_round_like_doubles() {
    let mut state = 1;
    for _ in 0..2000 {
        let a = next(&mut state) as i64 >> (next(&mut state) % 50);
        let b = -(next(&mut state) as i64 >> (next(&mut state) % 50));
        let r = Double::from_int(a).mul(Double::from_int(b));
        assert_eq!(value(r), a as f64 * b as f64);
    }
}

#[test]
fn sums_round_like_doubles() {
    let mut state = 2;
    for _ in 0..2000 {
        let a = next(&mut state) as i64 >> (next(&mut state) % 50);
        let b = next(&mut state) as i64 >> (next(&mut state) % 50);
        let c = -(next(&mut state) as i64 >> (next(&mut state) % 50));
        let product = Double::from_int(a).mul(Double::from_int(b));
        let other = Double::from_int(b).mul(Double::from_int(c));
        let exact = a as f64 * b as f64;
        let exact_other = b as f64 * c as f64;
        assert_eq!(value(product.add(other)), exact + exact_other);
        assert_eq!(value(product.sub(other)), exact - exact_other);
        assert_eq!(value(product.add(Double::from_int(c))), exact + c as f64);
    }
}

#[test]
fn quotients_and_roots_round_like_doubles() {
    let mut state = 3;
    for _ in 0..2000 {
        let a = next(&mut state) as i64 >> (next(&mut state) % 50);
        let b = 1 + (next(&mut state) as i64 >> (1 + next(&mut state) % 50));
        let quotient = Double::from_int(a).div(Double::from_int(b));
        let exact = a as f64 / b as f64;
        assert_eq!(value(quotient), exact);
        assert_eq!(value(quotient.sqrt()), exact.sqrt());
    }
}

#[test]
fn ties_go_to_the_even_significand() {
    // 2^53 + 1 lies halfway between two doubles, and so does 2^53 + 3.
    let big = Double::from_int(1 << 52).mul(Double::from_int(2));
    assert_eq!(value(big.add(Double::from_int(1))), 9007199254740992.0);
    assert_eq!(value(big.add(Double::from_int(3))), 9007199254740996.0);
}

#[test]
fn numbers_compare_and_round() {
    let third = Double::from_int(1).div(Double::from_int(3));
    let half = Double::from_int(1).half();
    assert!(third.lt(half));
    assert!(!half.lt(third));
    assert!(!half.lt(half));
    assert!(half.neg().lt(third));
    assert_eq!(half.round(), 1);
    assert_eq!(third.round(), 0);
    assert_eq!(half.neg().abs().parts(), half.parts());
    assert_eq!(Double::new(5, -1).round(), 3);
}
