use staking::perbill::{share_of, Perbill};

#[test]
fn from_parts_caps_at_one() {
    assert_eq!(Perbill::from_parts(60).deconstruct(), 60);
    assert_eq!(Perbill::from_parts(1_000_000_000).deconstruct(), 1_000_000_000);
    assert_eq!(Perbill::from_parts(u32::MAX).deconstruct(), 1_000_000_000);
}

#[test]
fn from_millionths_scales() {
    assert_eq!(Perbill::from_millionths(1000).deconstruct(), 1_000_000);
    assert_eq!(Perbill::from_millionths(2_000_000).deconstruct(), 1_000_000_000);
}

#[test]
fn from_rational_rounds_down() {
    assert_eq!(Perbill::from_rational_approximation(1, 3).deconstruct(), 333_333_333);
    assert_eq!(Perbill::from_rational_approximation(2, 3).deconstruct(), 666_666_666);
    assert_eq!(Perbill::from_rational_approximation(1, 4).deconstruct(), 250_000_000);
    assert_eq!(Perbill::from_rational_approximation(0, 4).deconstruct(), 0);
    assert_eq!(Perbill::from_rational_approximation(4, 4).deconstruct(), 1_000_000_000);
}

#[test]
fn from_rational_of_more_than_the_whole_is_one() {
    assert_eq!(Perbill::from_rational_approximation(5, 4).deconstruct(), 1_000_000_000);
    assert_eq!(Perbill::from_rational_approximation(5, 0).deconstruct(), 1_000_000_000);
    assert_eq!(Perbill::from_rational_approximation(0, 0).deconstruct(), 1_000_000_000);
}

#[test]
fn from_rational_of_large_values() {
    assert_eq!(
        Perbill::from_rational_approximation(u64::MAX / 2, u64::MAX).deconstruct(),
        499_999_999
    );
    assert_eq!(Perbill::from_rational_approximation(u64::MAX, u64::MAX).deconstruct(), 1_000_000_000);
}

#[test]
fn mul_floor_rounds_down() {
    assert_eq!(Perbill::from_parts(333_333_333).mul_floor(3), 0);
    assert_eq!(Perbill::from_parts(500_000_000).mul_floor(3), 1);
    assert_eq!(Perbill::from_parts(500_000_000).mul_floor(101), 50);
    assert_eq!(Perbill::from_parts(1_000_000_000).mul_floor(u64::MAX), u64::MAX);
    assert_eq!(Perbill::from_parts(0).mul_floor(u64::MAX), 0);
    assert_eq!(Perbill::from_parts(1_000_000).mul_floor(1_000_000), 1000);
    assert_eq!(Perbill::from_parts(999_999_999).mul_floor(u64::MAX), 18446744055262807541);
}

#[test]
fn share_rounds_twice() {
    assert_eq!(share_of(1, 3, 3), 0);
    assert_eq!(share_of(1, 3, 300), 99);
    assert_eq!(share_of(1, 2, 300), 150);
    assert_eq!(share_of(3, 3, 7), 7);
    assert_eq!(share_of(0, 3, 7), 0);
}

/// A sequence of numbers of all sizes that looks random and is always the
/// same.
fn numbers(mut seed: u64, n: usize) -> Vec<u64> {
    let mut out = Vec::with_capacity(n);
    for i in 0..n {
        seed = seed.wrapping_mul(6364136223846793005).wrapping_add(1442695040888963407);
        out.push(seed >> (i % 64));
    }
    out
}

#[test]
fn from_rational_is_the_rounded_down_quotient() {
    let ps = numbers(1, 2000);
    let qs = numbers(2, 2000);
    for (&p, &q) in ps.iter().zip(qs.iter()) {
        let expected = if q == 0 || p > q {
            1_000_000_000
        } else {
            (p as u128 * 1_000_000_000 / q as u128) as u32
        };
        assert_eq!(Perbill::from_rational_approximation(p, q).deconstruct(), expected);
    }
    for q in [1u64, 2, 3, 7, 1_000_000_000, 1_000_000_001, u64::MAX - 1, u64::MAX] {
        for p in [0u64, 1.min(q), 2.min(q), q / 3, q / 2, q - 1, q] {
            let expected = (p as u128 * 1_000_000_000 / q as u128) as u32;
            assert_eq!(Perbill::from_rational_approximation(p, q).deconstruct(), expected);
        }
    }
}

#[test]
fn mul_floor_is_the_rounded_down_product() {
    let parts = numbers(3, 2000);
    let bs = numbers(4, 2000);
    for (&part, &b) in parts.iter().zip(bs.iter()) {
        let part = (part % 1_000_000_001) as u32;
        let expected = (b as u128 * part as u128 / 1_000_000_000) as u64;
        assert_eq!(Perbill::from_parts(part).mul_floor(b), expected);
    }
    for part in [0u32, 1, 2, 999_999_999, 1_000_000_000] {
        for b in [0u64, 1, 999_999_999, 1_000_000_000, 1_000_000_001, u64::MAX - 1, u64::MAX] {
            let expected = (b as u128 * part as u128 / 1_000_000_000) as u64;
            assert_eq!(Perbill::from_parts(part).mul_floor(b), expected);
        }
    }
}
