use raytracer::fixed::{Fixed, ONE_RAW};

fn fx(num: i64, den: i64) -> Fixed {
    Fixed::from_ratio(num, den)
}

#[test]
fn one_is_two_to_the_32() {
    assert_eq!(Fixed::one().raw(), 1i64 << 32);
    assert_eq!(ONE_RAW, 4294967296);
    assert_eq!(Fixed::zero().raw(), 0);
    assert_eq!(Fixed::from_int(-3).raw(), -3 * ONE_RAW);
    assert_eq!(Fixed::from_int(i32::MAX).raw(), (i32::MAX as i64) << 32);
    assert_eq!(Fixed::from_int(i32::MIN).raw(), i64::MIN);
    assert_eq!(Fixed::from_raw(17).raw(), 17);
}

#[test]
fn ratio_rounds_toward_zero() {
    assert_eq!(fx(1, 3).raw(), 1431655765);
    assert_eq!(fx(-1, 3).raw(), -1431655765);
    assert_eq!(fx(1, -3).raw(), -1431655765);
    assert_eq!(fx(-1, -3).raw(), 1431655765);
    assert_eq!(fx(7, 10).raw(), 3006477107);
    assert_eq!(fx(1, 1000).raw(), 4294967);
    assert_eq!(fx(999, 1000).raw(), 4290672328);
    assert_eq!(fx(6, 3), Fixed::from_int(2));
}

#[test]
fn ratio_saturates() {
    assert_eq!(fx(i64::MAX, 1).raw(), i64::MAX);
    assert_eq!(fx(i64::MIN, 1).raw(), i64::MIN);
    assert_eq!(fx(i64::MIN, -1).raw(), i64::MAX);
}

#[test]
fn counts_saturate_at_two_to_the_31() {
    assert_eq!(Fixed::from_u64(0).raw(), 0);
    assert_eq!(Fixed::from_u64(5).raw(), 5 * ONE_RAW);
    assert_eq!(Fixed::from_u64(0x7fff_ffff).raw(), 0x7fff_ffff * ONE_RAW);
    assert_eq!(Fixed::from_u64(0x8000_0000).raw(), i64::MAX);
    assert_eq!(Fixed::from_u64(u64::MAX).raw(), i64::MAX);
}

#[test]
fn sums_and_differences_are_exact_in_range() {
    assert_eq!(fx(1, 2).add(fx(1, 4)), fx(3, 4));
    assert_eq!(fx(1, 2).sub(fx(3, 4)), fx(-1, 4));
    assert_eq!(fx(5, 1).neg(), fx(-5, 1));
    assert_eq!(fx(-5, 1).abs(), fx(5, 1));
    assert_eq!(fx(5, 1).abs(), fx(5, 1));
}

#[test]
fn sums_and_differences_saturate() {
    let max = Fixed::from_raw(i64::MAX);
    let min = Fixed::from_raw(i64::MIN);
    assert_eq!(max.add(Fixed::from_raw(1)), max);
    assert_eq!(max.add(max), max);
    assert_eq!(min.sub(Fixed::from_raw(1)), min);
    assert_eq!(min.add(min), min);
    assert_eq!(min.neg(), max);
    assert_eq!(min.abs(), max);
    assert_eq!(max.neg().raw(), i64::MIN + 1);
}

#[test]
fn products_round_toward_zero() {
    assert_eq!(fx(3, 2).mul(fx(5, 2)), fx(15, 4));
    assert_eq!(fx(-3, 2).mul(fx(5, 2)), fx(-15, 4));
    // 1.5 * -(1 + 2^-32) = -(1.5 + 1.5 * 2^-32), and the half unit is dropped
    assert_eq!(Fixed::from_raw(0x1_8000_0000).mul(Fixed::from_raw(-0x1_0000_0001)).raw(), -0x1_8000_0001);
    assert_eq!(Fixed::from_raw(0x1_8000_0000).mul(Fixed::from_raw(0x1_0000_0001)).raw(), 0x1_8000_0001);
    // the smallest positive number squared is below the resolution
    assert_eq!(Fixed::from_raw(1).mul(Fixed::from_raw(1)).raw(), 0);
    assert_eq!(Fixed::from_raw(-1).mul(Fixed::from_raw(1)).raw(), 0);
    assert_eq!(fx(7, 1).mul(Fixed::zero()), Fixed::zero());
}

#[test]
fn products_saturate() {
    let big = Fixed::from_int(100000);
    assert_eq!(big.mul(big).raw(), i64::MAX);
    assert_eq!(big.mul(big.neg()).raw(), i64::MIN);
    assert_eq!(Fixed::from_raw(i64::MIN).mul(Fixed::from_raw(i64::MIN)).raw(), i64::MAX);
}

#[test]
fn quotients_round_toward_zero() {
    assert_eq!(fx(1, 1).div(fx(3, 1)).raw(), 1431655765);
    assert_eq!(fx(-1, 1).div(fx(3, 1)).raw(), -1431655765);
    assert_eq!(fx(7, 1).div(fx(-2, 1)), fx(-7, 2));
    assert_eq!(fx(-7, 1).div(fx(-2, 1)), fx(7, 2));
    assert_eq!(Fixed::zero().div(fx(-2, 1)), Fixed::zero());
}

#[test]
fn quotients_saturate() {
    let tiny = Fixed::from_raw(1);
    assert_eq!(fx(1, 1).div(tiny), Fixed::from_raw(i64::MAX));
    assert_eq!(fx(-1, 1).div(tiny), Fixed::from_raw(i64::MIN));
    assert_eq!(Fixed::from_raw(i64::MIN).div(fx(-1, 1)), Fixed::from_raw(i64::MAX));
}

#[test]
fn square_roots_round_down() {
    assert_eq!(Fixed::zero().sqrt(), Fixed::zero());
    assert_eq!(fx(4, 1).sqrt(), fx(2, 1));
    assert_eq!(fx(1, 4).sqrt(), fx(1, 2));
    assert_eq!(fx(2, 1).sqrt().raw(), 6074000999);
    assert_eq!(Fixed::from_raw(1).sqrt().raw(), 65536);
    assert_eq!(Fixed::from_raw(i64::MAX).sqrt().raw(), 199032864766430);
}

#[test]
fn square_root_brackets_its_argument() {
    let mut raw: i64 = 1;
    while raw < i64::MAX / 3 {
        let r = Fixed::from_raw(raw).sqrt().raw() as i128;
        let n = (raw as i128) << 32;
        assert!(r * r <= n && n < (r + 1) * (r + 1));
        raw = raw * 3 + 1;
    }
}

#[test]
fn min_max_and_clamp() {
    assert_eq!(fx(1, 2).min(fx(1, 3)), fx(1, 3));
    assert_eq!(fx(1, 2).max(fx(1, 3)), fx(1, 2));
    assert_eq!(fx(-1, 1).min(fx(1, 1)), fx(-1, 1));
    assert_eq!(fx(5, 1).clamp(fx(0, 1), fx(1, 1)), fx(1, 1));
    assert_eq!(fx(-5, 1).clamp(fx(0, 1), fx(1, 1)), fx(0, 1));
    assert_eq!(fx(1, 2).clamp(fx(0, 1), fx(1, 1)), fx(1, 2));
}
