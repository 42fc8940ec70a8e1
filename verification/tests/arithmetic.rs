use fixed_biguint::biguint::add::__add2;
use fixed_biguint::biguint::mul::{__mul2, mul_with_carry};
use fixed_biguint::biguint::sub::{__sub2rev, sub2, sub2rev};
use fixed_biguint::{BigUint, BigUint256, DoubleBigUint};
use std::cmp::Ordering;

const MAX: u64 = u64::MAX;

#[test]
fn add_carries_into_the_third_limb() {
    let res = BigUint256::new([MAX, MAX, 1, 1]) + &BigUint256::one();
    assert_eq!(res.0, [0, 0, 2, 1]);
}

#[test]
fn add_carries_through_every_limb() {
    let res = BigUint256::new([MAX, MAX, MAX, 0]) + &BigUint256::new([1, 0, 0, 0]);
    assert_eq!(res.0, [0, 0, 0, 1]);
}

#[test]
fn add_is_commutative_on_values() {
    let x = BigUint256::new([MAX, 7, 0, 3]);
    let y = BigUint256::new([2, MAX, 5, 0]);
    assert_eq!(x + &y, y + &x);
    assert_eq!((x + &y).0, [1, 7, 6, 3]);
}

#[test]
fn add_zero_is_identity() {
    let x = BigUint256::new([9, 8, 7, 6]);
    assert_eq!(x + &BigUint256::zero(), x);
}

#[test]
fn add_small_numbers() {
    let x = BigUint256::new([MAX, 0, 0, 0]);
    assert_eq!((x + 1u32).0, [0, 1, 0, 0]);
    assert_eq!((x + 2u64).0, [1, 1, 0, 0]);
    assert_eq!(x + 0u32, x);
    assert_eq!(x + 0u64, x);
    assert_eq!(x + 3u32, x + 3u64);
}

#[test]
fn add_assign_forms() {
    let mut x = BigUint256::new([MAX, MAX, 0, 0]);
    x.add_assign(&BigUint256::one());
    assert_eq!(x.0, [0, 0, 1, 0]);
    x.add_assign_u32(u32::MAX);
    assert_eq!(x.0, [0xffff_ffff, 0, 1, 0]);
    x.add_assign_u64(MAX);
    assert_eq!(x.0, [0xffff_fffe, 1, 1, 0]);
}

#[test]
fn add2_on_slices() {
    let mut a = [MAX, 0, 0];
    assert_eq!(__add2(&mut a, &[1]), 0);
    assert_eq!(a, [0, 1, 0]);
    let mut b = [MAX, MAX, 0];
    assert_eq!(__add2(&mut b, &[1, 1]), 0);
    assert_eq!(b, [0, 1, 1]);
}

#[test]
fn sub_borrows_through_limbs() {
    let res = BigUint256::new([0, 0, 2, 1]) - &BigUint256::one();
    assert_eq!(res.0, [MAX, MAX, 1, 1]);
}

#[test]
fn sub_undoes_add() {
    let x = BigUint256::new([5, MAX, 3, 9]);
    let y = BigUint256::new([MAX, 1, MAX, 0]);
    assert_eq!((x + &y) - &y, x);
    assert_eq!(x - &x, BigUint256::zero());
}

#[test]
fn sub_assign_in_place() {
    let mut x = BigUint256::new([0, 1, 0, 0]);
    x.sub_assign(&BigUint256::new([1, 0, 0, 0]));
    assert_eq!(x.0, [MAX, 0, 0, 0]);
}

#[test]
fn sub2_on_slices() {
    let mut a = [0, 1];
    sub2(&mut a, &[1]);
    assert_eq!(a, [MAX, 0]);
    let mut c = [5];
    sub2(&mut c, &[3, 0, 0]);
    assert_eq!(c, [2]);
}

#[test]
fn sub2rev_on_slices() {
    let mut b = [3, 0, 0];
    sub2rev(&[5, 1], &mut b);
    assert_eq!(b, [2, 1, 0]);
}

#[test]
fn sub2rev_reports_borrow() {
    let mut b = [2, 0];
    assert_eq!(__sub2rev(&[1, 0], &mut b), 1);
    assert_eq!(b, [MAX, MAX]);
    let mut c = [3, 0];
    assert_eq!(__sub2rev(&[5, 1], &mut c), 0);
    assert_eq!(c, [2, 1]);
}

#[test]
fn checked_sub_cases() {
    let small = BigUint256::new([MAX, 0, 0, 0]);
    let big = BigUint256::new([0, 1, 0, 0]);
    assert_eq!(small.checked_sub(&big), None);
    assert_eq!(big.checked_sub(&big), Some(BigUint256::zero()));
    assert_eq!(big.checked_sub(&small), Some(BigUint256::one()));
}

#[test]
fn cmp_goes_by_the_most_significant_limb() {
    let a = BigUint256::new([MAX, 0, 0, 0]);
    let b = BigUint256::new([0, 1, 0, 0]);
    assert_eq!(a.cmp(&b), Ordering::Less);
    assert_eq!(b.cmp(&a), Ordering::Greater);
    assert_eq!(a.cmp(&a), Ordering::Equal);
    let c = BigUint256::new([0, 0, 0, 1]);
    let d = BigUint256::new([MAX, MAX, MAX, 0]);
    assert_eq!(c.cmp(&d), Ordering::Greater);
}

#[test]
fn zero_and_one_limbs() {
    assert_eq!(BigUint256::zero().0, [0, 0, 0, 0]);
    assert_eq!(BigUint256::one().0, [1, 0, 0, 0]);
    assert_eq!(BigUint::<1>::one().0, [1]);
    assert_eq!(BigUint256::new([1, 2, 3, 4]).0, [1, 2, 3, 4]);
}

#[test]
fn mul_full_product() {
    let x = BigUint256::new([0xffffffffffffffff, 0x2000000000000000, 0x3000000000000000, 0x4000000000000000]);
    let y = BigUint256::new([0x5000000000000000, 0x6000000000000000, 0x7000000000000000, 0x9000000000000000]);
    let res = x * &y;
    assert_eq!(res.low.0, [0xb000000000000000, 0xefffffffffffffff, 0xf9ffffffffffffff, 0xfaffffffffffffff]);
    assert_eq!(res.high.0, [0xc3ffffffffffffff, 0x3f00000000000000, 0x3700000000000000, 0x2400000000000000]);
    assert_eq!(res, y * &x);
}

#[test]
fn mul_largest_values() {
    let m = BigUint256::new([MAX, MAX, MAX, MAX]);
    let res = m * &m;
    assert_eq!(res.low.0, [1, 0, 0, 0]);
    assert_eq!(res.high.0, [MAX - 1, MAX, MAX, MAX]);
}

#[test]
fn mul_by_one_and_zero() {
    let x = BigUint256::new([3, MAX, 0, 8]);
    assert_eq!(x * &BigUint256::one(), DoubleBigUint { high: BigUint256::zero(), low: x });
    assert_eq!(x * &BigUint256::zero(), DoubleBigUint { high: BigUint256::zero(), low: BigUint256::zero() });
}

#[test]
fn mul2_splits_the_limb_product() {
    assert_eq!(__mul2(MAX, MAX), (1, MAX - 1));
    assert_eq!(__mul2(1 << 32, 1 << 32), (0, 1));
    assert_eq!(__mul2(6, 7), (42, 0));
}

#[test]
fn mul_with_carry_keeps_the_accumulator() {
    let mut acc = 5u64;
    assert_eq!(mul_with_carry(MAX, MAX, &mut acc), 6);
    assert_eq!(acc, 5);
    let mut acc2 = MAX;
    assert_eq!(mul_with_carry(2, 1, &mut acc2), 1);
    assert_eq!(acc2, MAX);
}
