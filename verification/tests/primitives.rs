use lehopt::primitives::integer::{Int, IntNonnegFitsInUsize};
use lehopt::primitives::scalar::rational::Rational;

#[test]
fn test_int_constants() {
    assert_eq!(<i32 as Int>::MAX, i32::MAX);
    assert_eq!(<i64 as Int>::MAX, i64::MAX);
    assert_eq!(<usize as Int>::MAX, usize::MAX);
    assert_eq!(<i32 as Int>::ONE, 1);
    assert_eq!(<usize as Int>::ZERO, 0);
    assert!(<i32 as Int>::SIGNED);
    assert!(!<usize as Int>::SIGNED);
    assert_eq!(<i32 as Int>::BITS, 32);
    assert!(<i32 as Int>::CHECK_CARDINALITY);
    assert!(!<i64 as Int>::CHECK_CARDINALITY);
}

#[test]
fn test_int_conversions() {
    assert_eq!(<i32 as Int>::from_usize_unchecked(17), 17i32);
    assert_eq!(<i64 as Int>::from_usize_unchecked(17), 17i64);
    assert_eq!(17i32.to_usize_unchecked(), 17usize);
    assert_eq!((-1i32).to_usize_unchecked(), usize::MAX);
    assert_eq!((-2i32).to_usize_unchecked(), usize::MAX - 1);
    assert_eq!(5usize.to_usize_unchecked(), 5usize);
    assert_eq!((-5i64).to_i128(), -5i128);
    assert_eq!(<i32 as Int>::from_i128_unchecked(-9), -9i32);
}

#[test]
fn test_int_up_to() {
    let mut it = 2i32.up_to(5);
    let mut seen = vec![];
    while let Some(x) = it.next() {
        seen.push(x);
    }
    assert_eq!(seen, vec![2, 3, 4]);
    assert!(it.next().is_none());

    let mut empty = 5usize.up_to(5);
    assert!(empty.next().is_none());
    let mut backwards = 3i64.up_to(-3);
    assert!(backwards.next().is_none());
}

#[test]
fn test_rational_exists() {
    let _r = Rational {};
}
