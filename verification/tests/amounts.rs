use db_test::Amount;

#[test]
fn add_and_sub_small_values() {
    let a = Amount::from_u64(1000);
    let b = Amount::from_u64(17);
    assert_eq!(a.checked_add(&b), Some(Amount::from_u64(1017)));
    assert_eq!(a.checked_sub(&b), Some(Amount::from_u64(983)));
    assert_eq!(b.checked_sub(&a), None);
}

#[test]
fn add_carries_across_limbs() {
    let a = Amount { l0: u64::MAX, l1: u64::MAX, l2: 0, l3: 0 };
    let one = Amount::from_u64(1);
    assert_eq!(a.checked_add(&one), Some(Amount { l0: 0, l1: 0, l2: 1, l3: 0 }));
}

#[test]
fn sub_borrows_across_limbs() {
    let a = Amount { l0: 0, l1: 0, l2: 1, l3: 0 };
    let one = Amount::from_u64(1);
    assert_eq!(a.checked_sub(&one), Some(Amount { l0: u64::MAX, l1: u64::MAX, l2: 0, l3: 0 }));
}

#[test]
fn add_overflows_at_max() {
    let max = Amount { l0: u64::MAX, l1: u64::MAX, l2: u64::MAX, l3: u64::MAX };
    assert_eq!(max.checked_add(&Amount::from_u64(1)), None);
    assert_eq!(max.checked_add(&Amount::from_u64(0)), Some(max));
}

#[test]
fn comparison_follows_value() {
    let small = Amount::from_u64(5);
    let big = Amount { l0: 0, l1: 0, l2: 0, l3: 1 };
    assert!(small.lt(&big));
    assert!(!big.lt(&small));
    assert!(!small.lt(&small));
}

#[test]
fn from_u128_splits_limbs() {
    let v = Amount::from_u128(1_000_000_000_000_000_000_000u128);
    // 10^21 = 0x36 * 2^64 + 0x35c9adc5dea00000
    assert_eq!(v.l1, 0x36);
    assert_eq!(v.l0, 0x35c9adc5dea00000);
    assert_eq!(v.l2, 0);
    assert_eq!(v.l3, 0);
}
