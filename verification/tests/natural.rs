use dentritic_calculus::Natural;

#[test]
fn natural_arithmetic() {
    let a = Natural::from_u64(u64::MAX);
    let b = Natural::from_u64(3);
    let sum = a.add(&b);
    assert_eq!(sum.decimal().iter().collect::<String>(), "18446744073709551618");
    assert_eq!(sum.sub(&b), a);
    assert_eq!(a.mul(&b).decimal().iter().collect::<String>(), "55340232221128654845");
    assert_eq!(a.mul(&b).div(&b), a);
    assert_eq!(Natural::from_u64(10).div(&Natural::from_u64(3)), Natural::from_u64(3));
    assert!(b.le(&a));
    assert!(!a.le(&b));
    assert!(b.lt(&a));
    assert!(Natural::zero().is_zero());
    assert!(!b.is_zero());
    assert_eq!(Natural::from_decimal("18446744073709551618"), sum);
    assert_eq!(Natural::from_decimal("007"), Natural::from_u64(7));
    assert_eq!(Natural::from_u64(255).to_u8(), Some(255));
    assert_eq!(Natural::from_u64(256).to_u8(), None);
    assert_eq!(Natural::from_u64(12345).to_usize(), Some(12345));
    assert_eq!(sum.to_usize(), None);
    assert_eq!(Natural::zero().decimal(), vec!['0']);
}
