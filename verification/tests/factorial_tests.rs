use fib_heap::factorial::factorial_from_u64;
use fib_heap::factorial::recursive_factorial;
use num::BigUint;

#[test]
fn test_factorial_small_values() {
    assert_eq!(factorial_from_u64(1).unwrap(), BigUint::from(1u64));
    assert_eq!(factorial_from_u64(2).unwrap(), BigUint::from(2u64));
    assert_eq!(factorial_from_u64(5).unwrap(), BigUint::from(120u64));
    assert_eq!(factorial_from_u64(10).unwrap(), BigUint::from(3628800u64));
}

#[test]
fn test_factorial_zero_is_rejected() {
    assert!(factorial_from_u64(0).is_none());
}

#[test]
fn test_recursive_factorial_direct() {
    let six = BigUint::from(6u64);
    assert_eq!(recursive_factorial(&six), BigUint::from(720u64));
    let one = BigUint::from(1u64);
    assert_eq!(recursive_factorial(&one), BigUint::from(1u64));
}

#[test]
fn test_factorial_large_value() {
    // 25! does not fit in 64 bits
    let r = factorial_from_u64(25).unwrap();
    assert_eq!(r.to_string(), "15511210043330985984000000");
}
