//! Factorial over arbitrary-precision natural numbers.
//!
//! The big integers themselves come from the `num` crate; each call into it
//! stands behind a trusted wrapper whose contract speaks of the abstract
//! value `big_value`.

use vstd::prelude::*;

verus! {

/// The natural number that a `BigUint` stands for.
pub uninterp spec fn big_value(b: num::BigUint) -> nat;

#[verifier::external_type_specification]
#[verifier::external_body]
pub struct ExBigUint(num::BigUint);

/// Relies on `impl From<u64> for BigUint`: builds the big integer of value `n`.
#[verifier::external_body]
fn big_from_u64(n: u64) -> (r: num::BigUint)
    ensures
        big_value(r) == n,
{
    num::BigUint::from(n)
}

/// Relies on `num::One::is_one` for `BigUint`: true exactly when the value is 1.
#[verifier::external_body]
fn big_is_one(b: &num::BigUint) -> (r: bool)
    ensures
        r <==> big_value(*b) == 1,
{
    num::One::is_one(b)
}

/// Relies on `impl Sub<u32> for &BigUint`: subtracts one from the value. The
/// crate panics on underflow, so a positive value is required.
#[verifier::external_body]
fn big_sub_one(b: &num::BigUint) -> (r: num::BigUint)
    requires
        big_value(*b) >= 1,
    ensures
        big_value(r) == big_value(*b) - 1,
{
    b - 1u32
}

/// Relies on `impl Mul for &BigUint`: multiplies the two values.
#[verifier::external_body]
fn big_mul(a: &num::BigUint, b: &num::BigUint) -> (r: num::BigUint)
    ensures
        big_value(r) == big_value(*a) * big_value(*b),
{
    a * b
}

/// `n` factorial over mathematical naturals; both 0 and 1 map to 1.
pub open spec fn fact(n: nat) -> nat
    decreases n,
{
    if n <= 1 {
        1
    } else {
        n * fact((n - 1) as nat)
    }
}

/// The factorial of a positive big integer, by direct recursion.
pub fn recursive_factorial(n: &num::BigUint) -> (r: num::BigUint)
    requires
        big_value(*n) >= 1,
    ensures
        big_value(r) == fact(big_value(*n)),
    decreases big_value(*n),
{
    if big_is_one(n) {
        big_from_u64(1)
    } else {
        let m = big_sub_one(n);
        let f = recursive_factorial(&m);
        big_mul(n, &f)
    }
}

/// The factorial of `n`, or `None` when `n` is zero.
pub fn factorial_from_u64(n: u64) -> (r: Option<num::BigUint>)
    ensures
        n >= 1 ==> r is Some && big_value(r->Some_0) == fact(n as nat),
        n == 0 ==> r is None,
{
    if n == 0 {
        None
    } else {
        let b = big_from_u64(n);
        Some(recursive_factorial(&b))
    }
}

} // verus!
