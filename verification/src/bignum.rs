//! Arbitrary-precision natural numbers.
//!
//! The numbers are `num_bigint::BigUint` values. Verus does not look inside
//! them: this module declares the type, names the natural number that a value
//! holds, and wraps each operation that the library uses in a function whose
//! contract is trusted, not proved. The contracts say what the documentation
//! of `num-bigint`, `num-prime` and `rand` says of the operations.

use crate::number_theory::is_prime;
use num_bigint::BigUint;
use num_bigint::RandBigInt;
use num_traits::One;
use num_traits::Zero;
use vstd::arithmetic::power::pow;
use vstd::arithmetic::power2::pow2;
use vstd::prelude::*;

verus! {

/// `num_bigint::BigUint`, as a type that Verus carries without looking
/// inside.
#[verifier::external_type_specification]
#[verifier::external_body]
pub struct ExBigUint(num_bigint::BigUint);

/// The natural number that a `BigUint` holds.
pub uninterp spec fn big_value(b: BigUint) -> nat;

/// The bitwise "or" of two natural numbers, bit by bit from the lowest.
pub open spec fn bit_or(a: nat, b: nat) -> nat
    decreases a + b,
{
    if a == 0 {
        b
    } else if b == 0 {
        a
    } else {
        2 * bit_or(a / 2, b / 2) + if a % 2 == 1 || b % 2 == 1 {
            1nat
        } else {
            0nat
        }
    }
}

/// The character of the decimal digit `d`, for `d` below 10.
pub open spec fn digit_char(d: nat) -> char {
    ((48 + d) as u8) as char
}

/// The decimal numeral of `n`: no sign, no leading zero, "0" for zero.
pub open spec fn decimal(n: nat) -> Seq<char>
    decreases n,
{
    if n < 10 {
        seq![digit_char(n)]
    } else {
        decimal(n / 10).push(digit_char(n % 10))
    }
}

/// `c` is one of the characters '0' to '9'.
pub open spec fn is_digit(c: char) -> bool {
    '0' <= c <= '9'
}

/// `s` is a decimal numeral: one or more digits and nothing else.
pub open spec fn is_numeral(s: Seq<char>) -> bool {
    s.len() > 0 && forall|i: int| 0 <= i < s.len() ==> is_digit(#[trigger] s[i])
}

/// The number that a sequence of decimal digits denotes.
pub open spec fn numeral_value(s: Seq<char>) -> nat
    decreases s.len(),
{
    if s.len() == 0 {
        0
    } else {
        (numeral_value(s.drop_last()) * 10 + (s.last() as u32 - 48)) as nat
    }
}

/// `BigUint::zero()`: the number 0.
#[verifier::external_body]
pub(crate) fn big_zero() -> (r: BigUint)
    ensures
        big_value(r) == 0,
{
    BigUint::zero()
}

/// `BigUint::one()`: the number 1.
#[verifier::external_body]
pub(crate) fn big_one() -> (r: BigUint)
    ensures
        big_value(r) == 1,
{
    BigUint::one()
}

/// `BigUint::clone`: a second value that holds the same number.
#[verifier::external_body]
pub(crate) fn big_clone(a: &BigUint) -> (r: BigUint)
    ensures
        big_value(r) == big_value(*a),
{
    a.clone()
}

/// `==` on `BigUint`: whether the two hold the same number.
#[verifier::external_body]
pub(crate) fn big_eq(a: &BigUint, b: &BigUint) -> (r: bool)
    ensures
        r == (big_value(*a) == big_value(*b)),
{
    a == b
}

/// `<` on `BigUint`: whether the first number is the smaller.
#[verifier::external_body]
pub(crate) fn big_lt(a: &BigUint, b: &BigUint) -> (r: bool)
    ensures
        r == (big_value(*a) < big_value(*b)),
{
    a < b
}

/// `+` on `BigUint`: the sum.
#[verifier::external_body]
pub(crate) fn big_add(a: &BigUint, b: &BigUint) -> (r: BigUint)
    ensures
        big_value(r) == big_value(*a) + big_value(*b),
{
    a + b
}

/// `-` on `BigUint`: the difference. The operator panics where it would be
/// negative, so the contract leaves that out.
#[verifier::external_body]
pub(crate) fn big_sub(a: &BigUint, b: &BigUint) -> (r: BigUint)
    requires
        big_value(*a) >= big_value(*b),
    ensures
        big_value(r) == big_value(*a) - big_value(*b),
{
    a - b
}

/// `*` on `BigUint`: the product.
#[verifier::external_body]
pub(crate) fn big_mul(a: &BigUint, b: &BigUint) -> (r: BigUint)
    ensures
        big_value(r) == big_value(*a) * big_value(*b),
{
    a * b
}

/// `/` on `BigUint`: the quotient, rounded down. The operator panics on a
/// zero divisor.
#[verifier::external_body]
pub(crate) fn big_div(a: &BigUint, b: &BigUint) -> (r: BigUint)
    requires
        big_value(*b) > 0,
    ensures
        big_value(r) == big_value(*a) / big_value(*b),
{
    a / b
}

/// `%` on `BigUint`: the remainder. The operator panics on a zero divisor.
#[verifier::external_body]
pub(crate) fn big_rem(a: &BigUint, b: &BigUint) -> (r: BigUint)
    requires
        big_value(*b) > 0,
    ensures
        big_value(r) == big_value(*a) % big_value(*b),
{
    a % b
}

/// `<<` on `BigUint`: the number shifted up by `k` bits, which is the number
/// times `2^k`.
#[verifier::external_body]
pub(crate) fn big_shl(a: &BigUint, k: usize) -> (r: BigUint)
    ensures
        big_value(r) == big_value(*a) * pow2(k as nat),
{
    a << k
}

/// `|` on `BigUint`: the bitwise "or".
#[verifier::external_body]
pub(crate) fn big_bitor(a: &BigUint, b: &BigUint) -> (r: BigUint)
    ensures
        big_value(r) == bit_or(big_value(*a), big_value(*b)),
{
    a | b
}

/// `BigUint::modpow`: `base^exponent` reduced modulo `modulus`. It panics on
/// a zero modulus.
#[verifier::external_body]
pub(crate) fn big_modpow(base: &BigUint, exponent: &BigUint, modulus: &BigUint) -> (r: BigUint)
    requires
        big_value(*modulus) > 0,
    ensures
        big_value(r) == pow(big_value(*base) as int, big_value(*exponent)) % (big_value(
            *modulus,
        ) as int),
{
    base.modpow(exponent, modulus)
}

/// `BigUint::modinv`: the inverse of `a` modulo `modulus`, below the modulus,
/// or `None` where `a` has no inverse. It panics on a zero modulus.
#[verifier::external_body]
pub(crate) fn big_modinv(a: &BigUint, modulus: &BigUint) -> (r: Option<BigUint>)
    requires
        big_value(*modulus) > 0,
    ensures
        match r {
            Some(x) => is_inverse(big_value(*a), big_value(x), big_value(*modulus)),
            None => !has_inverse(big_value(*a), big_value(*modulus)),
        },
{
    a.modinv(modulus)
}

/// `x` is below `modulus`, and `a * x` leaves the remainder that 1 leaves.
pub open spec fn is_inverse(a: nat, x: nat, modulus: nat) -> bool {
    x < modulus && (a * x) % modulus == 1nat % modulus
}

/// `a` has an inverse modulo `modulus`.
pub open spec fn has_inverse(a: nat, modulus: nat) -> bool {
    exists|x: nat| is_inverse(a, x, modulus)
}

/// `BigUint::to_str_radix(10)`: the decimal numeral of the number.
#[verifier::external_body]
pub(crate) fn big_to_decimal(a: &BigUint) -> (r: String)
    ensures
        r@ == decimal(big_value(*a)),
{
    a.to_str_radix(10)
}

/// `BigUint::parse_bytes(.., 10)`: the number that a decimal numeral denotes.
/// The function reads more than plain digit strings; the contract speaks of
/// those alone.
#[verifier::external_body]
pub(crate) fn big_parse_decimal(s: &str) -> (r: Option<BigUint>)
    ensures
        is_numeral(s@) ==> r.is_some() && big_value(r.unwrap()) == numeral_value(s@),
{
    BigUint::parse_bytes(s.as_bytes(), 10)
}

/// `RandBigInt::gen_biguint` on the thread's generator: a random number of
/// at most `bits` bits.
#[verifier::external_body]
pub(crate) fn random_bits(bits: u64) -> (r: BigUint)
    ensures
        big_value(r) < pow2(bits as nat),
{
    rand::thread_rng().gen_biguint(bits)
}

/// `RandBigInt::gen_biguint_below` on the thread's generator: a random number
/// below `bound`. It panics on a zero bound.
#[verifier::external_body]
pub(crate) fn random_below(bound: &BigUint) -> (r: BigUint)
    requires
        big_value(*bound) > 0,
    ensures
        big_value(r) < big_value(*bound),
{
    rand::thread_rng().gen_biguint_below(bound)
}

/// `num_prime::nt_funcs::is_prime` with the default configuration, and
/// `Primality::probably` on its answer. Below `2^64` the test is exact; above,
/// it is probabilistic and nothing is claimed of it.
#[verifier::external_body]
pub(crate) fn probably_prime(candidate: &BigUint) -> (r: bool)
    ensures
        big_value(*candidate) < pow2(64) ==> r == is_prime(big_value(*candidate)),
{
    let config = num_prime::PrimalityTestConfig::default();
    num_prime::nt_funcs::is_prime(candidate, Some(config)).probably()
}

} // verus!
