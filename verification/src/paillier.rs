//! The Paillier cryptosystem: key pairs, randomized encryption, decryption by
//! the L-function, and the combination of two ciphertexts into a ciphertext
//! of the sum of their plaintexts.

use crate::bignum::{
    big_add, big_bitor, big_clone, big_div, big_eq, big_lt, big_modinv, big_modpow, big_mul,
    big_one, big_parse_decimal, big_rem, big_shl, big_sub, big_to_decimal, big_value, big_zero,
    bit_or, decimal, has_inverse, is_digit, is_inverse, is_numeral, numeral_value, probably_prime,
    random_below, random_bits,
};
use crate::number_theory::{divides, is_prime, lemma_or_one, lemma_or_power_of_two};
use num_bigint::BigUint;
use vstd::arithmetic::power::pow;
use vstd::arithmetic::power2::pow2;
use vstd::prelude::*;
use vstd::string::StringSliceAdditionalSpecFns;

verus! {

/// Why an operation of this library did not give a result.
#[derive(Debug, Clone, Copy, PartialEq, Eq, Structural)]
pub enum PaillierError {
    /// A string that should be a decimal numeral is not one.
    InvalidNumeralEncoding,
    /// Two ciphertexts, or a ciphertext and a key, belong to different moduli.
    ModulusMismatch,
    /// No usable pair of primes was found within the bounded number of tries.
    KeyGenerationRetryExhausted,
    /// A number that cannot be a ciphertext under the key at hand.
    InvalidCiphertext,
}

/// The numbers that a key pair holds.
pub struct KeyView {
    pub n: nat,
    pub n_squared: nat,
    pub g: nat,
    pub lambda: nat,
    pub mu: nat,
}

impl KeyView {
    /// What can be checked of a key pair without knowing its primes: the
    /// modulus is above 1, `n_squared` is its square, the generator is
    /// `n + 1`, and `mu` is the inverse of `lambda` modulo `n`.
    pub open spec fn wf(self) -> bool {
        &&& self.n > 1
        &&& self.n_squared == self.n * self.n
        &&& self.g == self.n + 1
        &&& is_inverse(self.lambda, self.mu, self.n)
    }

    /// The key pair is built on the two distinct primes `p` and `q`.
    pub open spec fn built_on(self, p: nat, q: nat) -> bool {
        &&& p != q
        &&& self.n == p * q
        &&& self.lambda == (p - 1) * (q - 1)
        &&& self.wf()
    }

    /// The key pair is sound: `p` and `q`, on which it is built, are primes.
    pub open spec fn valid_for(self, p: nat, q: nat) -> bool {
        is_prime(p) && is_prime(q) && self.built_on(p, q)
    }
}

/// The numbers that a ciphertext holds.
pub struct CiphertextView {
    pub c: nat,
    pub n_squared: nat,
}

/// A Paillier key pair: the public part `n`, `n_squared`, `g` and the private
/// part `lambda`, `mu`.
#[derive(Debug)]
pub struct PaillierKey {
    pub n: BigUint,
    pub n_squared: BigUint,
    pub g: BigUint,
    pub lambda: BigUint,
    pub mu: BigUint,
}

impl View for PaillierKey {
    type V = KeyView;

    open spec fn view(&self) -> KeyView {
        KeyView {
            n: big_value(self.n),
            n_squared: big_value(self.n_squared),
            g: big_value(self.g),
            lambda: big_value(self.lambda),
            mu: big_value(self.mu),
        }
    }
}

/// A Paillier ciphertext: the number `c` and the modulus `n_squared` under
/// which it was made.
#[derive(Debug)]
pub struct PaillierCiphertext {
    pub c: BigUint,
    pub n_squared: BigUint,
}

impl View for PaillierCiphertext {
    type V = CiphertextView;

    open spec fn view(&self) -> CiphertextView {
        CiphertextView { c: big_value(self.c), n_squared: big_value(self.n_squared) }
    }
}

impl Clone for PaillierCiphertext {
    fn clone(&self) -> (r: Self)
        ensures
            r@ == self@,
    {
        PaillierCiphertext { c: big_clone(&self.c), n_squared: big_clone(&self.n_squared) }
    }
}

impl CiphertextView {
    /// The number lies below the modulus.
    pub open spec fn wf(self) -> bool {
        self.c < self.n_squared
    }
}

/// Whether `s` is a decimal numeral: one or more of the digits '0' to '9'.
pub fn check_numeral(s: &str) -> (ok: bool)
    ensures
        ok == is_numeral(s@),
{
    broadcast use vstd::string::is_ascii_spec_bytes;

    if !s.is_ascii() {
        return false;
    }
    let bytes = s.as_bytes();
    let len: usize = bytes.len();
    if len == 0 {
        return false;
    }
    let mut i: usize = 0;
    while i < len
        invariant
            i <= len,
            len == s@.len(),
            vstd::string::is_ascii(s),
            bytes@ == s.spec_bytes(),
            forall|j: int| 0 <= j < i ==> is_digit(#[trigger] s@[j]),
        decreases len - i,
    {
        let b = bytes[i];
        assert(b == s@[i as int] as u8);
        if b < 48 || b > 57 {
            assert(!is_digit(s@[i as int]));
            return false;
        }
        i = i + 1;
    }
    true
}

/// What reading a ciphertext of the modulus `n_squared` from `numeral`
/// gives: the ciphertext, or the reason why there is none.
pub open spec fn parsed(numeral: Seq<char>, n_squared: nat) -> Result<
    CiphertextView,
    PaillierError,
> {
    if !is_numeral(numeral) {
        Err(PaillierError::InvalidNumeralEncoding)
    } else if numeral_value(numeral) >= n_squared {
        Err(PaillierError::InvalidCiphertext)
    } else {
        Ok(CiphertextView { c: numeral_value(numeral), n_squared })
    }
}

impl PaillierCiphertext {
    /// A ciphertext from its number, which lies below the modulus, and its
    /// modulus.
    pub fn new(c: BigUint, n_squared: BigUint) -> (r: Self)
        requires
            big_value(c) < big_value(n_squared),
        ensures
            r@ == (CiphertextView { c: big_value(c), n_squared: big_value(n_squared) }),
            r@.wf(),
    {
        PaillierCiphertext { c, n_squared }
    }

    /// The ciphertext number as it is sent out: its decimal numeral.
    pub fn to_numeral(&self) -> (s: String)
        ensures
            s@ == decimal(self@.c),
    {
        big_to_decimal(&self.c)
    }

    /// Reads a ciphertext of the modulus `n_squared` from the decimal numeral
    /// of its number. A string that is no numeral is refused, and so is a
    /// number that does not lie below the modulus.
    pub fn from_numeral(numeral: &str, n_squared: &BigUint) -> (res: Result<
        PaillierCiphertext,
        PaillierError,
    >)
        ensures
            match res {
                Ok(ct) => parsed(numeral@, big_value(*n_squared)) == Ok::<
                    CiphertextView,
                    PaillierError,
                >(ct@),
                Err(e) => parsed(numeral@, big_value(*n_squared)) == Err::<
                    CiphertextView,
                    PaillierError,
                >(e),
            },
    {
        if !check_numeral(numeral) {
            return Err(PaillierError::InvalidNumeralEncoding);
        }
        match big_parse_decimal(numeral) {
            Some(c) => {
                if big_lt(&c, n_squared) {
                    Ok(PaillierCiphertext::new(c, big_clone(n_squared)))
                } else {
                    Err(PaillierError::InvalidCiphertext)
                }
            },
            None => Err(PaillierError::InvalidNumeralEncoding),
        }
    }
}

/// The ciphertext number of the plaintext `m` with the blinding factor `r`:
/// `g^m * r^n`, each power and the product reduced modulo `n_squared`.
pub open spec fn encryption(key: KeyView, m: nat, r: nat) -> nat {
    let gm = (pow(key.g as int, m) % (key.n_squared as int)) as nat;
    let rn = (pow(r as int, key.n) % (key.n_squared as int)) as nat;
    (gm * rn) % key.n_squared
}

/// The number that combines two ciphertext numbers: their product modulo
/// the modulus.
pub open spec fn combination(c1: nat, c2: nat, modulus: nat) -> nat {
    (c1 * c2) % modulus
}

/// The plaintext that the L-function recovers from the ciphertext number
/// `c`: with `x = c^lambda mod n_squared`, it is `((x - 1) / n) * mu mod n`.
/// There is none where `x` is 0.
pub open spec fn decryption(key: KeyView, c: nat) -> Option<nat> {
    let x = (pow(c as int, key.lambda) % (key.n_squared as int)) as nat;
    if x == 0 {
        None
    } else {
        Some(((((x - 1) as nat) / key.n) * key.mu) % key.n)
    }
}

/// What decrypting `ct` under `key` gives: the plaintext, or the reason why
/// there is none.
pub open spec fn decrypted(key: KeyView, ct: CiphertextView) -> Result<nat, PaillierError> {
    if ct.n_squared != key.n_squared {
        Err(PaillierError::ModulusMismatch)
    } else {
        match decryption(key, ct.c) {
            Some(m) => Ok(m),
            None => Err(PaillierError::InvalidCiphertext),
        }
    }
}

/// Encrypts `m` under `key` with the blinding factor `r`. Plaintexts count
/// modulo `n`. Only a blinding factor that has an inverse modulo `n` gives a
/// ciphertext that decrypts to `m`.
pub fn encrypt_with(key: &PaillierKey, m: &BigUint, r: &BigUint) -> (ct: PaillierCiphertext)
    requires
        key@.wf(),
    ensures
        ct@.c == encryption(key@, big_value(*m), big_value(*r)),
        ct@.n_squared == key@.n_squared,
        ct@.wf(),
{
    proof {
        lemma_square_positive(key@.n);
    }
    let gm = big_modpow(&key.g, m, &key.n_squared);
    let rn = big_modpow(r, &key.n, &key.n_squared);
    let product = big_mul(&gm, &rn);
    let c = big_rem(&product, &key.n_squared);
    proof {
        vstd::arithmetic::div_mod::lemma_mod_bound(
            big_value(product) as int,
            key@.n_squared as int,
        );
    }
    PaillierCiphertext::new(c, big_clone(&key.n_squared))
}

/// Encrypts `m` under `key` with a fresh random blinding factor below `n`,
/// drawn anew at each call.
pub fn encrypt(key: &PaillierKey, m: &BigUint) -> (ct: PaillierCiphertext)
    requires
        key@.wf(),
    ensures
        exists|r: nat| r < key@.n && ct@.c == encryption(key@, big_value(*m), r),
        ct@.n_squared == key@.n_squared,
        ct@.wf(),
{
    let r = random_below(&key.n);
    encrypt_with(key, m, &r)
}

/// Decrypts `ct` under `key`. A ciphertext of another modulus is refused,
/// and so is a number whose power `c^lambda` is 0 modulo `n_squared`, from
/// which the L-function recovers nothing.
pub fn decrypt(key: &PaillierKey, ct: &PaillierCiphertext) -> (res: Result<BigUint, PaillierError>)
    requires
        key@.wf(),
    ensures
        match res {
            Ok(m) => decrypted(key@, ct@) == Ok::<nat, PaillierError>(big_value(m)) && big_value(m)
                < key@.n,
            Err(e) => decrypted(key@, ct@) == Err::<nat, PaillierError>(e),
        },
{
    if !big_eq(&ct.n_squared, &key.n_squared) {
        return Err(PaillierError::ModulusMismatch);
    }
    proof {
        lemma_square_positive(key@.n);
    }
    let x = big_modpow(&ct.c, &key.lambda, &key.n_squared);
    let one = big_one();
    if big_lt(&x, &one) {
        return Err(PaillierError::InvalidCiphertext);
    }
    let l = big_div(&big_sub(&x, &one), &key.n);
    let product = big_mul(&l, &key.mu);
    let m = big_rem(&product, &key.n);
    proof {
        vstd::arithmetic::div_mod::lemma_mod_bound(big_value(product) as int, key@.n as int);
    }
    Ok(m)
}

/// Combines two ciphertexts that are known to have one modulus.
pub(crate) fn combine(c1: &PaillierCiphertext, c2: &PaillierCiphertext) -> (sum: PaillierCiphertext)
    requires
        c1@.n_squared == c2@.n_squared,
        c1@.n_squared > 0,
    ensures
        sum@.c == combination(c1@.c, c2@.c, c1@.n_squared),
        sum@.n_squared == c1@.n_squared,
        sum@.wf(),
{
    let product = big_mul(&c1.c, &c2.c);
    let c = big_rem(&product, &c1.n_squared);
    proof {
        vstd::arithmetic::div_mod::lemma_mod_bound(
            big_value(product) as int,
            c1@.n_squared as int,
        );
    }
    PaillierCiphertext::new(c, big_clone(&c1.n_squared))
}

/// Combines two ciphertexts of one modulus into a ciphertext of the sum of
/// their plaintexts. Ciphertexts of different moduli are refused.
pub fn homomorphic_addition(c1: &PaillierCiphertext, c2: &PaillierCiphertext) -> (res: Result<
    PaillierCiphertext,
    PaillierError,
>)
    requires
        c1@.wf(),
        c2@.wf(),
    ensures
        c1@.n_squared != c2@.n_squared ==> res == Err::<PaillierCiphertext, PaillierError>(
            PaillierError::ModulusMismatch,
        ),
        c1@.n_squared == c2@.n_squared ==> res.is_ok() && res.unwrap()@.c == combination(
            c1@.c,
            c2@.c,
            c1@.n_squared,
        ) && res.unwrap()@.n_squared == c1@.n_squared && res.unwrap()@.wf(),
{
    if !big_eq(&c1.n_squared, &c2.n_squared) {
        return Err(PaillierError::ModulusMismatch);
    }
    Ok(combine(c1, c2))
}

/// The square of a positive number is positive.
proof fn lemma_square_positive(n: nat)
    requires
        n > 0,
    ensures
        n * n > 0,
{
    assert(n * n > 0) by (nonlinear_arith)
        requires
            n > 0,
    ;
}

/// How many random candidates `gen_prime` tests before it gives up.
pub const MAX_PRIME_DRAWS: u64 = 0xffff_ffff_ffff_ffff;

/// How many pairs of primes `PaillierKey::new` draws before it gives up.
pub const MAX_KEY_ATTEMPTS: u32 = 128;

/// `x` is exactly `bits` bits long: its highest set bit is bit `bits - 1`.
pub open spec fn has_bit_length(x: nat, bits: nat) -> bool {
    bits >= 1 && pow2((bits - 1) as nat) <= x < pow2(bits)
}

/// The candidate that is made of the random number `raw`: `raw` with bit
/// `bits - 1` and bit 0 set.
pub open spec fn candidate_of(raw: nat, bits: nat) -> nat {
    bit_or(bit_or(raw, pow2((bits - 1) as nat)), 1)
}

/// A candidate made of a number of at most `bits` bits is odd and exactly
/// `bits` bits long.
pub proof fn lemma_candidate_shape(raw: nat, bits: nat)
    requires
        bits >= 1,
        raw < pow2(bits),
    ensures
        has_bit_length(candidate_of(raw, bits), bits),
        candidate_of(raw, bits) % 2 == 1,
{
    let k = (bits - 1) as nat;
    let top = bit_or(raw, pow2(k));
    lemma_or_power_of_two(raw, k);
    lemma_or_one(top);
    vstd::arithmetic::power2::lemma_pow2_unfold(bits);
}

/// Sets the highest and the lowest bit of a random number, so that it is odd
/// and `bits` bits long.
pub fn prime_candidate(raw: &BigUint, bits: usize) -> (cand: BigUint)
    requires
        bits >= 1,
    ensures
        big_value(cand) == candidate_of(big_value(*raw), bits as nat),
{
    let one = big_one();
    let top = big_shl(&one, bits - 1);
    let with_top = big_bitor(raw, &top);
    big_bitor(&with_top, &one)
}

/// What holds of a number that `gen_prime` hands out: it is odd, exactly
/// `bits` bits long, and, where it fits in 64 bits, a prime.
pub open spec fn drawn_prime(p: nat, bits: nat) -> bool {
    &&& has_bit_length(p, bits)
    &&& p % 2 == 1
    &&& bits <= 64 ==> is_prime(p)
}

/// Every odd number of exactly `bits` bits is a prime. Then neither the draw
/// nor the test decides whether `gen_prime` finds one: its first candidate
/// is a prime, whatever is drawn. So it is for 2 bits (3) and for 3 bits (5
/// and 7).
pub open spec fn only_primes(bits: nat) -> bool {
    forall|x: nat| #[trigger] has_bit_length(x, bits) && x % 2 == 1 ==> is_prime(x)
}

/// The odd numbers of 2 bits and of 3 bits are primes.
pub proof fn lemma_short_candidates_are_primes(bits: nat)
    requires
        bits == 2 || bits == 3,
    ensures
        only_primes(bits),
{
    vstd::arithmetic::power2::lemma2_to64();
    assert forall|x: nat| #[trigger] has_bit_length(x, bits) && x % 2 == 1 implies is_prime(
        x,
    ) by {
        assert(x == 3 || x == 5 || x == 7);
        assert forall|d: nat| 1 < d < x implies !#[trigger] divides(d, x) by {
            assert(d == 2 || d == 3 || d == 4 || d == 5 || d == 6);
        }
    }
}

/// Draws random odd numbers of exactly `bits` bits until one passes the
/// primality test, and hands out the first that does. `None` after
/// `MAX_PRIME_DRAWS` candidates that did not; that cannot be where the test
/// is exact and every candidate is a prime.
pub fn gen_prime(bits: usize) -> (res: Option<BigUint>)
    requires
        bits >= 2,
    ensures
        res matches Some(p) ==> drawn_prime(big_value(p), bits as nat),
        bits <= 64 && only_primes(bits as nat) ==> res.is_some(),
{
    let mut draws: u64 = 0;
    while draws < MAX_PRIME_DRAWS
        invariant
            bits >= 2,
            bits <= 64 && only_primes(bits as nat) ==> draws == 0,
        decreases MAX_PRIME_DRAWS - draws,
    {
        let raw = random_bits(bits as u64);
        let cand = prime_candidate(&raw, bits);
        proof {
            lemma_candidate_shape(big_value(raw), bits as nat);
            if bits <= 64 {
                vstd::arithmetic::power2::lemma_pow2_strictly_increases(bits as nat, 65);
                if bits < 64 {
                    vstd::arithmetic::power2::lemma_pow2_strictly_increases(bits as nat, 64);
                }
            }
        }
        if probably_prime(&cand) {
            return Some(cand);
        }
        // the test is exact below 2^64: this candidate is no prime
        assert(bits <= 64 ==> !is_prime(big_value(cand)));
        assert(!(bits <= 64 && only_primes(bits as nat)));
        draws = draws + 1;
    }
    None
}

/// The key pair is built on `p` and `q`, both as `gen_prime` hands them out
/// for `bits` bits.
pub open spec fn generated_from(key: KeyView, bits: nat, p: nat, q: nat) -> bool {
    key.built_on(p, q) && drawn_prime(p, bits) && drawn_prime(q, bits)
}

/// What holds of a generated key pair: it is built on two distinct numbers
/// that `gen_prime` handed out for `bits` bits.
pub open spec fn generated(key: KeyView, bits: nat) -> bool {
    exists|p: nat, q: nat| generated_from(key, bits, p, q)
}

impl PaillierKey {
    /// The key pair on the primes `p` and `q`. There is none where one of
    /// them is 0, where the two are equal, or where `(p - 1) * (q - 1)` has
    /// no inverse modulo `p * q`.
    pub fn from_primes(p: &BigUint, q: &BigUint) -> (res: Option<PaillierKey>)
        ensures
            match res {
                Some(key) => key@.built_on(big_value(*p), big_value(*q)),
                None => big_value(*p) == 0 || big_value(*q) == 0 || big_value(*p) == big_value(*q)
                    || !has_inverse(
                    ((big_value(*p) - 1) * (big_value(*q) - 1)) as nat,
                    big_value(*p) * big_value(*q),
                ),
            },
    {
        let zero = big_zero();
        if big_eq(p, &zero) || big_eq(q, &zero) || big_eq(p, q) {
            return None;
        }
        let one = big_one();
        let n = big_mul(p, q);
        let n_squared = big_mul(&n, &n);
        let g = big_add(&n, &one);
        let lambda = big_mul(&big_sub(p, &one), &big_sub(q, &one));
        proof {
            let (pv, qv) = (big_value(*p), big_value(*q));
            assert(pv * qv > 1) by (nonlinear_arith)
                requires
                    pv >= 1,
                    qv >= 1,
                    pv != qv,
            ;
        }
        match big_modinv(&lambda, &n) {
            Some(mu) => Some(PaillierKey { n, n_squared, g, lambda, mu }),
            None => None,
        }
    }

    /// Generates a key pair whose modulus has about `bits` bits: two primes
    /// of `bits / 2` bits each, drawn afresh until a pair gives a key, for
    /// at most `MAX_KEY_ATTEMPTS` pairs.
    pub fn new(bits: usize) -> (res: Result<PaillierKey, PaillierError>)
        requires
            bits >= 4,
        ensures
            match res {
                Ok(key) => key@.wf() && generated(key@, (bits / 2) as nat),
                Err(e) => e == PaillierError::KeyGenerationRetryExhausted,
            },
    {
        let half: usize = bits / 2;
        let mut attempts: u32 = 0;
        while attempts < MAX_KEY_ATTEMPTS
            invariant
                half == bits / 2,
                half >= 2,
            decreases MAX_KEY_ATTEMPTS - attempts,
        {
            let first = gen_prime(half);
            let second = gen_prime(half);
            if first.is_none() || second.is_none() {
                return Err(PaillierError::KeyGenerationRetryExhausted);
            }
            let p = first.unwrap();
            let q = second.unwrap();
            assert(drawn_prime(big_value(p), half as nat));
            assert(drawn_prime(big_value(q), half as nat));
            match PaillierKey::from_primes(&p, &q) {
                Some(key) => {
                    assert(generated_from(key@, half as nat, big_value(p), big_value(q)));
                    return Ok(key);
                },
                None => {},
            }
            attempts = attempts + 1;
        }
        Err(PaillierError::KeyGenerationRetryExhausted)
    }
}

} // verus!
