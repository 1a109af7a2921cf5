//! Why decryption recovers what was encrypted, and why the combination of two
//! ciphertexts is a ciphertext of the sum: the theorems of the cryptosystem,
//! stated over the functions that the contracts of `paillier` speak of.

use crate::bignum::{
    decimal, digit_char, has_inverse, is_digit, is_inverse, is_numeral, numeral_value,
};
use crate::ledger::{appended, balance, credited, debited, latest, raised, RecordView};
use crate::number_theory::{lemma_euler_two_primes, lemma_pow_one_plus_multiple};
use crate::paillier::{
    combination, decrypted, decryption, encryption, generated, generated_from, CiphertextView,
    KeyView, PaillierError,
};
use vstd::arithmetic::div_mod::*;
use vstd::arithmetic::mul::*;
use vstd::arithmetic::power::*;
use vstd::prelude::*;

verus! {

/// `g^m * r^n` modulo `n_squared`: the plaintext `m`, masked by the `n`-th
/// power of `r`.
pub open spec fn masked(key: KeyView, m: nat, r: nat) -> int {
    (pow(key.g as int, m) * pow(r as int, key.n)) % (key.n_squared as int)
}

/// `c` is a ciphertext number of the plaintext `m`: `m` masked by the power
/// of some number that has an inverse modulo `n`. The plaintext counts
/// modulo `n`; it need not be below `n` here.
pub open spec fn encrypts(key: KeyView, c: nat, m: nat) -> bool {
    exists|r: nat| has_inverse(r, key.n) && c == #[trigger] masked(key, m, r)
}

/// The square of a number above 1 is above 1.
proof fn lemma_square_above_one(n: nat)
    requires
        n > 1,
    ensures
        n * n > n,
{
    assert(n * n > n) by (nonlinear_arith)
        requires
            n > 1,
    ;
}

/// The encryption with the blinding factor `r` is `m` masked by `r`.
pub proof fn lemma_encryption_is_masked(key: KeyView, m: nat, r: nat)
    requires
        key.n_squared > 0,
    ensures
        encryption(key, m, r) == masked(key, m, r),
{
    let big = key.n_squared as int;
    let gm = pow(key.g as int, m);
    let rn = pow(r as int, key.n);
    lemma_mod_bound(gm, big);
    lemma_mod_bound(rn, big);
    lemma_mul_mod_noop_general(gm, rn, big);
}

/// Where `r` and `s` have inverses modulo `n`, so has their product.
pub proof fn lemma_product_has_inverse(r: nat, s: nat, n: nat)
    requires
        n > 1,
        has_inverse(r, n),
        has_inverse(s, n),
    ensures
        has_inverse(r * s, n),
{
    let x = choose|x: nat| is_inverse(r, x, n);
    let y = choose|y: nat| is_inverse(s, y, n);
    let m = n as int;
    let rs = (r * s) as int;
    let xy = (x * y) as int;
    let rx = (r * x) as int;
    let sy = (s * y) as int;
    let z = (xy % m) as nat;
    lemma_mod_bound(xy, m);
    lemma_small_mod(1, n);
    // (r * s) * z  ==  (r * s) * (x * y)  ==  (r * x) * (s * y)  ==  1 * 1
    lemma_mul_mod_noop_right(rs, xy, m);
    assert(rs * xy == rx * sy) by (nonlinear_arith)
        requires
            rs == r * s,
            xy == x * y,
            rx == r * x,
            sy == s * y,
    ;
    lemma_mul_mod_noop_general(rx, sy, m);
    assert(rx % m == 1 && sy % m == 1);
    assert((rx % m) * (sy % m) == 1) by (nonlinear_arith)
        requires
            rx % m == 1,
            sy % m == 1,
    ;
    assert((rs * (z as int)) % m == 1);
    assert(((r * s) * z) as int == rs * (z as int));
    assert(is_inverse(r * s, z, n));
}

/// A number that has an inverse modulo `p * q` is no multiple of `p`.
proof fn lemma_inverse_excludes_factor(r: nat, p: nat, q: nat)
    requires
        p > 1,
        q > 0,
        has_inverse(r, p * q),
    ensures
        r % p != 0,
{
    let n = p * q;
    assert(n > 1) by (nonlinear_arith)
        requires
            p > 1,
            q > 0,
            n == p * q,
    ;
    let x = choose|x: nat| is_inverse(r, x, n);
    lemma_small_mod(1, n);
    lemma_small_mod(1, p);
    let prod = (r * x) as int;
    // prod == n * k + 1 == p * (q * k) + 1, which leaves 1 modulo p
    lemma_fundamental_div_mod(prod, n as int);
    let k = prod / (n as int);
    assert(prod == p * (q * k) + 1) by (nonlinear_arith)
        requires
            prod == n * k + 1,
            n == p * q,
    ;
    lemma_mod_multiples_vanish(q * k, 1, p as int);
    assert(prod % (p as int) == 1);
    if r % p == 0 {
        lemma_mul_mod_noop_left(r as int, x as int, p as int);
        assert(0 * (x as int) == 0);
        lemma_small_mod(0, p);
    }
}

/// Raised to `lambda`, a number that has an inverse modulo `n` leaves the
/// remainder 1 modulo `n`.
pub proof fn lemma_unit_power(key: KeyView, p: nat, q: nat, r: nat)
    requires
        key.valid_for(p, q),
        has_inverse(r, key.n),
    ensures
        pow(r as int, key.lambda) % (key.n as int) == 1,
{
    lemma_inverse_excludes_factor(r, p, q);
    lemma_mul_is_commutative(p as int, q as int);
    lemma_inverse_excludes_factor(r, q, p);
    lemma_euler_two_primes(p, q, r);
}

/// Modulo `n_squared`, the `n`-th power of a number that leaves 1 modulo `n`
/// leaves 1.
proof fn lemma_nth_power_of_unit(n: int, y: int)
    requires
        n > 1,
        y % n == 1,
    ensures
        pow(y, n as nat) % (n * n) == 1,
{
    let big = n * n;
    assert(big > n) by (nonlinear_arith)
        requires
            n > 1,
            big == n * n,
    ;
    lemma_fundamental_div_mod(y, n);
    let t = y / n;
    lemma_mul_is_commutative(n, t);
    assert(y == 1 + t * n);
    lemma_pow_one_plus_multiple(n, t, n as nat);
    assert(1 + n * t * n == big * t + 1) by (nonlinear_arith)
        requires
            big == n * n,
    ;
    lemma_mod_multiples_vanish(t, 1, big);
    lemma_small_mod(1, big as nat);
}

/// Modulo `n_squared`, the `lambda`-th power of `m` masked by `r` is
/// `1 + (m * lambda) * n`.
proof fn lemma_masked_power(key: KeyView, p: nat, q: nat, m: nat, r: nat)
    requires
        key.valid_for(p, q),
        has_inverse(r, key.n),
    ensures
        masked(key, m, r) >= 0,
        pow(masked(key, m, r), key.lambda) % (key.n_squared as int) == (1 + ((m * key.lambda)
            * key.n) as int) % (key.n_squared as int),
{
    let n = key.n as int;
    let big = key.n_squared as int;
    let lam = key.lambda;
    let g = key.g as int;
    let c = masked(key, m, r);
    lemma_square_above_one(key.n);
    let gm = pow(g, m);
    let rn = pow(r as int, key.n);
    lemma_mod_bound(gm * rn, big);

    // c^lambda == (g^m * r^n)^lambda == g^(m * lambda) * (r^lambda)^n, modulo n_squared
    lemma_pow_mod_noop(gm * rn, lam, big);
    lemma_pow_distributes(gm, rn, lam);
    lemma_pow_multiplies(g, m, lam);
    lemma_pow_multiplies(r as int, key.n, lam);
    lemma_pow_multiplies(r as int, lam, key.n);
    lemma_mul_is_commutative(key.n as int, lam as int);
    let y = pow(r as int, lam);
    let e = m * lam;
    let x = pow(c, lam) % big;
    assert(x == (pow(g, e) * pow(y, key.n)) % big);

    // (r^lambda)^n leaves 1, and g^e leaves 1 + e * n
    lemma_unit_power(key, p, q, r);
    lemma_nth_power_of_unit(n, y);
    lemma_pow_one_plus_multiple(n, 1, e);
    assert(1 + 1 * n == g) by (nonlinear_arith)
        requires
            g == n + 1,
    ;
    assert(1 + e * 1 * n == 1 + e * n) by (nonlinear_arith);
    lemma_mul_mod_noop_general(pow(g, e), pow(y, key.n), big);
    let reduced = (1 + e * n) % big;
    assert(pow(g, e) % big == reduced);
    assert(pow(y, key.n) % big == 1);
    assert(reduced * 1 == reduced) by (nonlinear_arith);
    lemma_mod_twice(1 + e * n, big);
    assert(x == reduced);
}

/// The L-function: where `x` is `1 + e * n` reduced modulo `n * n`, `x` is
/// at least 1 and `(x - 1) / n` is `e` reduced modulo `n`.
proof fn lemma_l_function(n: int, e: int, x: int)
    requires
        n > 1,
        e >= 0,
        x == (1 + e * n) % (n * n),
    ensures
        x >= 1,
        (x - 1) / n == e % n,
{
    let big = n * n;
    assert(big > n) by (nonlinear_arith)
        requires
            n > 1,
            big == n * n,
    ;
    let s = e % n;
    let d = e / n;
    lemma_fundamental_div_mod(e, n);
    lemma_mod_bound(e, n);
    assert(1 + e * n == big * d + (1 + s * n)) by (nonlinear_arith)
        requires
            e == n * d + s,
            big == n * n,
    ;
    lemma_mod_multiples_vanish(d, 1 + s * n, big);
    assert(0 <= 1 + s * n < big) by (nonlinear_arith)
        requires
            0 <= s < n,
            big == n * n,
            n > 1,
    ;
    lemma_small_mod((1 + s * n) as nat, big as nat);
    assert(x == 1 + s * n);
    lemma_div_by_multiple(s, n);
    lemma_mul_is_commutative(s, n);
}

/// Under a valid key, the L-function recovers from `m` masked by `r` the
/// plaintext `m`, reduced modulo `n`.
pub proof fn lemma_decryption_of_masked(key: KeyView, p: nat, q: nat, m: nat, r: nat)
    requires
        key.valid_for(p, q),
        has_inverse(r, key.n),
    ensures
        masked(key, m, r) >= 0,
        decryption(key, masked(key, m, r) as nat) == Some(m % key.n),
{
    let n = key.n as int;
    let lam = key.lambda as int;
    let mu = key.mu as int;
    let e = (m * key.lambda) as int;
    let x = pow(masked(key, m, r), key.lambda) % (key.n_squared as int);
    lemma_masked_power(key, p, q, m, r);
    lemma_l_function(n, e, x);
    lemma_small_mod(1, key.n);
    let s = e % n;
    lemma_mod_bound(e, n);

    // s * mu leaves what m * (lambda * mu) leaves, which is what m leaves
    lemma_mul_mod_noop_left(e, mu, n);
    assert(e * mu == m * (lam * mu)) by (nonlinear_arith)
        requires
            e == m * lam,
    ;
    lemma_mul_mod_noop_right(m as int, lam * mu, n);
    assert((m as int) * 1 == m);
    assert((s * mu) % n == (m as int) % n);
    assert(s * mu >= 0) by (nonlinear_arith)
        requires
            s >= 0,
            mu >= 0,
    ;
}

/// The combination of `m1` masked by `r1` and `m2` masked by `r2` is
/// `m1 + m2` masked by `r1 * r2`.
pub proof fn lemma_combination_of_masked(key: KeyView, m1: nat, r1: nat, m2: nat, r2: nat)
    requires
        key.n_squared > 0,
    ensures
        masked(key, m1, r1) >= 0,
        masked(key, m2, r2) >= 0,
        combination(masked(key, m1, r1) as nat, masked(key, m2, r2) as nat, key.n_squared)
            == masked(key, m1 + m2, r1 * r2),
{
    let big = key.n_squared as int;
    let g = key.g as int;
    let a1 = pow(g, m1);
    let a2 = pow(g, m2);
    let b1 = pow(r1 as int, key.n);
    let b2 = pow(r2 as int, key.n);
    lemma_mod_bound(a1 * b1, big);
    lemma_mod_bound(a2 * b2, big);
    lemma_mul_mod_noop_general(a1 * b1, a2 * b2, big);
    lemma_pow_adds(g, m1, m2);
    lemma_pow_distributes(r1 as int, r2 as int, key.n);
    assert((a1 * b1) * (a2 * b2) == (a1 * a2) * (b1 * b2)) by (nonlinear_arith);
}

/// An encryption whose blinding factor has an inverse modulo `n` is a
/// ciphertext number of its plaintext.
pub proof fn lemma_encryption_encrypts(key: KeyView, m: nat, r: nat)
    requires
        key.wf(),
        has_inverse(r, key.n),
    ensures
        encrypts(key, encryption(key, m, r), m),
{
    lemma_square_above_one(key.n);
    lemma_encryption_is_masked(key, m, r);
}

/// The combination of a ciphertext number of `m1` and one of `m2` is a
/// ciphertext number of `m1 + m2`, however long the chain of combinations
/// that made the two.
pub proof fn lemma_combination_encrypts(key: KeyView, c1: nat, m1: nat, c2: nat, m2: nat)
    requires
        key.wf(),
        encrypts(key, c1, m1),
        encrypts(key, c2, m2),
    ensures
        encrypts(key, combination(c1, c2, key.n_squared), m1 + m2),
{
    let r1 = choose|r: nat| has_inverse(r, key.n) && c1 == #[trigger] masked(key, m1, r);
    let r2 = choose|r: nat| has_inverse(r, key.n) && c2 == #[trigger] masked(key, m2, r);
    lemma_square_above_one(key.n);
    lemma_combination_of_masked(key, m1, r1, m2, r2);
    lemma_product_has_inverse(r1, r2, key.n);
    assert(combination(c1, c2, key.n_squared) == masked(key, m1 + m2, r1 * r2));
}

/// Under a key pair built on two distinct primes, the L-function recovers
/// from a ciphertext number of `m` the plaintext `m`, reduced modulo `n`.
pub proof fn lemma_decryption_recovers(key: KeyView, p: nat, q: nat, c: nat, m: nat)
    requires
        key.valid_for(p, q),
        encrypts(key, c, m),
    ensures
        decryption(key, c) == Some(m % key.n),
{
    let r = choose|r: nat| has_inverse(r, key.n) && c == #[trigger] masked(key, m, r);
    lemma_decryption_of_masked(key, p, q, m, r);
}

/// Round trip: under a key pair built on two distinct primes, decrypting the
/// encryption of a plaintext below `n` gives the plaintext back, whatever
/// the blinding factor, as long as it has an inverse modulo `n`. (A blinding
/// factor without one, such as 0, gives a number that does not decrypt to
/// the plaintext.)
pub proof fn lemma_decrypt_inverts_encrypt(
    key: KeyView,
    p: nat,
    q: nat,
    m: nat,
    r: nat,
    ct: CiphertextView,
)
    requires
        key.valid_for(p, q),
        m < key.n,
        has_inverse(r, key.n),
        ct.c == encryption(key, m, r),
        ct.n_squared == key.n_squared,
    ensures
        decrypted(key, ct) == Ok::<nat, PaillierError>(m),
{
    lemma_encryption_encrypts(key, m, r);
    lemma_decryption_recovers(key, p, q, ct.c, m);
    lemma_small_mod(m, key.n);
}

/// Homomorphism: under a key pair built on two distinct primes, the
/// combination of the encryptions of `a` and `b` decrypts to `a + b` modulo
/// `n`, for blinding factors that have inverses modulo `n`.
pub proof fn lemma_combination_decrypts_to_sum(
    key: KeyView,
    p: nat,
    q: nat,
    a: nat,
    ra: nat,
    b: nat,
    rb: nat,
    sum: CiphertextView,
)
    requires
        key.valid_for(p, q),
        a < key.n,
        b < key.n,
        has_inverse(ra, key.n),
        has_inverse(rb, key.n),
        sum.c == combination(encryption(key, a, ra), encryption(key, b, rb), key.n_squared),
        sum.n_squared == key.n_squared,
    ensures
        decrypted(key, sum) == Ok::<nat, PaillierError>((a + b) % key.n),
{
    lemma_encryption_encrypts(key, a, ra);
    lemma_encryption_encrypts(key, b, rb);
    lemma_combination_encrypts(key, encryption(key, a, ra), a, encryption(key, b, rb), b);
    lemma_decryption_recovers(key, p, q, sum.c, a + b);
}

/// The last record of an account after one more record is appended: the new
/// record where it is of that account, else what it was before.
pub proof fn lemma_latest_after_append(
    records: Seq<RecordView>,
    wallet: Seq<char>,
    ct: CiphertextView,
    asked: Seq<char>,
)
    ensures
        latest(appended(records, wallet, ct), asked) == if asked == wallet {
            Some(ct)
        } else {
            latest(records, asked)
        },
{
    let longer = appended(records, wallet, ct);
    assert(longer.drop_last() =~= records);
    assert(longer.last() == RecordView { wallet, ct });
}

/// The balance of `wallet` stands for the plaintext `m`: its last record
/// holds a ciphertext number of `m`, or it has no record and `m` is 0.
pub open spec fn stands_for(
    key: KeyView,
    records: Seq<RecordView>,
    wallet: Seq<char>,
    m: nat,
) -> bool {
    match latest(records, wallet) {
        Some(ct) => ct.n_squared == key.n_squared && encrypts(key, ct.c, m),
        None => m == 0,
    }
}

/// Combining a ciphertext number of `amount` into a balance that stands for
/// `m` gives a balance that stands for `m + amount`, and the new record
/// decrypts to that sum modulo `n`.
pub proof fn lemma_raise_adds(
    key: KeyView,
    p: nat,
    q: nat,
    records: Seq<RecordView>,
    wallet: Seq<char>,
    m: nat,
    delta: nat,
    amount: nat,
    r_zero: nat,
)
    requires
        key.valid_for(p, q),
        stands_for(key, records, wallet, m),
        encrypts(key, delta, amount),
        has_inverse(r_zero, key.n),
    ensures
        stands_for(
            key,
            appended(records, wallet, raised(records, key, wallet, delta, r_zero)),
            wallet,
            m + amount,
        ),
        decrypted(key, raised(records, key, wallet, delta, r_zero)) == Ok::<nat, PaillierError>(
            (m + amount) % key.n,
        ),
{
    let previous = balance(records, key, wallet, r_zero);
    if latest(records, wallet).is_none() {
        lemma_encryption_encrypts(key, 0, r_zero);
    }
    assert(encrypts(key, previous.c, m));
    lemma_combination_encrypts(key, previous.c, m, delta, amount);
    let sum = raised(records, key, wallet, delta, r_zero);
    lemma_decryption_recovers(key, p, q, sum.c, m + amount);
    lemma_latest_after_append(records, wallet, sum, wallet);
}

/// Ledger accumulation: a credit of `amount` to a balance that stands for
/// `m` leaves a balance that stands for `m + amount`; the returned
/// ciphertext decrypts to `(m + amount) mod n`. The blinding factors must
/// have inverses modulo `n`.
pub proof fn lemma_credit_adds(
    key: KeyView,
    p: nat,
    q: nat,
    records: Seq<RecordView>,
    wallet: Seq<char>,
    m: nat,
    amount: nat,
    r: nat,
    r_zero: nat,
)
    requires
        key.valid_for(p, q),
        stands_for(key, records, wallet, m),
        has_inverse(r, key.n),
        has_inverse(r_zero, key.n),
    ensures
        stands_for(
            key,
            appended(records, wallet, credited(records, key, wallet, amount, r, r_zero)),
            wallet,
            m + amount,
        ),
        decrypted(key, credited(records, key, wallet, amount, r, r_zero)) == Ok::<
            nat,
            PaillierError,
        >((m + amount) % key.n),
{
    lemma_encryption_encrypts(key, amount, r);
    lemma_raise_adds(key, p, q, records, wallet, m, encryption(key, amount, r), amount, r_zero);
}

/// A debit of `amount`, at most `n`, from a balance that stands for `m`
/// leaves one that decrypts to `m - amount` in the residues modulo `n`:
/// to the number below `n` that differs from `m - amount` by a multiple of
/// `n`. A debit beyond the balance wraps around.
pub proof fn lemma_debit_subtracts(
    key: KeyView,
    p: nat,
    q: nat,
    records: Seq<RecordView>,
    wallet: Seq<char>,
    m: nat,
    amount: nat,
    r: nat,
    r_zero: nat,
)
    requires
        key.valid_for(p, q),
        stands_for(key, records, wallet, m),
        amount <= key.n,
        has_inverse(r, key.n),
        has_inverse(r_zero, key.n),
    ensures
        stands_for(
            key,
            appended(records, wallet, debited(records, key, wallet, amount, r, r_zero)),
            wallet,
            (m + key.n - amount) as nat,
        ),
        decrypted(key, debited(records, key, wallet, amount, r, r_zero)) == Ok::<
            nat,
            PaillierError,
        >(((m - amount) % (key.n as int)) as nat),
{
    let complement = (key.n - amount) as nat;
    lemma_credit_adds(key, p, q, records, wallet, m, complement, r, r_zero);
    lemma_mod_add_multiples_vanish(m - amount, key.n as int);
    lemma_mod_bound(m - amount, key.n as int);
}

/// A record appended for one account leaves what the balance of every other
/// account stands for.
pub proof fn lemma_other_accounts_untouched(
    key: KeyView,
    records: Seq<RecordView>,
    wallet: Seq<char>,
    ct: CiphertextView,
    other: Seq<char>,
    m: nat,
)
    requires
        other != wallet,
    ensures
        stands_for(key, appended(records, wallet, ct), other, m) == stands_for(
            key,
            records,
            other,
            m,
        ),
{
    lemma_latest_after_append(records, wallet, ct, other);
}

/// The decimal numeral of a number is a numeral, and it denotes the number.
pub proof fn lemma_decimal_denotes(n: nat)
    ensures
        is_numeral(decimal(n)),
        numeral_value(decimal(n)) == n,
    decreases n,
{
    reveal_with_fuel(numeral_value, 2);
    if n < 10 {
        let s = decimal(n);
        assert(s.len() == 1);
        assert(s[0] == digit_char(n));
        assert(is_digit(s[0]));
        assert(s.drop_last() =~= Seq::<char>::empty());
    } else {
        lemma_decimal_denotes(n / 10);
        let init = decimal(n / 10);
        let s = decimal(n);
        assert(s == init.push(digit_char(n % 10)));
        assert(s.drop_last() =~= init);
        assert(s.last() == digit_char(n % 10));
        assert forall|i: int| 0 <= i < s.len() implies is_digit(#[trigger] s[i]) by {
            if i < init.len() {
                assert(s[i] == init[i]);
            }
        }
    }
}

/// A number has at most one inverse modulo `n`, so the primes of a key pair
/// fix all five of its numbers.
pub proof fn lemma_inverse_unique(a: nat, x: nat, y: nat, n: nat)
    requires
        n > 0,
        is_inverse(a, x, n),
        is_inverse(a, y, n),
    ensures
        x == y,
{
    let m = n as int;
    let ax = (a * x) as int;
    let ay = (a * y) as int;
    // x == x * (a * y) == (a * x) * y == y, modulo n
    lemma_mul_mod_noop_right(x as int, ay, m);
    lemma_mul_mod_noop_left(ax, y as int, m);
    lemma_mul_mod_noop_right(x as int, 1, m);
    lemma_mul_mod_noop_left(1, y as int, m);
    assert((x as int) * ay == ax * (y as int)) by (nonlinear_arith)
        requires
            ax == a * x,
            ay == a * y,
    ;
    lemma_small_mod(x, n);
    lemma_small_mod(y, n);
}

/// A key pair generated from primes of at most 64 bits is sound: below
/// `2^64` the primality test is exact.
pub proof fn lemma_small_generated_key_is_sound(key: KeyView, bits: nat)
    requires
        generated(key, bits),
        bits <= 64,
    ensures
        exists|p: nat, q: nat| key.valid_for(p, q),
{
    let (p, q) = choose|p: nat, q: nat| generated_from(key, bits, p, q);
    assert(key.valid_for(p, q));
}

} // verus!
