//! Primes, divisibility and modular powers: the arithmetic facts on which the
//! correctness of the cryptosystem rests.

use crate::bignum::bit_or;
use vstd::arithmetic::div_mod::*;
use vstd::arithmetic::mul::*;
use vstd::arithmetic::power::*;
use vstd::arithmetic::power2::{lemma_pow2_pos, lemma_pow2_unfold, pow2};
use vstd::prelude::*;

verus! {

/// `d` is a positive divisor of `n`.
pub open spec fn divides(d: nat, n: nat) -> bool {
    d > 0 && n % d == 0
}

/// `p` is at least 2 and has no divisor strictly between 1 and itself.
pub open spec fn is_prime(p: nat) -> bool {
    p >= 2 && forall|d: nat| 1 < d < p ==> !#[trigger] divides(d, p)
}

/// A multiple of `m` leaves no remainder modulo `m`.
proof fn lemma_multiple_mod(x: int, m: int)
    requires
        m > 0,
    ensures
        (x * m) % m == 0,
        (m * x) % m == 0,
{
    lemma_mod_multiples_basic(x, m);
    lemma_mul_is_commutative(x, m);
}

/// A number that leaves no remainder is the divisor times the quotient.
proof fn lemma_exact_quotient(x: int, m: int)
    requires
        m > 0,
        x % m == 0,
    ensures
        x == m * (x / m),
{
    lemma_fundamental_div_mod(x, m);
}

/// A prime that divides `k * b`, with `0 < k < p`, divides `b`.
proof fn lemma_prime_small_factor(p: nat, k: nat, b: nat)
    requires
        is_prime(p),
        0 < k < p,
        (k * b) % p == 0,
    ensures
        b % p == 0,
    decreases k,
{
    if k == 1 {
        assert(k * b == b) by (nonlinear_arith)
            requires
                k == 1,
        ;
    } else {
        let r = p % k;
        let q = p / k;
        assert(!divides(k, p));
        lemma_fundamental_div_mod(p as int, k as int);
        lemma_mod_bound(p as int, k as int);
        lemma_exact_quotient((k * b) as int, p as int);
        let t = ((k * b) as int) / (p as int);
        assert(r * b == p * (b - q * t)) by (nonlinear_arith)
            requires
                p == k * q + r,
                k * b == p * t,
        ;
        lemma_multiple_mod(b - q * t, p as int);
        assert(r * b >= 0) by (nonlinear_arith)
            requires
                r >= 0,
                b >= 0,
        ;
        lemma_prime_small_factor(p, r as nat, b);
    }
}

/// Euclid's lemma: a prime that divides a product divides one of the factors.
pub proof fn lemma_prime_divides_product(p: nat, a: nat, b: nat)
    requires
        is_prime(p),
        (a * b) % p == 0,
    ensures
        a % p == 0 || b % p == 0,
{
    let k = a % p;
    if k != 0 {
        lemma_mod_bound(a as int, p as int);
        lemma_mul_mod_noop_left(a as int, b as int, p as int);
        assert(k * b >= 0) by (nonlinear_arith)
            requires
                k >= 0,
                b >= 0,
        ;
        lemma_prime_small_factor(p, k, b);
    }
}

/// The product of the entries of `s`.
pub open spec fn product(s: Seq<nat>) -> nat
    decreases s.len(),
{
    if s.len() == 0 {
        1
    } else {
        product(s.drop_last()) * s.last()
    }
}

/// `n!`
pub open spec fn factorial(n: nat) -> nat
    decreases n,
{
    if n == 0 {
        1
    } else {
        n * factorial((n - 1) as nat)
    }
}

/// Every entry of `s` lies in `1..=m`, and no two entries are equal.
pub open spec fn distinct_within(s: Seq<nat>, m: nat) -> bool {
    &&& forall|i: int| 0 <= i < s.len() ==> 1 <= #[trigger] s[i] <= m
    &&& forall|i: int, j: int| 0 <= i < j < s.len() ==> s[i] != s[j]
}

/// Taking the entry `m` out of such a sequence leaves one within `1..=m-1`.
proof fn lemma_remove_largest(s: Seq<nat>, m: nat, j: int)
    requires
        distinct_within(s, m),
        0 <= j < s.len(),
        s[j] == m,
    ensures
        m >= 1,
        distinct_within(s.remove(j), (m - 1) as nat),
        s.remove(j).len() == s.len() - 1,
{
    let t = s.remove(j);
    assert forall|k: int| 0 <= k < t.len() implies 1 <= #[trigger] t[k] <= m - 1 by {
        if k < j {
            assert(t[k] == s[k]);
        } else {
            assert(t[k] == s[k + 1]);
        }
    }
    assert forall|i: int, k: int| 0 <= i < k < t.len() implies t[i] != t[k] by {
        let si = if i < j { i } else { i + 1 };
        let sk = if k < j { k } else { k + 1 };
        assert(t[i] == s[si]);
        assert(t[k] == s[sk]);
    }
}

/// The product of a sequence is any one entry times the product of the rest.
proof fn lemma_product_remove(s: Seq<nat>, j: int)
    requires
        0 <= j < s.len(),
    ensures
        product(s) == s[j] * product(s.remove(j)),
    decreases s.len(),
{
    if j == s.len() - 1 {
        assert(s.remove(j) =~= s.drop_last());
        lemma_mul_is_commutative(s[j] as int, product(s.remove(j)) as int);
    } else {
        let init = s.drop_last();
        lemma_product_remove(init, j);
        let t = s.remove(j);
        assert(t.drop_last() =~= init.remove(j));
        assert(t.last() == s.last());
        assert(init[j] == s[j]);
        lemma_mul_is_associative(s[j] as int, product(init.remove(j)) as int, s.last() as int);
    }
}

/// Distinct numbers out of `1..=m` are at most `m` many.
proof fn lemma_distinct_length(s: Seq<nat>, m: nat)
    requires
        distinct_within(s, m),
    ensures
        s.len() <= m,
    decreases m,
{
    if s.len() > 0 {
        if m == 0 {
            assert(1 <= s[0] <= m);
        } else if exists|j: int| 0 <= j < s.len() && s[j] == m {
            let j = choose|j: int| 0 <= j < s.len() && s[j] == m;
            lemma_remove_largest(s, m, j);
            lemma_distinct_length(s.remove(j), (m - 1) as nat);
        } else {
            assert(distinct_within(s, (m - 1) as nat));
            lemma_distinct_length(s, (m - 1) as nat);
        }
    }
}

/// Any arrangement of the numbers `1..=n` has the product `n!`.
proof fn lemma_product_of_arrangement(s: Seq<nat>, n: nat)
    requires
        distinct_within(s, n),
        s.len() == n,
    ensures
        product(s) == factorial(n),
    decreases n,
{
    if n > 0 {
        if !exists|j: int| 0 <= j < s.len() && s[j] == n {
            assert(distinct_within(s, (n - 1) as nat));
            lemma_distinct_length(s, (n - 1) as nat);
        }
        let j = choose|j: int| 0 <= j < s.len() && s[j] == n;
        lemma_remove_largest(s, n, j);
        lemma_product_of_arrangement(s.remove(j), (n - 1) as nat);
        lemma_product_remove(s, j);
    }
}

/// The first `k` positive multiples of `a`, each reduced modulo `p`.
pub open spec fn multiples(a: nat, p: nat, k: nat) -> Seq<nat> {
    Seq::new(k, |i: int| ((a * (i + 1)) % (p as int)) as nat)
}

/// Modulo `p`, the product of the first `k` multiples of `a` is `a^k * k!`.
proof fn lemma_multiples_product(a: nat, p: nat, k: nat)
    requires
        p > 0,
    ensures
        product(multiples(a, p, k)) % p == (pow(a as int, k) * factorial(k)) % (p as int),
    decreases k,
{
    reveal(pow);
    if k == 0 {
        lemma_pow0(a as int);
        assert(multiples(a, p, k) =~= Seq::<nat>::empty());
    } else {
        let s = multiples(a, p, k);
        let j = (k - 1) as nat;
        assert(s.drop_last() =~= multiples(a, p, j));
        lemma_multiples_product(a, p, j);
        let prev = product(multiples(a, p, j)) as int;
        let m = p as int;
        let ak = (a as int) * (k as int);
        let e = pow(a as int, j) * factorial(j);
        assert(s.last() == ak % m);
        assert(product(s) == prev * (ak % m));
        lemma_mul_mod_noop_general(prev, ak, m);
        lemma_mul_mod_noop_general(e, ak, m);
        assert((prev * (ak % m)) % m == (e * ak) % m);
        assert(e * ak == (a * pow(a as int, j)) * (k * factorial(j))) by (nonlinear_arith)
            requires
                e == pow(a as int, j) * factorial(j),
                ak == (a as int) * (k as int),
        ;
    }
}

/// For a prime `p` that does not divide `a`, the first `p - 1` multiples of
/// `a` are, modulo `p`, distinct and none of them is 0.
proof fn lemma_multiples_distinct(a: nat, p: nat)
    requires
        is_prime(p),
        a % p != 0,
    ensures
        distinct_within(multiples(a, p, (p - 1) as nat), (p - 1) as nat),
{
    let s = multiples(a, p, (p - 1) as nat);
    assert forall|i: int| 0 <= i < s.len() implies 1 <= #[trigger] s[i] <= p - 1 by {
        lemma_mod_bound(a * (i + 1), p as int);
        if s[i] == 0 {
            assert(a * (i + 1) >= 0) by (nonlinear_arith)
                requires
                    a >= 0,
                    i >= 0,
            ;
            lemma_prime_divides_product(p, a, (i + 1) as nat);
            lemma_small_mod((i + 1) as nat, p);
        }
    }
    assert forall|i: int, j: int| 0 <= i < j < s.len() implies s[i] != s[j] by {
        if s[i] == s[j] {
            lemma_mod_equivalence(a * (j + 1), a * (i + 1), p as int);
            assert(a * (j + 1) - a * (i + 1) == a * (j - i)) by (nonlinear_arith);
            assert(a * (j - i) >= 0) by (nonlinear_arith)
                requires
                    a >= 0,
                    j - i >= 0,
            ;
            lemma_prime_divides_product(p, a, (j - i) as nat);
            lemma_small_mod((j - i) as nat, p);
        }
    }
}

/// A prime does not divide the factorial of a smaller number.
proof fn lemma_factorial_mod_prime(p: nat, k: nat)
    requires
        is_prime(p),
        k < p,
    ensures
        factorial(k) % p != 0,
    decreases k,
{
    if k == 0 {
        lemma_small_mod(1, p);
    } else {
        lemma_factorial_mod_prime(p, (k - 1) as nat);
        if factorial(k) % p == 0 {
            lemma_prime_divides_product(p, k, factorial((k - 1) as nat));
            lemma_small_mod(k, p);
        }
    }
}

/// Fermat's little theorem: for a prime `p` that does not divide `a`,
/// `a^(p-1)` leaves the remainder 1 modulo `p`.
pub proof fn lemma_fermat(p: nat, a: nat)
    requires
        is_prime(p),
        a % p != 0,
    ensures
        pow(a as int, (p - 1) as nat) % (p as int) == 1,
{
    let k = (p - 1) as nat;
    let m = p as int;
    let s = multiples(a, p, k);
    let f = factorial(k) as int;
    let big = pow(a as int, k);
    lemma_multiples_distinct(a, p);
    lemma_product_of_arrangement(s, k);
    lemma_multiples_product(a, p, k);
    lemma_factorial_mod_prime(p, k);
    if a == 0 {
        lemma_small_mod(0, p);
    }
    lemma_pow_positive(a as int, k);
    let x = big % m;
    lemma_mod_bound(big, m);
    lemma_mul_mod_noop_left(big, f, m);
    // x * f and f leave the same remainder, and p does not divide f
    assert((x * f) % m == f % m);
    if x == 0 {
        assert(x * f == 0) by (nonlinear_arith)
            requires
                x == 0,
        ;
        lemma_small_mod(0, p);
    } else {
        // p divides (x - 1) * f, so it divides x - 1, which is below p
        lemma_mod_equivalence(x * f, f, m);
        assert(x * f - f == (x - 1) * f) by (nonlinear_arith);
        assert((x - 1) * f >= 0) by (nonlinear_arith)
            requires
                x >= 1,
                f >= 0,
        ;
        let y = (x - 1) as nat;
        assert(y * (f as nat) == (x - 1) * f);
        lemma_prime_divides_product(p, y, f as nat);
        lemma_small_mod(y, p);
    }
}

/// A power of a number that leaves the remainder 1 leaves the remainder 1.
pub proof fn lemma_pow_of_one_mod(b: int, e: nat, m: int)
    requires
        m > 1,
        b % m == 1,
    ensures
        pow(b, e) % m == 1,
{
    lemma_pow_mod_noop(b, e, m);
    lemma1_pow(e);
    lemma_small_mod(1, m as nat);
}

/// A number that leaves the remainder 1 modulo each of two distinct primes
/// leaves the remainder 1 modulo their product.
pub proof fn lemma_one_mod_two_primes(p: nat, q: nat, x: nat)
    requires
        is_prime(p),
        is_prime(q),
        p != q,
        x % p == 1,
        x % q == 1,
    ensures
        x % (p * q) == 1,
{
    let y = (x - 1) as nat;
    assert(x >= 1) by {
        if x == 0 {
            lemma_small_mod(0, p);
        }
    }
    lemma_mod_equivalence(x as int, 1, p as int);
    lemma_mod_equivalence(x as int, 1, q as int);
    lemma_small_mod(1, p);
    lemma_small_mod(1, q);
    // y is a multiple of p: y == p * t
    lemma_exact_quotient(y as int, p as int);
    let t = y / p;
    assert(y == p * t);
    // q divides p * t, and not p, so q divides t
    lemma_prime_divides_product(q, p, t);
    if p % q == 0 {
        if q < p {
            assert(divides(q, p));
        } else {
            lemma_small_mod(p, q);
        }
    }
    lemma_exact_quotient(t as int, q as int);
    let u = t / q;
    assert(y == (p * q) * u) by (nonlinear_arith)
        requires
            y == p * t,
            t == q * u,
    ;
    assert(p * q > 1) by (nonlinear_arith)
        requires
            p >= 2,
            q >= 2,
    ;
    lemma_multiple_mod(u as int, (p * q) as int);
    lemma_mod_equivalence(x as int, 1, (p * q) as int);
    lemma_small_mod(1, p * q);
}

/// Euler's theorem for a product of two distinct primes: a number that
/// neither prime divides, raised to `(p - 1) * (q - 1)`, leaves the
/// remainder 1 modulo `p * q`.
pub proof fn lemma_euler_two_primes(p: nat, q: nat, r: nat)
    requires
        is_prime(p),
        is_prime(q),
        p != q,
        r % p != 0,
        r % q != 0,
    ensures
        pow(r as int, ((p - 1) * (q - 1)) as nat) % ((p * q) as int) == 1,
{
    let a = (p - 1) as nat;
    let b = (q - 1) as nat;
    let x = pow(r as int, a * b);
    lemma_fermat(p, r);
    lemma_fermat(q, r);
    lemma_pow_multiplies(r as int, a, b);
    lemma_pow_multiplies(r as int, b, a);
    lemma_mul_is_commutative(a as int, b as int);
    lemma_pow_of_one_mod(pow(r as int, a), b, p as int);
    lemma_pow_of_one_mod(pow(r as int, b), a, q as int);
    if r == 0 {
        lemma_small_mod(0, p);
    }
    lemma_pow_positive(r as int, a * b);
    lemma_one_mod_two_primes(p, q, x as nat);
}

/// Modulo `n * n`, the `k`-th power of `1 + t * n` is `1 + k * t * n`: in the
/// binomial expansion every further term holds `n * n`.
pub proof fn lemma_pow_one_plus_multiple(n: int, t: int, k: nat)
    requires
        n > 0,
    ensures
        pow(1 + t * n, k) % (n * n) == (1 + k * t * n) % (n * n),
    decreases k,
{
    let b = 1 + t * n;
    let m = n * n;
    assert(m > 0) by (nonlinear_arith)
        requires
            n > 0,
            m == n * n,
    ;
    reveal(pow);
    if k == 0 {
        assert(0 * t * n == 0) by (nonlinear_arith);
    } else {
        let j = k - 1;
        lemma_pow_one_plus_multiple(n, t, j as nat);
        let prev = 1 + j * t * n;
        assert(pow(b, k) == b * pow(b, j as nat));
        lemma_mul_mod_noop_right(b, pow(b, j as nat), m);
        lemma_mul_mod_noop_right(b, prev, m);
        assert(pow(b, k) % m == (b * prev) % m);
        assert(b * prev == m * (j * t * t) + (1 + k * t * n)) by (nonlinear_arith)
            requires
                b == 1 + t * n,
                prev == 1 + j * t * n,
                m == n * n,
                k == j + 1,
        ;
        lemma_mod_multiples_vanish(j * t * t, 1 + k * t * n, m);
    }
}

/// "Or" with 1 sets the lowest bit: an odd number stays, an even one grows
/// by 1.
pub proof fn lemma_or_one(a: nat)
    ensures
        bit_or(a, 1) == if a % 2 == 1 {
            a
        } else {
            a + 1
        },
{
    reveal_with_fuel(bit_or, 3);
}

/// "Or" with `2^k` sets bit `k`: a number below `2^(k+1)` stays where it has
/// that bit, and grows by `2^k` where it has not.
pub proof fn lemma_or_power_of_two(a: nat, k: nat)
    requires
        a < pow2(k + 1),
    ensures
        bit_or(a, pow2(k)) == if a >= pow2(k) {
            a
        } else {
            a + pow2(k)
        },
    decreases k,
{
    lemma_pow2_pos(k);
    lemma_pow2_unfold(k + 1);
    if k == 0 {
        assert(pow2(0) == 1) by {
            vstd::arithmetic::power2::lemma2_to64();
        }
        lemma_or_one(a);
    } else {
        lemma_pow2_unfold(k);
        let half = pow2((k - 1) as nat);
        if a > 0 {
            lemma_or_power_of_two(a / 2, (k - 1) as nat);
            assert(pow2(k) / 2 == half);
            assert(pow2(k) % 2 == 0);
        }
    }
}

} // verus!
