use num_bigint::BigUint;
use privacyserver::paillier::{
    check_numeral, decrypt, encrypt, encrypt_with, homomorphic_addition, PaillierCiphertext,
    PaillierError, PaillierKey,
};

fn big(x: u64) -> BigUint {
    BigUint::from(x)
}

/// The key pair on the primes 11 and 13: n = 143.
fn toy_key() -> PaillierKey {
    PaillierKey::from_primes(&big(11), &big(13)).expect("11 and 13 give a key")
}

/// The numbers below 143 that have an inverse modulo 143.
fn toy_units() -> Vec<u64> {
    (1..143u64).filter(|r| r % 11 != 0 && r % 13 != 0).collect()
}

#[test]
fn from_primes_builds_the_key_of_the_two_primes() {
    let key = toy_key();
    assert_eq!(key.n, big(143));
    assert_eq!(key.n_squared, big(20449));
    assert_eq!(key.g, big(144));
    assert_eq!(key.lambda, big(120));
    assert_eq!(key.mu, big(87));
}

#[test]
fn from_primes_takes_the_primes_in_either_order() {
    let key = PaillierKey::from_primes(&big(13), &big(11)).unwrap();
    assert_eq!(key.n, big(143));
    assert_eq!(key.lambda, big(120));
    assert_eq!(key.mu, big(87));
}

#[test]
fn from_primes_refuses_equal_primes() {
    assert!(PaillierKey::from_primes(&big(11), &big(11)).is_none());
    assert!(PaillierKey::from_primes(&big(3), &big(3)).is_none());
}

#[test]
fn from_primes_refuses_zero() {
    assert!(PaillierKey::from_primes(&big(0), &big(13)).is_none());
    assert!(PaillierKey::from_primes(&big(11), &big(0)).is_none());
}

#[test]
fn from_primes_refuses_a_pair_without_inverse() {
    // (3 - 1) * (7 - 1) = 12 and 3 * 7 = 21 share the factor 3
    assert!(PaillierKey::from_primes(&big(3), &big(7)).is_none());
    // lambda is 0 where one of the two is 1
    assert!(PaillierKey::from_primes(&big(1), &big(7)).is_none());
}

#[test]
fn encrypt_with_gives_the_number_of_the_formula() {
    let key = toy_key();
    let cases: [(u64, u64, u64); 7] = [
        (7, 2, 16959),
        (0, 5, 7704),
        (100, 3, 10422),
        (40, 7, 18449),
        (142, 142, 142),
        (83, 17, 2779),
        (60, 9, 14732),
    ];
    for (m, r, c) in cases {
        let ct = encrypt_with(&key, &big(m), &big(r));
        assert_eq!(ct.c, big(c), "m = {}, r = {}", m, r);
        assert_eq!(ct.n_squared, big(20449));
    }
}

#[test]
fn encrypt_with_keeps_the_ciphertext_below_the_modulus() {
    let key = toy_key();
    for m in [0u64, 1, 71, 142, 143, 1000] {
        for r in [1u64, 2, 50, 142, 5000] {
            let ct = encrypt_with(&key, &big(m), &big(r));
            assert!(ct.c < key.n_squared);
        }
    }
}

#[test]
fn decrypt_gives_the_plaintext_of_known_ciphertexts() {
    let key = toy_key();
    let cases: [(u64, u64); 6] =
        [(16959, 7), (7704, 0), (10422, 100), (18449, 40), (142, 142), (13980, 140)];
    for (c, m) in cases {
        let ct = PaillierCiphertext::new(big(c), big(20449));
        assert_eq!(decrypt(&key, &ct), Ok(big(m)), "c = {}", c);
    }
}

#[test]
fn round_trip_for_every_plaintext_and_every_unit() {
    let key = toy_key();
    let units = toy_units();
    assert_eq!(units.len(), 120);
    for m in 0..143u64 {
        for r in units.iter().step_by(7) {
            let ct = encrypt_with(&key, &big(m), &big(*r));
            assert_eq!(decrypt(&key, &ct), Ok(big(m)), "m = {}, r = {}", m, r);
        }
    }
}

#[test]
fn round_trip_under_a_generated_key() {
    let key = PaillierKey::new(128).unwrap();
    for m in [0u64, 1, 2, 140, 1_000_000, u64::MAX] {
        let ct = encrypt(&key, &big(m));
        assert_eq!(decrypt(&key, &ct), Ok(big(m)));
    }
    let top = &key.n - big(1);
    let ct = encrypt(&key, &top);
    assert_eq!(decrypt(&key, &ct), Ok(top));
}

#[test]
fn a_plaintext_above_the_modulus_counts_modulo_n() {
    let key = toy_key();
    let ct = encrypt_with(&key, &big(143 + 5), &big(2));
    assert_eq!(decrypt(&key, &ct), Ok(big(5)));
}

#[test]
fn a_blinding_factor_without_inverse_breaks_the_round_trip() {
    let key = toy_key();
    let ct = encrypt_with(&key, &big(7), &big(11));
    assert_eq!(ct.c, big(5687));
    assert_eq!(decrypt(&key, &ct), Ok(big(36)));
    let ct = encrypt_with(&key, &big(7), &big(0));
    assert_eq!(ct.c, big(0));
    assert_eq!(decrypt(&key, &ct), Err(PaillierError::InvalidCiphertext));
}

#[test]
fn encrypting_twice_gives_different_ciphertexts_of_one_plaintext() {
    let key = PaillierKey::new(128).unwrap();
    let m = big(424242);
    let first = encrypt(&key, &m);
    let second = encrypt(&key, &m);
    assert_ne!(first.c, second.c);
    assert_eq!(first.n_squared, key.n_squared);
    assert_eq!(second.n_squared, key.n_squared);
    assert_eq!(decrypt(&key, &first), Ok(m.clone()));
    assert_eq!(decrypt(&key, &second), Ok(m));
}

#[test]
fn the_combination_has_the_number_of_the_formula() {
    let key = toy_key();
    let a = encrypt_with(&key, &big(100), &big(3));
    let b = encrypt_with(&key, &big(40), &big(7));
    let sum = homomorphic_addition(&a, &b).unwrap();
    assert_eq!(sum.c, big(13980));
    assert_eq!(sum.c, (&a.c * &b.c) % &key.n_squared);
    assert_eq!(sum.n_squared, big(20449));
}

#[test]
fn the_combination_decrypts_to_the_sum() {
    let key = toy_key();
    let a = encrypt_with(&key, &big(100), &big(3));
    let b = encrypt_with(&key, &big(40), &big(7));
    let sum = homomorphic_addition(&a, &b).unwrap();
    assert_eq!(decrypt(&key, &sum), Ok(big(140)));
}

#[test]
fn the_combination_decrypts_to_the_sum_modulo_n() {
    let key = toy_key();
    let units = toy_units();
    for a in (0..143u64).step_by(11) {
        for b in (0..143u64).step_by(9) {
            let ra = units[(a as usize * 7 + 1) % units.len()];
            let rb = units[(b as usize * 5 + 3) % units.len()];
            let ca = encrypt_with(&key, &big(a), &big(ra));
            let cb = encrypt_with(&key, &big(b), &big(rb));
            let sum = homomorphic_addition(&ca, &cb).unwrap();
            assert_eq!(decrypt(&key, &sum), Ok(big((a + b) % 143)), "a = {}, b = {}", a, b);
        }
    }
}

#[test]
fn a_chain_of_combinations_decrypts_to_the_sum() {
    let key = PaillierKey::new(128).unwrap();
    let mut total = encrypt(&key, &big(0));
    let mut expected = 0u64;
    for amount in [5u64, 17, 0, 1000, 3, 99999] {
        let ct = encrypt(&key, &big(amount));
        total = homomorphic_addition(&total, &ct).unwrap();
        expected += amount;
    }
    assert_eq!(decrypt(&key, &total), Ok(big(expected)));
}

#[test]
fn ciphertexts_of_different_moduli_are_not_combined() {
    let first = toy_key();
    let second = PaillierKey::from_primes(&big(17), &big(19)).unwrap();
    let a = encrypt_with(&first, &big(1), &big(2));
    let b = encrypt_with(&second, &big(1), &big(2));
    assert!(matches!(homomorphic_addition(&a, &b), Err(PaillierError::ModulusMismatch)));
    assert!(matches!(homomorphic_addition(&b, &a), Err(PaillierError::ModulusMismatch)));
}

#[test]
fn a_ciphertext_of_another_modulus_is_not_decrypted() {
    let first = toy_key();
    let second = PaillierKey::from_primes(&big(17), &big(19)).unwrap();
    let a = encrypt_with(&first, &big(1), &big(2));
    assert_eq!(decrypt(&second, &a), Err(PaillierError::ModulusMismatch));
    let b = encrypt_with(&second, &big(1), &big(2));
    assert_eq!(decrypt(&first, &b), Err(PaillierError::ModulusMismatch));
}

#[test]
fn independently_generated_keys_do_not_mix() {
    let first = PaillierKey::new(128).unwrap();
    let second = PaillierKey::new(128).unwrap();
    assert_ne!(first.n_squared, second.n_squared);
    let a = encrypt(&first, &big(10));
    let b = encrypt(&second, &big(20));
    assert!(matches!(homomorphic_addition(&a, &b), Err(PaillierError::ModulusMismatch)));
    assert_eq!(decrypt(&second, &a), Err(PaillierError::ModulusMismatch));
    assert_eq!(decrypt(&first, &b), Err(PaillierError::ModulusMismatch));
}

#[test]
fn zero_is_no_ciphertext() {
    let key = toy_key();
    let ct = PaillierCiphertext::new(big(0), big(20449));
    assert_eq!(decrypt(&key, &ct), Err(PaillierError::InvalidCiphertext));
    // a multiple of n reduced to 0 by the power: 143^120 holds 143^2
    let ct = PaillierCiphertext::new(big(143), big(20449));
    assert_eq!(decrypt(&key, &ct), Err(PaillierError::InvalidCiphertext));
}

#[test]
fn new_keeps_the_two_numbers() {
    let ct = PaillierCiphertext::new(big(5), big(9));
    assert_eq!(ct.c, big(5));
    assert_eq!(ct.n_squared, big(9));
}

#[test]
fn a_clone_holds_the_same_numbers() {
    let ct = PaillierCiphertext::new(big(16959), big(20449));
    let copy = ct.clone();
    assert_eq!(copy.c, big(16959));
    assert_eq!(copy.n_squared, big(20449));
}

#[test]
fn to_numeral_writes_the_number_in_decimal() {
    assert_eq!(PaillierCiphertext::new(big(0), big(9)).to_numeral(), "0");
    assert_eq!(PaillierCiphertext::new(big(7), big(9)).to_numeral(), "7");
    assert_eq!(PaillierCiphertext::new(big(16959), big(20449)).to_numeral(), "16959");
    let large = BigUint::parse_bytes(b"123456789012345678901234567890", 10).unwrap();
    let modulus = &large + big(1);
    assert_eq!(
        PaillierCiphertext::new(large, modulus).to_numeral(),
        "123456789012345678901234567890"
    );
}

#[test]
fn from_numeral_reads_a_decimal_number() {
    let ct = PaillierCiphertext::from_numeral("16959", &big(20449)).unwrap();
    assert_eq!(ct.c, big(16959));
    assert_eq!(ct.n_squared, big(20449));
    let ct = PaillierCiphertext::from_numeral("0", &big(20449)).unwrap();
    assert_eq!(ct.c, big(0));
    let ct = PaillierCiphertext::from_numeral("007", &big(20449)).unwrap();
    assert_eq!(ct.c, big(7));
    let ct = PaillierCiphertext::from_numeral("20448", &big(20449)).unwrap();
    assert_eq!(ct.c, big(20448));
}

#[test]
fn from_numeral_and_to_numeral_are_inverse() {
    let modulus = BigUint::parse_bytes(b"1000000000000000000000000000000000000", 10).unwrap();
    for text in ["0", "9", "10", "4294967296", "18446744073709551616", "999999999999999999999999"] {
        let ct = PaillierCiphertext::from_numeral(text, &modulus).unwrap();
        assert_eq!(ct.to_numeral(), text);
    }
}

#[test]
fn from_numeral_refuses_what_is_no_numeral() {
    for text in ["", " ", "12a", "+5", "-3", "1_000", " 7", "7 ", "0x10", "1.5", "١٢٣", "12\n"] {
        assert!(
            matches!(
                PaillierCiphertext::from_numeral(text, &big(20449)),
                Err(PaillierError::InvalidNumeralEncoding)
            ),
            "{:?}",
            text
        );
    }
}

#[test]
fn from_numeral_refuses_a_number_that_is_not_below_the_modulus() {
    assert!(matches!(
        PaillierCiphertext::from_numeral("20449", &big(20449)),
        Err(PaillierError::InvalidCiphertext)
    ));
    assert!(matches!(
        PaillierCiphertext::from_numeral("99999999999999999999", &big(20449)),
        Err(PaillierError::InvalidCiphertext)
    ));
    assert!(matches!(
        PaillierCiphertext::from_numeral("0", &big(0)),
        Err(PaillierError::InvalidCiphertext)
    ));
}

#[test]
fn check_numeral_accepts_digits_only() {
    assert!(check_numeral("0"));
    assert!(check_numeral("0123456789"));
    assert!(check_numeral("000"));
    assert!(!check_numeral(""));
    assert!(!check_numeral("/"));
    assert!(!check_numeral(":"));
    assert!(!check_numeral("12 "));
    assert!(!check_numeral("é1"));
    assert!(!check_numeral("１２"));
}

#[test]
fn the_error_kinds_are_told_apart() {
    assert_ne!(PaillierError::ModulusMismatch, PaillierError::InvalidCiphertext);
    assert_ne!(PaillierError::InvalidNumeralEncoding, PaillierError::KeyGenerationRetryExhausted);
    assert_eq!(format!("{:?}", PaillierError::ModulusMismatch), "ModulusMismatch");
}
