use num_bigint::BigUint;
use privacyserver::ledger::Ledger;
use privacyserver::paillier::{decrypt, encrypt_with, PaillierCiphertext, PaillierError, PaillierKey};

fn big(x: u64) -> BigUint {
    BigUint::from(x)
}

fn toy_ledger() -> Ledger {
    Ledger::new(PaillierKey::from_primes(&big(11), &big(13)).unwrap())
}

fn fresh_ledger() -> Ledger {
    Ledger::new(PaillierKey::new(128).unwrap())
}

fn plaintext(ledger: &Ledger, ct: &PaillierCiphertext) -> BigUint {
    decrypt(ledger.key(), ct).expect("a ciphertext of the ledger decrypts")
}

#[test]
fn a_new_ledger_is_empty() {
    let ledger = toy_ledger();
    assert_eq!(ledger.len(), 0);
    assert_eq!(ledger.key().n, big(143));
    assert!(ledger.find("A").is_none());
    assert!(ledger.get_net("A").is_none());
}

#[test]
fn credits_accumulate() {
    let mut ledger = fresh_ledger();
    ledger.credit("w", &big(100));
    ledger.credit("w", &big(40));
    let current = ledger.last_balance("w");
    assert_eq!(plaintext(&ledger, &current), big(140));
}

#[test]
fn a_debit_takes_from_the_balance() {
    let mut ledger = fresh_ledger();
    ledger.credit("w", &big(100));
    ledger.credit("w", &big(40));
    ledger.debit("w", &big(50));
    let current = ledger.last_balance("w");
    assert_eq!(plaintext(&ledger, &current), big(90));
}

#[test]
fn an_unknown_account_has_an_encrypted_zero_and_no_record() {
    let mut ledger = fresh_ledger();
    ledger.credit("known", &big(5));
    let current = ledger.last_balance("new_account");
    assert_eq!(plaintext(&ledger, &current), big(0));
    assert!(ledger.get_net("new_account").is_none());
    assert!(ledger.find("new_account").is_none());
    // asking did not record anything
    assert_eq!(ledger.len(), 1);
    // the zero is encrypted afresh each time
    let again = ledger.last_balance("new_account");
    assert_ne!(current.c, again.c);
    assert_eq!(plaintext(&ledger, &again), big(0));
}

#[test]
fn scenario_with_a_small_generated_key() {
    let mut ledger = Ledger::new(PaillierKey::new(64).unwrap());
    ledger.credit("A", &big(100));
    ledger.credit("A", &big(40));
    ledger.debit("A", &big(60));
    let numeral = ledger.get_net("A").expect("A has records");
    let ct = PaillierCiphertext::from_numeral(&numeral, &ledger.key().n_squared).unwrap();
    assert_eq!(plaintext(&ledger, &ct), big(80));
    assert!(ledger.get_net("B").is_none());
}

#[test]
fn scenario_with_given_blinding_factors() {
    let mut ledger = toy_ledger();
    let first = ledger.credit_with("A", &big(100), &big(3), &big(5));
    assert_eq!(first.c, big(8314));
    let second = ledger.credit_with("A", &big(40), &big(7), &big(5));
    assert_eq!(second.c, big(17486));
    let third = ledger.debit_with("A", &big(60), &big(9), &big(5));
    assert_eq!(third.c, big(13848));
    assert_eq!(plaintext(&ledger, &third), big(80));
    assert_eq!(ledger.get_net("A"), Some("13848".to_string()));
    assert_eq!(ledger.get_net("B"), None);
    assert_eq!(ledger.len(), 3);
}

#[test]
fn a_debit_of_fifty_with_given_blinding_factors() {
    let mut ledger = toy_ledger();
    ledger.credit_with("w", &big(100), &big(3), &big(5));
    ledger.credit_with("w", &big(40), &big(7), &big(5));
    let ct = ledger.debit_with("w", &big(50), &big(9), &big(5));
    assert_eq!(ct.c, big(1407));
    assert_eq!(plaintext(&ledger, &ct), big(90));
}

#[test]
fn the_first_credit_starts_from_the_encryption_of_zero() {
    let mut ledger = toy_ledger();
    let zero = ledger.last_balance_with("A", &big(5));
    assert_eq!(zero.c, big(7704));
    assert_eq!(zero.n_squared, big(20449));
    let key = PaillierKey::from_primes(&big(11), &big(13)).unwrap();
    let amount = encrypt_with(&key, &big(100), &big(3));
    let ct = ledger.credit_with("A", &big(100), &big(3), &big(5));
    assert_eq!(ct.c, (&zero.c * &amount.c) % big(20449));
}

#[test]
fn the_balance_of_a_known_account_is_its_last_record() {
    let mut ledger = toy_ledger();
    ledger.credit_with("A", &big(100), &big(3), &big(5));
    let second = ledger.credit_with("A", &big(40), &big(7), &big(5));
    assert_eq!(ledger.last_balance_with("A", &big(2)).c, second.c);
    assert_eq!(ledger.last_balance("A").c, second.c);
    assert_eq!(ledger.find("A").unwrap().c, second.c);
}

#[test]
fn every_credit_and_debit_appends_one_record() {
    let mut ledger = fresh_ledger();
    assert_eq!(ledger.len(), 0);
    ledger.credit("A", &big(1));
    assert_eq!(ledger.len(), 1);
    ledger.debit("A", &big(1));
    assert_eq!(ledger.len(), 2);
    ledger.credit("B", &big(1));
    assert_eq!(ledger.len(), 3);
    ledger.last_balance("A");
    ledger.get_net("B");
    assert_eq!(ledger.len(), 3);
}

#[test]
fn accounts_do_not_touch_each_other() {
    let mut ledger = fresh_ledger();
    ledger.credit("A", &big(10));
    let a = ledger.find("A").unwrap();
    ledger.credit("B", &big(7));
    ledger.debit("B", &big(2));
    assert_eq!(ledger.find("A").unwrap().c, a.c);
    let b = ledger.last_balance("B");
    assert_eq!(plaintext(&ledger, &b), big(5));
    let a = ledger.last_balance("A");
    assert_eq!(plaintext(&ledger, &a), big(10));
}

#[test]
fn account_names_are_compared_whole() {
    let mut ledger = fresh_ledger();
    ledger.credit("wallet", &big(10));
    assert!(ledger.get_net("wallet").is_some());
    assert!(ledger.get_net("wallet ").is_none());
    assert!(ledger.get_net("Wallet").is_none());
    assert!(ledger.get_net("wall").is_none());
    assert!(ledger.get_net("").is_none());
}

#[test]
fn a_debit_beyond_the_balance_wraps_around() {
    let mut ledger = toy_ledger();
    ledger.credit_with("A", &big(10), &big(3), &big(5));
    let ct = ledger.debit_with("A", &big(30), &big(7), &big(5));
    // 10 - 30 = -20, which is 123 modulo 143
    assert_eq!(plaintext(&ledger, &ct), big(123));
}

#[test]
fn a_debit_of_zero_leaves_the_plaintext() {
    let mut ledger = toy_ledger();
    ledger.credit_with("A", &big(10), &big(3), &big(5));
    let ct = ledger.debit_with("A", &big(0), &big(7), &big(5));
    assert_eq!(plaintext(&ledger, &ct), big(10));
}

#[test]
fn get_net_writes_the_last_ciphertext_in_decimal() {
    let mut ledger = fresh_ledger();
    let ct = ledger.credit("A", &big(77));
    assert_eq!(ledger.get_net("A"), Some(ct.c.to_string()));
    let ct = ledger.debit("A", &big(7));
    assert_eq!(ledger.get_net("A"), Some(ct.c.to_string()));
}

#[test]
fn an_encrypted_amount_is_credited() {
    let mut ledger = toy_ledger();
    ledger.credit_with("A", &big(100), &big(3), &big(5));
    // 18449 is the encryption of 40 with the blinding factor 7
    let ct = ledger.credit_encrypted_with("A", "18449", &big(5)).unwrap();
    assert_eq!(ct.c, big(17486));
    assert_eq!(plaintext(&ledger, &ct), big(140));
    assert_eq!(ledger.len(), 2);
    let ct = ledger.credit_encrypted("B", "18449").unwrap();
    assert_eq!(plaintext(&ledger, &ct), big(40));
    assert_eq!(ledger.len(), 3);
}

#[test]
fn a_malformed_numeral_leaves_the_ledger_as_it_was() {
    let mut ledger = toy_ledger();
    ledger.credit_with("A", &big(100), &big(3), &big(5));
    let before = ledger.get_net("A");
    for text in ["", "12x", "-5", "1 2"] {
        assert!(matches!(
            ledger.credit_encrypted("A", text),
            Err(PaillierError::InvalidNumeralEncoding)
        ));
        assert!(matches!(
            ledger.credit_encrypted_with("B", text, &big(5)),
            Err(PaillierError::InvalidNumeralEncoding)
        ));
    }
    assert_eq!(ledger.len(), 1);
    assert_eq!(ledger.get_net("A"), before);
    assert!(ledger.get_net("B").is_none());
}

#[test]
fn a_number_that_is_no_ciphertext_leaves_the_ledger_as_it_was() {
    let mut ledger = toy_ledger();
    assert!(matches!(
        ledger.credit_encrypted("A", "20449"),
        Err(PaillierError::InvalidCiphertext)
    ));
    assert_eq!(ledger.len(), 0);
    assert!(ledger.get_net("A").is_none());
}

#[test]
fn records_stay_as_they_were_appended() {
    let mut ledger = toy_ledger();
    let first = ledger.credit_with("A", &big(100), &big(3), &big(5));
    let second = ledger.credit_with("B", &big(40), &big(7), &big(5));
    let third = ledger.debit_with("A", &big(60), &big(9), &big(5));
    let expected = [("A", first), ("B", second), ("A", third)];
    for (index, (wallet, ct)) in expected.iter().enumerate() {
        let record = ledger.record(index).expect("three records");
        assert_eq!(record.wallet(), *wallet);
        assert_eq!(record.ciphertext().c, ct.c);
        assert_eq!(record.ciphertext().n_squared, big(20449));
    }
    assert!(ledger.record(3).is_none());
}

#[test]
fn a_debit_of_the_whole_modulus_leaves_the_plaintext() {
    let mut ledger = toy_ledger();
    ledger.credit_with("A", &big(10), &big(3), &big(5));
    let ct = ledger.debit_with("A", &big(143), &big(7), &big(5));
    assert_eq!(plaintext(&ledger, &ct), big(10));
}

#[test]
fn a_credit_above_the_modulus_counts_modulo_n() {
    let mut ledger = toy_ledger();
    let ct = ledger.credit_with("A", &big(143 + 9), &big(3), &big(5));
    assert_eq!(plaintext(&ledger, &ct), big(9));
}
