//! Additively homomorphic encryption of integer balances with the Paillier
//! cryptosystem, and an append-only ledger of encrypted running totals.
//!
//! - `paillier`: key pairs, encryption, decryption, combination.
//! - `ledger`: credit, debit and query on encrypted balances.
//! - `correctness`: the theorems that relate the two to plaintexts.
//! - `number_theory`: the arithmetic under those theorems.
//! - `bignum`: the trusted contracts of the big-number operations.

pub mod bignum;
pub mod correctness;
pub mod ledger;
pub mod number_theory;
pub mod paillier;
