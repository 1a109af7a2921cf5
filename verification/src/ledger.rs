//! The balance ledger: an append-only sequence of records, each holding an
//! account and the ciphertext of its running total after one more credit or
//! debit. Nothing in it is ever decrypted.

use crate::bignum::{big_sub, big_value, big_zero, decimal};
use crate::paillier::{
    combination, combine, encrypt, encrypt_with, encryption, parsed, CiphertextView, KeyView,
    PaillierCiphertext, PaillierError, PaillierKey,
};
use num_bigint::BigUint;
use vstd::prelude::*;

verus! {

/// What a record holds: the account's name and the ciphertext's numbers.
pub struct RecordView {
    pub wallet: Seq<char>,
    pub ct: CiphertextView,
}

/// One entry of the ledger: an account and the ciphertext of its running
/// total at that point.
#[derive(Debug)]
pub struct Record {
    wallet: String,
    ct: PaillierCiphertext,
}

impl View for Record {
    type V = RecordView;

    closed spec fn view(&self) -> RecordView {
        RecordView { wallet: self.wallet@, ct: self.ct@ }
    }
}

impl Record {
    /// The account of the record.
    pub fn wallet(&self) -> (wallet: &str)
        ensures
            wallet@ == self@.wallet,
    {
        self.wallet.as_str()
    }

    /// The ciphertext of the record.
    pub fn ciphertext(&self) -> (ct: &PaillierCiphertext)
        ensures
            ct@ == self@.ct,
    {
        &self.ct
    }
}

/// The ciphertext of the last record of `wallet`, if it has one.
pub open spec fn latest(records: Seq<RecordView>, wallet: Seq<char>) -> Option<CiphertextView>
    decreases records.len(),
{
    if records.len() == 0 {
        None
    } else if records.last().wallet == wallet {
        Some(records.last().ct)
    } else {
        latest(records.drop_last(), wallet)
    }
}

/// The encryption of zero that stands for an account without a record.
pub open spec fn zero_balance(key: KeyView, r_zero: nat) -> CiphertextView {
    CiphertextView { c: encryption(key, 0, r_zero), n_squared: key.n_squared }
}

/// The current balance of `wallet`: the ciphertext of its last record, or an
/// encryption of zero with the blinding factor `r_zero`.
pub open spec fn balance(
    records: Seq<RecordView>,
    key: KeyView,
    wallet: Seq<char>,
    r_zero: nat,
) -> CiphertextView {
    match latest(records, wallet) {
        Some(ct) => ct,
        None => zero_balance(key, r_zero),
    }
}

/// The balance of `wallet` after the ciphertext number `delta` is combined
/// into it.
pub open spec fn raised(
    records: Seq<RecordView>,
    key: KeyView,
    wallet: Seq<char>,
    delta: nat,
    r_zero: nat,
) -> CiphertextView {
    CiphertextView {
        c: combination(balance(records, key, wallet, r_zero).c, delta, key.n_squared),
        n_squared: key.n_squared,
    }
}

/// The balance of `wallet` after `amount` is added to it: the combination of
/// the current balance and the encryption of `amount` with the blinding
/// factor `r`.
pub open spec fn credited(
    records: Seq<RecordView>,
    key: KeyView,
    wallet: Seq<char>,
    amount: nat,
    r: nat,
    r_zero: nat,
) -> CiphertextView {
    raised(records, key, wallet, encryption(key, amount, r), r_zero)
}

/// The balance of `wallet` after `amount` is taken from it: `n - amount`,
/// which stands for `-amount` in the residues modulo `n`, is added.
pub open spec fn debited(
    records: Seq<RecordView>,
    key: KeyView,
    wallet: Seq<char>,
    amount: nat,
    r: nat,
    r_zero: nat,
) -> CiphertextView {
    credited(records, key, wallet, (key.n - amount) as nat, r, r_zero)
}

/// `ct` is the current balance of `wallet`, for some blinding factor below
/// `n` of the zero that an account without a record starts from.
pub open spec fn is_balance(
    records: Seq<RecordView>,
    key: KeyView,
    wallet: Seq<char>,
    ct: CiphertextView,
) -> bool {
    exists|r_zero: nat| r_zero < key.n && ct == #[trigger] balance(records, key, wallet, r_zero)
}

/// `ct` is the balance of `wallet` after `delta` is combined into it, for
/// some blinding factor below `n` of the zero.
pub open spec fn is_raised(
    records: Seq<RecordView>,
    key: KeyView,
    wallet: Seq<char>,
    delta: nat,
    ct: CiphertextView,
) -> bool {
    exists|r_zero: nat|
        r_zero < key.n && ct == #[trigger] raised(records, key, wallet, delta, r_zero)
}

/// `ct` is the balance of `wallet` after `amount` is added to it, for some
/// blinding factors below `n`.
pub open spec fn is_credited(
    records: Seq<RecordView>,
    key: KeyView,
    wallet: Seq<char>,
    amount: nat,
    ct: CiphertextView,
) -> bool {
    exists|r: nat, r_zero: nat|
        r < key.n && r_zero < key.n && ct == #[trigger] credited(
            records,
            key,
            wallet,
            amount,
            r,
            r_zero,
        )
}

/// `ct` is the balance of `wallet` after `amount` is taken from it, for some
/// blinding factors below `n`.
pub open spec fn is_debited(
    records: Seq<RecordView>,
    key: KeyView,
    wallet: Seq<char>,
    amount: nat,
    ct: CiphertextView,
) -> bool {
    exists|r: nat, r_zero: nat|
        r < key.n && r_zero < key.n && ct == #[trigger] debited(
            records,
            key,
            wallet,
            amount,
            r,
            r_zero,
        )
}

/// `records` with one more record at its end.
pub open spec fn appended(
    records: Seq<RecordView>,
    wallet: Seq<char>,
    ct: CiphertextView,
) -> Seq<RecordView> {
    records.push(RecordView { wallet, ct })
}

/// Every ciphertext in `records` lies below the modulus of `key` and names
/// that modulus as its own.
pub open spec fn records_under(records: Seq<RecordView>, key: KeyView) -> bool {
    forall|i: int|
        0 <= i < records.len() ==> (#[trigger] records[i]).ct.n_squared == key.n_squared
            && records[i].ct.wf()
}

/// The ledger: the key pair in use and the records, oldest first.
#[derive(Debug)]
pub struct Ledger {
    key: PaillierKey,
    records: Vec<Record>,
}

impl View for Ledger {
    type V = Seq<RecordView>;

    closed spec fn view(&self) -> Seq<RecordView> {
        self.records@.map_values(|r: Record| r@)
    }
}

impl Ledger {
    /// The numbers of the key pair in use.
    pub closed spec fn key_view(&self) -> KeyView {
        self.key@
    }

    #[verifier::type_invariant]
    spec fn inv(&self) -> bool {
        self.key@.wf() && records_under(self@, self.key@)
    }

    /// An empty ledger under `key`.
    pub fn new(key: PaillierKey) -> (ledger: Ledger)
        requires
            key@.wf(),
        ensures
            ledger@ == Seq::<RecordView>::empty(),
            ledger.key_view() == key@,
    {
        let ledger = Ledger { key, records: Vec::new() };
        assert(ledger@ =~= Seq::<RecordView>::empty());
        ledger
    }

    /// The key pair in use.
    pub fn key(&self) -> (key: &PaillierKey)
        ensures
            key@ == self.key_view(),
            key@.wf(),
    {
        proof {
            use_type_invariant(self);
        }
        &self.key
    }

    /// The number of records.
    pub fn len(&self) -> (n: usize)
        ensures
            n == self@.len(),
    {
        self.records.len()
    }

    /// The record at `index`, counted from the oldest, if there is one.
    pub fn record(&self, index: usize) -> (res: Option<&Record>)
        ensures
            match res {
                Some(record) => index < self@.len() && record@ == self@[index as int],
                None => index >= self@.len(),
            },
    {
        if index < self.records.len() {
            Some(&self.records[index])
        } else {
            None
        }
    }

    /// The ciphertext of the last record of `wallet`, if it has one.
    pub fn find(&self, wallet: &str) -> (res: Option<PaillierCiphertext>)
        ensures
            match res {
                Some(ct) => latest(self@, wallet@) == Some(ct@) && ct@.wf() && ct@.n_squared
                    == self.key_view().n_squared,
                None => latest(self@, wallet@).is_none(),
            },
    {
        proof {
            use_type_invariant(self);
        }
        let name = wallet.to_owned();
        let mut i: usize = self.records.len();
        assert(self@.take(i as int) =~= self@);
        while i > 0
            invariant
                i <= self.records.len(),
                name@ == wallet@,
                latest(self@, wallet@) == latest(self@.take(i as int), wallet@),
                records_under(self@, self.key@),
            decreases i,
        {
            i = i - 1;
            proof {
                let shorter = self@.take(i + 1);
                assert(shorter.drop_last() =~= self@.take(i as int));
                assert(shorter.last() == self@[i as int]);
                assert(self@[i as int] == self.records@[i as int]@);
            }
            if self.records[i].wallet == name {
                return Some(self.records[i].ct.clone());
            }
        }
        None
    }

    /// Combines `delta` into `previous`, the balance of `wallet`, and appends
    /// the result as the new record of `wallet`.
    fn append_sum(
        &mut self,
        wallet: &str,
        previous: &PaillierCiphertext,
        delta: &PaillierCiphertext,
    ) -> (ct: PaillierCiphertext)
        requires
            previous@.n_squared == old(self).key_view().n_squared,
            delta@.n_squared == old(self).key_view().n_squared,
        ensures
            ct@ == (CiphertextView {
                c: combination(previous@.c, delta@.c, old(self).key_view().n_squared),
                n_squared: old(self).key_view().n_squared,
            }),
            final(self)@ == appended(old(self)@, wallet@, ct@),
            final(self).key_view() == old(self).key_view(),
    {
        proof {
            use_type_invariant(&*self);
            assert(self.key@.n * self.key@.n > 0) by (nonlinear_arith)
                requires
                    self.key@.n > 1,
            ;
        }
        let sum = combine(previous, delta);
        let kept = sum.clone();
        let ghost before = self@;
        let mut records: Vec<Record> = Vec::new();
        core::mem::swap(&mut self.records, &mut records);
        records.push(Record { wallet: wallet.to_owned(), ct: sum });
        proof {
            let after = records@.map_values(|r: Record| r@);
            assert(after =~= appended(before, wallet@, kept@));
            assert(records_under(after, self.key@));
        }
        core::mem::swap(&mut self.records, &mut records);
        kept
    }

    /// The current balance of `wallet`: the ciphertext of its last record,
    /// or, where it has none, the encryption of zero with the blinding
    /// factor `r_zero`.
    pub fn last_balance_with(&self, wallet: &str, r_zero: &BigUint) -> (ct: PaillierCiphertext)
        ensures
            ct@ == balance(self@, self.key_view(), wallet@, big_value(*r_zero)),
            ct@.wf(),
            ct@.n_squared == self.key_view().n_squared,
    {
        proof {
            use_type_invariant(self);
        }
        match self.find(wallet) {
            Some(ct) => ct,
            None => encrypt_with(&self.key, &big_zero(), r_zero),
        }
    }

    /// The current balance of `wallet`: the ciphertext of its last record,
    /// or, where it has none, a fresh encryption of zero.
    pub fn last_balance(&self, wallet: &str) -> (ct: PaillierCiphertext)
        ensures
            is_balance(self@, self.key_view(), wallet@, ct@),
            ct@.wf(),
            ct@.n_squared == self.key_view().n_squared,
    {
        proof {
            use_type_invariant(self);
        }
        match self.find(wallet) {
            Some(ct) => {
                assert(ct@ == balance(self@, self.key_view(), wallet@, 0));
                assert(is_balance(self@, self.key_view(), wallet@, ct@));
                ct
            },
            None => {
                let ct = encrypt(&self.key, &big_zero());
                proof {
                    let r_zero = choose|r: nat|
                        r < self.key@.n && ct@.c == encryption(self.key@, 0, r);
                    assert(ct@ == balance(self@, self.key_view(), wallet@, r_zero));
                    assert(is_balance(self@, self.key_view(), wallet@, ct@));
                }
                ct
            },
        }
    }

    /// Adds `amount` to the balance of `wallet`, with the blinding factor `r`
    /// for the amount and `r_zero` for the zero that an account without a
    /// record starts from. One record is appended; the new balance is
    /// returned.
    pub fn credit_with(
        &mut self,
        wallet: &str,
        amount: &BigUint,
        r: &BigUint,
        r_zero: &BigUint,
    ) -> (ct: PaillierCiphertext)
        ensures
            ct@ == credited(
                old(self)@,
                old(self).key_view(),
                wallet@,
                big_value(*amount),
                big_value(*r),
                big_value(*r_zero),
            ),
            final(self)@ == appended(old(self)@, wallet@, ct@),
            final(self).key_view() == old(self).key_view(),
    {
        proof {
            use_type_invariant(&*self);
        }
        let delta = encrypt_with(&self.key, amount, r);
        let previous = self.last_balance_with(wallet, r_zero);
        self.append_sum(wallet, &previous, &delta)
    }

    /// Adds `amount` to the balance of `wallet`, under fresh random blinding
    /// factors. One record is appended; the new balance is returned.
    pub fn credit(&mut self, wallet: &str, amount: &BigUint) -> (ct: PaillierCiphertext)
        ensures
            is_credited(old(self)@, old(self).key_view(), wallet@, big_value(*amount), ct@),
            final(self)@ == appended(old(self)@, wallet@, ct@),
            final(self).key_view() == old(self).key_view(),
    {
        proof {
            use_type_invariant(&*self);
        }
        let delta = encrypt(&self.key, amount);
        let previous = self.last_balance(wallet);
        let ct = self.append_sum(wallet, &previous, &delta);
        proof {
            let key = old(self).key_view();
            let r = choose|r: nat| r < key.n && delta@.c == encryption(key, big_value(*amount), r);
            let r_zero = choose|r_zero: nat|
                r_zero < key.n && previous@ == #[trigger] balance(
                    old(self)@,
                    key,
                    wallet@,
                    r_zero,
                );
            assert(ct@ == credited(old(self)@, key, wallet@, big_value(*amount), r, r_zero));
            assert(is_credited(old(self)@, key, wallet@, big_value(*amount), ct@));
        }
        ct
    }

    /// Takes `amount` from the balance of `wallet`, with the blinding factor
    /// `r` for the amount and `r_zero` for the zero that an account without a
    /// record starts from. The amount is at most `n`. Balances count modulo
    /// `n`: taking more than was put in wraps around, it does not fail.
    pub fn debit_with(
        &mut self,
        wallet: &str,
        amount: &BigUint,
        r: &BigUint,
        r_zero: &BigUint,
    ) -> (ct: PaillierCiphertext)
        requires
            big_value(*amount) <= old(self).key_view().n,
        ensures
            ct@ == debited(
                old(self)@,
                old(self).key_view(),
                wallet@,
                big_value(*amount),
                big_value(*r),
                big_value(*r_zero),
            ),
            final(self)@ == appended(old(self)@, wallet@, ct@),
            final(self).key_view() == old(self).key_view(),
    {
        let complement = big_sub(&self.key.n, amount);
        self.credit_with(wallet, &complement, r, r_zero)
    }

    /// Takes `amount`, at most `n`, from the balance of `wallet`, under fresh
    /// random blinding factors. One record is appended; the new balance is
    /// returned.
    pub fn debit(&mut self, wallet: &str, amount: &BigUint) -> (ct: PaillierCiphertext)
        requires
            big_value(*amount) <= old(self).key_view().n,
        ensures
            is_debited(old(self)@, old(self).key_view(), wallet@, big_value(*amount), ct@),
            final(self)@ == appended(old(self)@, wallet@, ct@),
            final(self).key_view() == old(self).key_view(),
    {
        let complement = big_sub(&self.key.n, amount);
        let ct = self.credit(wallet, &complement);
        proof {
            let key = old(self).key_view();
            let (r, r_zero) = choose|r: nat, r_zero: nat|
                r < key.n && r_zero < key.n && ct@ == #[trigger] credited(
                    old(self)@,
                    key,
                    wallet@,
                    big_value(complement),
                    r,
                    r_zero,
                );
            assert(ct@ == debited(old(self)@, key, wallet@, big_value(*amount), r, r_zero));
            assert(is_debited(old(self)@, key, wallet@, big_value(*amount), ct@));
        }
        ct
    }

    /// The net balance of `wallet` as it is sent out: the decimal numeral of
    /// the ciphertext number of its last record. `None` for an account that
    /// was never touched.
    pub fn get_net(&self, wallet: &str) -> (res: Option<String>)
        ensures
            match latest(self@, wallet@) {
                Some(ct) => res.is_some() && res.unwrap()@ == decimal(ct.c),
                None => res.is_none(),
            },
    {
        match self.find(wallet) {
            Some(ct) => Some(ct.to_numeral()),
            None => None,
        }
    }
    /// Adds an amount that arrives encrypted, as the decimal numeral of its
    /// ciphertext number, to the balance of `wallet`; `r_zero` is the
    /// blinding factor of the zero that an account without a record starts
    /// from. A string that is no numeral, or a number that is no ciphertext
    /// under the key in use, is refused and leaves the ledger as it was.
    pub fn credit_encrypted_with(&mut self, wallet: &str, numeral: &str, r_zero: &BigUint) -> (res:
        Result<PaillierCiphertext, PaillierError>)
        ensures
            final(self).key_view() == old(self).key_view(),
            match parsed(numeral@, old(self).key_view().n_squared) {
                Ok(delta) => res.is_ok() && res.unwrap()@ == raised(
                    old(self)@,
                    old(self).key_view(),
                    wallet@,
                    delta.c,
                    big_value(*r_zero),
                ) && final(self)@ == appended(old(self)@, wallet@, res.unwrap()@),
                Err(e) => res == Err::<PaillierCiphertext, PaillierError>(e) && final(self)@
                    == old(self)@,
            },
    {
        match PaillierCiphertext::from_numeral(numeral, &self.key.n_squared) {
            Ok(delta) => {
                let previous = self.last_balance_with(wallet, r_zero);
                Ok(self.append_sum(wallet, &previous, &delta))
            },
            Err(e) => Err(e),
        }
    }

    /// Adds an amount that arrives encrypted, as the decimal numeral of its
    /// ciphertext number, to the balance of `wallet`, with a fresh random
    /// blinding factor for the zero that an account without a record starts
    /// from.
    pub fn credit_encrypted(&mut self, wallet: &str, numeral: &str) -> (res: Result<
        PaillierCiphertext,
        PaillierError,
    >)
        ensures
            final(self).key_view() == old(self).key_view(),
            match parsed(numeral@, old(self).key_view().n_squared) {
                Ok(delta) => res.is_ok() && is_raised(
                    old(self)@,
                    old(self).key_view(),
                    wallet@,
                    delta.c,
                    res.unwrap()@,
                ) && final(self)@ == appended(old(self)@, wallet@, res.unwrap()@),
                Err(e) => res == Err::<PaillierCiphertext, PaillierError>(e) && final(self)@
                    == old(self)@,
            },
    {
        match PaillierCiphertext::from_numeral(numeral, &self.key.n_squared) {
            Ok(delta) => {
                let previous = self.last_balance(wallet);
                let ct = self.append_sum(wallet, &previous, &delta);
                proof {
                    let key = old(self).key_view();
                    let r_zero = choose|r_zero: nat|
                        r_zero < key.n && previous@ == #[trigger] balance(
                            old(self)@,
                            key,
                            wallet@,
                            r_zero,
                        );
                    assert(ct@ == raised(old(self)@, key, wallet@, delta@.c, r_zero));
                    assert(is_raised(old(self)@, key, wallet@, delta@.c, ct@));
                }
                Ok(ct)
            },
            Err(e) => Err(e),
        }
    }
}

} // verus!
