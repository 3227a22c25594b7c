//! The record that an account keeps of its transactions.

use vstd::prelude::*;
use crate::actions::TransactionId;
use crate::amount::Amount;

verus! {

/// What is known of one transaction. The record of a transaction is the only thing
/// that decides what a later dispute, resolution or chargeback may do.
#[derive(Debug, Clone, Copy, PartialEq, Eq, Structural)]
pub enum TransactionState {
    /// A deposit that is not under dispute.
    Deposit(Amount),
    /// A deposit whose funds are held back by an open dispute.
    DepositInDispute(Amount),
    /// A deposit that was reversed. Nothing more can happen to it.
    ChargedBack(Amount),
    /// A withdrawal. Withdrawals cannot be disputed.
    Withdrawal(Amount),
}

impl TransactionState {
    /// The amount of the recorded transaction.
    pub open spec fn amount(self) -> Amount {
        match self {
            TransactionState::Deposit(a) => a,
            TransactionState::DepositInDispute(a) => a,
            TransactionState::ChargedBack(a) => a,
            TransactionState::Withdrawal(a) => a,
        }
    }
}

/// What a ledger holds: the last known state of each recorded transaction.
pub type Entries = Map<TransactionId, TransactionState>;

/// A store of transaction states, keyed by transaction.
///
/// An insert commits: an account changes its balances only after the insert that
/// records the change has succeeded. Any call may fail, as a call to a real database
/// may; a failed insert must leave the store as it was.
pub trait Ledger: Sized {
    /// How the store reports that it could not be reached.
    type Error;

    /// The entries of the store.
    spec fn view(&self) -> Entries;

    /// Whether every call to a store of this kind succeeds.
    spec fn reliable() -> bool;

    /// Whether the store has an entry for `key`.
    fn contains(&self, key: TransactionId) -> (r: Result<bool, Self::Error>)
        ensures
            r matches Ok(found) ==> found == self@.contains_key(key),
            Self::reliable() ==> r is Ok,
    ;

    /// The entry for `key`, if there is one.
    fn get(&self, key: TransactionId) -> (r: Result<Option<TransactionState>, Self::Error>)
        ensures
            r matches Ok(found) ==> found == (if self@.contains_key(key) {
                Some(self@[key])
            } else {
                None
            }),
            Self::reliable() ==> r is Ok,
    ;

    /// Sets the entry for `key`, replacing an earlier one.
    fn insert(&mut self, key: TransactionId, state: TransactionState) -> (r: Result<(), Self::Error>)
        ensures
            r is Ok ==> final(self)@ == old(self)@.insert(key, state),
            r is Err ==> final(self)@ == old(self)@,
            Self::reliable() ==> r is Ok,
    ;
}

} // verus!
