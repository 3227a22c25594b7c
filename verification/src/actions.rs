//! The actions that can be asked of an account.

use vstd::prelude::*;
use crate::amount::Amount;
use crate::amount::ParseError;
use crate::text::decimal_digits;
use crate::text::number_of_text;
use crate::text::parse_unsigned;
use crate::text::push_decimal;
use crate::text::without_plus;

verus! {

/// Identifies one transaction. Kept apart from other numbers by its own type.
#[derive(Debug, Clone, Copy, PartialEq, Eq, PartialOrd, Ord, Hash, Structural)]
pub struct TransactionId(pub u32);

impl From<u32> for TransactionId {
    fn from(v: u32) -> (id: TransactionId) {
        TransactionId(v)
    }
}

impl vstd::std_specs::convert::FromSpecImpl<u32> for TransactionId {
    open spec fn obeys_from_spec() -> bool {
        true
    }

    open spec fn from_spec(v: u32) -> TransactionId {
        TransactionId(v)
    }
}

impl TransactionId {
    /// The identifier written in decimal.
    pub fn to_string(&self) -> (text: String)
        ensures
            text@ == decimal_digits(self.0 as nat),
    {
        let mut out = String::new();
        push_decimal(&mut out, self.0 as u64);
        assert(Seq::<char>::empty() + decimal_digits(self.0 as nat) =~= decimal_digits(self.0 as nat));
        out
    }

    /// Reads an identifier: a number of 32 bits written in digits, with or without
    /// a plus sign before them.
    pub fn from_str(text: &str) -> (r: Result<TransactionId, ParseError>)
        ensures
            r == match number_of_text(without_plus(text@), u32::MAX as nat) {
                Some(n) => Ok::<TransactionId, ParseError>(TransactionId(n as u32)),
                None => Err::<TransactionId, ParseError>(ParseError),
            },
    {
        match parse_unsigned(text, 0xffff_ffff) {
            Some(n) => Ok(TransactionId(n as u32)),
            None => Err(ParseError),
        }
    }
}

/// A movement of funds.
#[derive(Debug, Clone, Copy, PartialEq, Eq, Structural)]
pub enum Transaction {
    /// Increase the balance of an account by the given amount.
    Deposit(Amount),
    /// Decrease the balance of an account by the given amount.
    Withdrawal(Amount),
}

/// A movement of funds together with the identifier it is recorded under.
#[derive(Debug, Clone, Copy, PartialEq, Eq, Structural)]
pub struct TransactionData {
    pub id: TransactionId,
    pub transaction: Transaction,
}

/// Everything that can be asked of an account.
#[derive(Debug, Clone, Copy, PartialEq, Eq, Structural)]
pub enum Action {
    /// Move funds in or out.
    Transact(TransactionData),
    /// Claim that an earlier deposit was erroneous; its funds are held back.
    Dispute(TransactionId),
    /// Close a dispute in the account's favour; the held funds are released.
    Resolve(TransactionId),
    /// Close a dispute by reversing the deposit; the account is locked.
    ChargeBack(TransactionId),
}

impl Action {
    /// The transaction that the action speaks of.
    pub open spec fn id(self) -> TransactionId {
        match self {
            Action::Transact(data) => data.id,
            Action::Dispute(id) => id,
            Action::Resolve(id) => id,
            Action::ChargeBack(id) => id,
        }
    }
}

} // verus!
