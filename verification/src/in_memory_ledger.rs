//! A ledger that lives in memory.

use vstd::prelude::*;
use std::collections::HashMap;
use crate::actions::TransactionId;
use crate::ledger::{Entries, Ledger, TransactionState};

verus! {

broadcast use vstd::std_specs::hash::group_hash_axioms;

/// The error of a ledger call. An in-memory ledger never returns it.
#[derive(Debug, Clone, Copy, PartialEq, Eq, Structural)]
pub struct LedgerError;

impl LedgerError {
    /// A short description of the error.
    pub fn to_string(&self) -> (text: String)
        ensures
            text@ == "ledger error"@,
    {
        "ledger error".to_owned()
    }
}

/// A ledger held in a hash map. Its calls always succeed.
#[derive(Debug)]
pub struct InMemoryLedger {
    db: HashMap<u32, TransactionState>,
}

impl InMemoryLedger {
    /// Opens a new, empty ledger. Stands where a connection to a database would be made,
    /// and so may in principle not give a ledger; in memory it always does.
    pub fn connect() -> (r: Option<Self>)
        ensures
            r matches Some(ledger) && ledger@ == Entries::empty(),
    {
        let ledger = InMemoryLedger { db: HashMap::new() };
        assert(ledger@ =~= Entries::empty());
        Some(ledger)
    }
}

impl Ledger for InMemoryLedger {
    type Error = LedgerError;

    closed spec fn view(&self) -> Entries {
        Map::new(
            |id: TransactionId| self.db@.contains_key(id.0),
            |id: TransactionId| self.db@[id.0],
        )
    }

    open spec fn reliable() -> bool {
        true
    }

    fn contains(&self, key: TransactionId) -> (r: Result<bool, LedgerError>) {
        Ok(self.db.contains_key(&key.0))
    }

    fn get(&self, key: TransactionId) -> (r: Result<Option<TransactionState>, LedgerError>) {
        match self.db.get(&key.0) {
            Some(state) => Ok(Some(*state)),
            None => Ok(None),
        }
    }

    fn insert(&mut self, key: TransactionId, state: TransactionState) -> (r: Result<(), LedgerError>) {
        self.db.insert(key.0, state);
        assert(self@ =~= old(self)@.insert(key, state));
        Ok(())
    }
}

} // verus!
