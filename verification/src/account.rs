//! One client's account: its balances, its ledger, and the rules that decide whether
//! an action is legal and how it changes the balances.

use vstd::prelude::*;
use crate::actions::{Action, Transaction, TransactionData, TransactionId};
use crate::amount::fits;
use crate::amount::Amount;
use crate::ledger::{Entries, Ledger, TransactionState};

verus! {

broadcast use Amount::lemma_view_in_range;

/// Why an action was refused. A refusal concerns one action only and leaves the
/// account as it was.
#[derive(Debug, Clone, Copy, PartialEq, Eq, Structural)]
pub enum TransactionError {
    /// The account is locked: it accepts no deposit and no withdrawal.
    AccountLocked,
    /// The amount is zero or negative, or a withdrawal asks for more than is available.
    InvalidAmount,
    /// The balance cannot hold that much.
    WouldOverFlow,
    /// Only an open dispute can be resolved or charged back.
    DisputeNotOpenedYet,
    /// The transaction is under dispute already.
    AlreadyInDispute,
    /// The transaction was charged back already.
    AlreadyChargedBack,
    /// The ledger has no such transaction.
    InvalidTransactionId,
    /// Withdrawals cannot be disputed.
    InvalidTransactionType,
    /// The ledger has a transaction under this identifier already.
    RepeatedTransactionId,
    /// The ledger could not be reached.
    DbError,
    /// A balance left the representable range where the rules rule that out.
    Unexpected,
}

impl TransactionError {
    /// The name of the error followed by a description in parentheses.
    pub open spec fn text(self) -> Seq<char> {
        match self {
            TransactionError::AccountLocked => "AccountLocked (try to access locked account)"@,
            TransactionError::InvalidAmount => "InvalidAmount (zero or negative transaction amount)"@,
            TransactionError::WouldOverFlow => "WouldOverFlow (can not book that much amount)"@,
            TransactionError::DisputeNotOpenedYet => "DisputeNotOpenedYet (resolve/charge back needs open dispute first)"@,
            TransactionError::AlreadyInDispute => "AlreadyInDispute (a dispute already opened with the given transaction id)"@,
            TransactionError::AlreadyChargedBack => "AlreadyChargedBack (already charged back)"@,
            TransactionError::InvalidTransactionId => "InvalidTransactionId (there is no such transaction in the ledger)"@,
            TransactionError::InvalidTransactionType => "InvalidTransactionType (based on assumption that withdrawals can not be disputed)"@,
            TransactionError::RepeatedTransactionId => "RepeatedTransactionId (this check is theoretically not needed (unique TransactionIds guaranteed in the input))"@,
            TransactionError::DbError => "DbError (a ledger real DB would have possible access errors)"@,
            TransactionError::Unexpected => "Unexpected (this should have never happened)"@,
        }
    }

    /// The name of the error followed by a description in parentheses.
    pub fn to_string(&self) -> (text: String)
        ensures
            text@ == self.text(),
    {
        let literal = match self {
            TransactionError::AccountLocked => "AccountLocked (try to access locked account)",
            TransactionError::InvalidAmount => "InvalidAmount (zero or negative transaction amount)",
            TransactionError::WouldOverFlow => "WouldOverFlow (can not book that much amount)",
            TransactionError::DisputeNotOpenedYet => "DisputeNotOpenedYet (resolve/charge back needs open dispute first)",
            TransactionError::AlreadyInDispute => "AlreadyInDispute (a dispute already opened with the given transaction id)",
            TransactionError::AlreadyChargedBack => "AlreadyChargedBack (already charged back)",
            TransactionError::InvalidTransactionId => "InvalidTransactionId (there is no such transaction in the ledger)",
            TransactionError::InvalidTransactionType => "InvalidTransactionType (based on assumption that withdrawals can not be disputed)",
            TransactionError::RepeatedTransactionId => "RepeatedTransactionId (this check is theoretically not needed (unique TransactionIds guaranteed in the input))",
            TransactionError::DbError => "DbError (a ledger real DB would have possible access errors)",
            TransactionError::Unexpected => "Unexpected (this should have never happened)",
        };
        literal.to_owned()
    }
}

/// An account as a mathematical value: balances in ten-thousandths, the lock, and
/// the entries of the ledger.
#[verifier::ext_equal]
pub struct AccountState {
    /// Funds available or held. Negative only after a chargeback of funds already spent.
    pub total: int,
    /// Funds reserved by open disputes.
    pub held: int,
    /// Set by a chargeback, and never cleared.
    pub locked: bool,
    /// The state of every transaction recorded so far.
    pub ledger: Entries,
}

impl AccountState {
    /// A new account over the given ledger entries: no funds, not locked.
    pub open spec fn fresh(ledger: Entries) -> AccountState {
        AccountState { total: 0, held: 0, locked: false, ledger }
    }

    /// The funds free for withdrawal: total less held, taken as zero where that
    /// difference cannot be represented.
    pub open spec fn available(self) -> int {
        if fits(self.total - self.held) {
            self.total - self.held
        } else {
            0
        }
    }

    /// Both balances are representable.
    pub open spec fn in_range(self) -> bool {
        fits(self.total) && fits(self.held)
    }

    /// The account with `state` recorded under `id`.
    pub open spec fn record(self, id: TransactionId, state: TransactionState) -> AccountState {
        AccountState { ledger: self.ledger.insert(id, state), ..self }
    }

    /// What a deposit or withdrawal does to the account, or why it is refused.
    pub open spec fn transact(self, data: TransactionData) -> Result<AccountState, TransactionError> {
        if self.locked {
            Err(TransactionError::AccountLocked)
        } else if self.ledger.contains_key(data.id) {
            Err(TransactionError::RepeatedTransactionId)
        } else {
            match data.transaction {
                Transaction::Deposit(amount) => {
                    if amount@ <= 0 {
                        Err(TransactionError::InvalidAmount)
                    } else if !fits(self.total + amount@) {
                        Err(TransactionError::WouldOverFlow)
                    } else {
                        Ok(
                            AccountState { total: self.total + amount@, ..self }.record(
                                data.id,
                                TransactionState::Deposit(amount),
                            ),
                        )
                    }
                },
                Transaction::Withdrawal(amount) => {
                    if amount@ <= 0 || self.available() < amount@ {
                        Err(TransactionError::InvalidAmount)
                    } else {
                        Ok(
                            AccountState { total: self.total - amount@, ..self }.record(
                                data.id,
                                TransactionState::Withdrawal(amount),
                            ),
                        )
                    }
                },
            }
        }
    }

    /// What opening a dispute does to the account, or why it is refused.
    /// A lock does not stand in the way of a dispute.
    pub open spec fn dispute(self, id: TransactionId) -> Result<AccountState, TransactionError> {
        if !self.ledger.contains_key(id) {
            Err(TransactionError::InvalidTransactionId)
        } else {
            match self.ledger[id] {
                TransactionState::ChargedBack(_) => Err(TransactionError::AlreadyChargedBack),
                TransactionState::DepositInDispute(_) => Err(TransactionError::AlreadyInDispute),
                TransactionState::Withdrawal(_) => Err(TransactionError::InvalidTransactionType),
                TransactionState::Deposit(amount) => {
                    if !fits(self.held + amount@) {
                        Err(TransactionError::WouldOverFlow)
                    } else {
                        Ok(
                            AccountState { held: self.held + amount@, ..self }.record(
                                id,
                                TransactionState::DepositInDispute(amount),
                            ),
                        )
                    }
                },
            }
        }
    }

    /// What resolving a dispute does to the account, or why it is refused.
    pub open spec fn resolve(self, id: TransactionId) -> Result<AccountState, TransactionError> {
        if !self.ledger.contains_key(id) {
            Err(TransactionError::InvalidTransactionId)
        } else {
            match self.ledger[id] {
                TransactionState::ChargedBack(_) => Err(TransactionError::AlreadyChargedBack),
                TransactionState::Withdrawal(_) => Err(TransactionError::DisputeNotOpenedYet),
                TransactionState::Deposit(_) => Err(TransactionError::DisputeNotOpenedYet),
                TransactionState::DepositInDispute(amount) => {
                    if !fits(self.held - amount@) {
                        Err(TransactionError::Unexpected)
                    } else {
                        Ok(
                            AccountState { held: self.held - amount@, ..self }.record(
                                id,
                                TransactionState::Deposit(amount),
                            ),
                        )
                    }
                },
            }
        }
    }

    /// What a chargeback does to the account, or why it is refused. The total is not
    /// kept from going below zero: funds that were spent already are then owed.
    pub open spec fn charge_back(self, id: TransactionId) -> Result<AccountState, TransactionError> {
        if !self.ledger.contains_key(id) {
            Err(TransactionError::InvalidTransactionId)
        } else {
            match self.ledger[id] {
                TransactionState::ChargedBack(_) => Err(TransactionError::AlreadyChargedBack),
                TransactionState::Withdrawal(_) => Err(TransactionError::DisputeNotOpenedYet),
                TransactionState::Deposit(_) => Err(TransactionError::DisputeNotOpenedYet),
                TransactionState::DepositInDispute(amount) => {
                    if !fits(self.held - amount@) || !fits(self.total - amount@) {
                        Err(TransactionError::Unexpected)
                    } else {
                        Ok(
                            AccountState {
                                total: self.total - amount@,
                                held: self.held - amount@,
                                locked: true,
                                ..self
                            }.record(id, TransactionState::ChargedBack(amount)),
                        )
                    }
                },
            }
        }
    }

    /// What an action does to the account when the ledger answers every call:
    /// the account after it, or the reason why it is refused.
    pub open spec fn step(self, action: Action) -> Result<AccountState, TransactionError> {
        match action {
            Action::Transact(data) => self.transact(data),
            Action::Dispute(id) => self.dispute(id),
            Action::Resolve(id) => self.resolve(id),
            Action::ChargeBack(id) => self.charge_back(id),
        }
    }

    /// The account after an action: changed as [`Self::step`] says, or, where the
    /// action is refused, as it was.
    pub open spec fn apply(self, action: Action) -> AccountState {
        match self.step(action) {
            Ok(next) => next,
            Err(_) => self,
        }
    }

    /// The account after a sequence of actions, applied in order.
    pub open spec fn run(self, actions: Seq<Action>) -> AccountState
        decreases actions.len(),
    {
        if actions.len() == 0 {
            self
        } else {
            self.run(actions.drop_last()).apply(actions.last())
        }
    }

    /// The account with its lock set or cleared.
    pub open spec fn with_lock(self, locked: bool) -> AccountState {
        AccountState { locked, ..self }
    }

    /// What the ledger knows of a transaction.
    pub open spec fn entry(self, id: TransactionId) -> Option<TransactionState> {
        if self.ledger.contains_key(id) {
            Some(self.ledger[id])
        } else {
            None
        }
    }

    /// Whether the balances are those that the ledger accounts for: every recorded
    /// amount is positive, the held funds are the deposits under dispute, and the
    /// total is the deposits that were not charged back less the withdrawals.
    pub open spec fn consistent(self) -> bool {
        &&& forall|id: TransactionId| #[trigger]
            self.ledger.contains_key(id) ==> self.ledger[id].amount()@ > 0
        &&& self.held == sum_below(self.ledger, |state: Option<TransactionState>| held_part(state), id_count())
        &&& self.total == sum_below(
            self.ledger,
            |state: Option<TransactionState>| total_part(state),
            id_count(),
        )
    }

    /// Whether an action is decided without asking the ledger.
    pub open spec fn decided_without_ledger(self, action: Action) -> bool {
        action is Transact && self.locked
    }
}

/// How an account and the answer it gave relate to the account before the action.
///
/// With `Ok`, the account changed as the rules say. With a refusal by the rules, the
/// rules give that refusal and the account is unchanged. With a ledger failure the
/// account is unchanged too; that can only come of a ledger that is not reliable,
/// and only where the action is not decided before the ledger is asked.
pub open spec fn outcome(
    before: AccountState,
    action: Action,
    after: AccountState,
    answer: Result<(), TransactionError>,
    reliable: bool,
) -> bool {
    match answer {
        Ok(()) => before.step(action) == Ok::<AccountState, TransactionError>(after),
        Err(TransactionError::DbError) => {
            &&& after == before
            &&& !reliable
            &&& !before.decided_without_ledger(action)
        },
        Err(e) => before.step(action) == Err::<AccountState, TransactionError>(e) && after == before,
    }
}

/// One client's account. It owns its ledger; nothing else reads or writes it.
pub struct Account<L> {
    total: Amount,
    held: Amount,
    locked: bool,
    ledger: L,
}

impl<L: Ledger> Account<L> {
    /// The account as a mathematical value.
    pub closed spec fn view(&self) -> AccountState {
        AccountState {
            total: self.total@,
            held: self.held@,
            locked: self.locked,
            ledger: self.ledger@,
        }
    }

    /// The balances of an account are always representable.
    pub proof fn lemma_in_range(&self)
        ensures
            self@.in_range(),
    {
    }

    /// A new account over `ledger`: no funds, not locked.
    pub fn new(ledger: L) -> (account: Self)
        ensures
            account@ == AccountState::fresh(ledger@),
    {
        Account { total: Amount::zero(), held: Amount::zero(), locked: false, ledger }
    }

    /// The funds that are free for withdrawal. Negative where a chargeback took funds
    /// that were spent already.
    pub fn available(&self) -> (r: Amount)
        ensures
            r@ == self@.available(),
    {
        match Amount::checked_sub(self.total, self.held) {
            Some(difference) => difference,
            None => Amount::zero(),
        }
    }

    /// The funds that are held back by open disputes.
    pub fn held(&self) -> (r: Amount)
        ensures
            r@ == self@.held,
    {
        self.held
    }

    /// The funds that are available or held.
    pub fn total(&self) -> (r: Amount)
        ensures
            r@ == self@.total,
    {
        self.total
    }

    /// Whether the account is locked, as it is after a chargeback.
    pub fn is_locked(&self) -> (r: bool)
        ensures
            r == self@.locked,
    {
        self.locked
    }

    /// Deposits funds to the account or withdraws funds from it.
    fn transact(&mut self, data: TransactionData) -> (r: Result<(), TransactionError>)
        ensures
            outcome(old(self)@, Action::Transact(data), final(self)@, r, L::reliable()),
    {
        if self.is_locked() {
            return Err(TransactionError::AccountLocked);
        }
        match self.ledger.contains(data.id) {
            Ok(true) => {
                return Err(TransactionError::RepeatedTransactionId);
            },
            Err(_) => {
                return Err(TransactionError::DbError);
            },
            Ok(false) => {},
        }
        match data.transaction {
            Transaction::Deposit(amount) => {
                if amount.scaled() <= 0 {
                    return Err(TransactionError::InvalidAmount);
                }
                match Amount::checked_add(self.total, amount) {
                    Some(new_total) => {
                        match self.ledger.insert(data.id, TransactionState::Deposit(amount)) {
                            Ok(()) => {
                                self.total = new_total;
                                Ok(())
                            },
                            Err(_) => Err(TransactionError::DbError),
                        }
                    },
                    None => Err(TransactionError::WouldOverFlow),
                }
            },
            Transaction::Withdrawal(amount) => {
                if amount.scaled() <= 0 || self.available().scaled() < amount.scaled() {
                    return Err(TransactionError::InvalidAmount);
                }
                match Amount::checked_sub(self.total, amount) {
                    Some(new_total) => {
                        match self.ledger.insert(data.id, TransactionState::Withdrawal(amount)) {
                            Ok(()) => {
                                self.total = new_total;
                                Ok(())
                            },
                            Err(_) => Err(TransactionError::DbError),
                        }
                    },
                    None => Err(TransactionError::Unexpected),
                }
            },
        }
    }

    /// Opens a dispute: the claim that a deposit was erroneous and should be reversed.
    /// The funds of the deposit are held back until the dispute is closed.
    fn start_dispute(&mut self, id: TransactionId) -> (r: Result<(), TransactionError>)
        ensures
            outcome(old(self)@, Action::Dispute(id), final(self)@, r, L::reliable()),
    {
        match self.ledger.get(id) {
            Err(_) => Err(TransactionError::DbError),
            Ok(None) => Err(TransactionError::InvalidTransactionId),
            Ok(Some(state)) => match state {
                TransactionState::ChargedBack(_) => Err(TransactionError::AlreadyChargedBack),
                TransactionState::DepositInDispute(_) => Err(TransactionError::AlreadyInDispute),
                TransactionState::Withdrawal(_) => Err(TransactionError::InvalidTransactionType),
                TransactionState::Deposit(amount) => {
                    match Amount::checked_add(self.held, amount) {
                        Some(new_held) => {
                            match self.ledger.insert(id, TransactionState::DepositInDispute(amount)) {
                                Ok(()) => {
                                    self.held = new_held;
                                    Ok(())
                                },
                                Err(_) => Err(TransactionError::DbError),
                            }
                        },
                        None => Err(TransactionError::WouldOverFlow),
                    }
                },
            },
        }
    }

    /// Resolves a dispute: the held funds of the deposit are released.
    fn resolve_dispute(&mut self, id: TransactionId) -> (r: Result<(), TransactionError>)
        ensures
            outcome(old(self)@, Action::Resolve(id), final(self)@, r, L::reliable()),
    {
        match self.ledger.get(id) {
            Err(_) => Err(TransactionError::DbError),
            Ok(None) => Err(TransactionError::InvalidTransactionId),
            Ok(Some(state)) => match state {
                TransactionState::ChargedBack(_) => Err(TransactionError::AlreadyChargedBack),
                TransactionState::Withdrawal(_) => Err(TransactionError::DisputeNotOpenedYet),
                TransactionState::Deposit(_) => Err(TransactionError::DisputeNotOpenedYet),
                TransactionState::DepositInDispute(amount) => {
                    match Amount::checked_sub(self.held, amount) {
                        Some(new_held) => {
                            match self.ledger.insert(id, TransactionState::Deposit(amount)) {
                                Ok(()) => {
                                    self.held = new_held;
                                    Ok(())
                                },
                                Err(_) => Err(TransactionError::DbError),
                            }
                        },
                        None => Err(TransactionError::Unexpected),
                    }
                },
            },
        }
    }

    /// Closes a dispute by reversing the deposit: its funds leave both the held funds
    /// and the total, and the account is locked from then on.
    fn resolve_dispute_with_charge_back(&mut self, id: TransactionId) -> (r: Result<
        (),
        TransactionError,
    >)
        ensures
            outcome(old(self)@, Action::ChargeBack(id), final(self)@, r, L::reliable()),
    {
        match self.ledger.get(id) {
            Err(_) => Err(TransactionError::DbError),
            Ok(None) => Err(TransactionError::InvalidTransactionId),
            Ok(Some(state)) => match state {
                TransactionState::ChargedBack(_) => Err(TransactionError::AlreadyChargedBack),
                TransactionState::Withdrawal(_) => Err(TransactionError::DisputeNotOpenedYet),
                TransactionState::Deposit(_) => Err(TransactionError::DisputeNotOpenedYet),
                TransactionState::DepositInDispute(amount) => {
                    match (
                        Amount::checked_sub(self.held, amount),
                        Amount::checked_sub(self.total, amount),
                    ) {
                        (Some(new_held), Some(new_total)) => {
                            match self.ledger.insert(id, TransactionState::ChargedBack(amount)) {
                                Ok(()) => {
                                    self.locked = true;
                                    self.total = new_total;
                                    self.held = new_held;
                                    Ok(())
                                },
                                Err(_) => Err(TransactionError::DbError),
                            }
                        },
                        _ => Err(TransactionError::Unexpected),
                    }
                },
            },
        }
    }

    /// Applies one action to the account.
    ///
    /// The actions of one account must be applied in the order in which they arrived:
    /// whether an action is legal depends on all the actions before it.
    pub fn execute(&mut self, action: Action) -> (r: Result<(), TransactionError>)
        ensures
            outcome(old(self)@, action, final(self)@, r, L::reliable()),
    {
        match action {
            Action::Transact(data) => self.transact(data),
            Action::Dispute(id) => self.start_dispute(id),
            Action::Resolve(id) => self.resolve_dispute(id),
            Action::ChargeBack(id) => self.resolve_dispute_with_charge_back(id),
        }
    }
}


/// The number of transaction identifiers there are.
pub open spec fn id_count() -> nat {
    0x1_0000_0000
}

/// What a transaction adds to the held funds.
pub open spec fn held_part(state: Option<TransactionState>) -> int {
    match state {
        Some(TransactionState::DepositInDispute(amount)) => amount@,
        _ => 0,
    }
}

/// What a transaction adds to the total.
pub open spec fn total_part(state: Option<TransactionState>) -> int {
    match state {
        Some(TransactionState::Deposit(amount)) => amount@,
        Some(TransactionState::DepositInDispute(amount)) => amount@,
        Some(TransactionState::Withdrawal(amount)) => -amount@,
        _ => 0,
    }
}

/// The sum of what the transactions below `bound` add, each by `part`.
pub open spec fn sum_below(
    ledger: Entries,
    part: spec_fn(Option<TransactionState>) -> int,
    bound: nat,
) -> int
    decreases bound,
{
    if bound == 0 {
        0
    } else {
        let id = TransactionId((bound - 1) as u32);
        sum_below(ledger, part, (bound - 1) as nat) + part(
            if ledger.contains_key(id) {
                Some(ledger[id])
            } else {
                None
            },
        )
    }
}

/// What the record of a transaction may become by one action, applied to an
/// account or refused by it.
///
/// A transaction without a record gets one only by a deposit or withdrawal under
/// its identifier. A deposit can only come under dispute; a deposit under dispute
/// can only be resolved, which makes it a deposit again, or charged back.
/// A deposit that was charged back stays that, and a withdrawal stays a withdrawal.
/// No record is ever removed, and no amount ever changes.
pub open spec fn may_become(
    before: Option<TransactionState>,
    action: Action,
    id: TransactionId,
    after: Option<TransactionState>,
) -> bool {
    match before {
        None => after is None || (action matches Action::Transact(data) && data.id == id && (
        match data.transaction {
            Transaction::Deposit(amount) => after == Some(TransactionState::Deposit(amount)),
            Transaction::Withdrawal(amount) => after == Some(TransactionState::Withdrawal(amount)),
        })),
        Some(TransactionState::Deposit(amount)) => after == before || (action == Action::Dispute(id)
            && after == Some(TransactionState::DepositInDispute(amount))),
        Some(TransactionState::DepositInDispute(amount)) => after == before || (action
            == Action::Resolve(id) && after == Some(TransactionState::Deposit(amount))) || (action
            == Action::ChargeBack(id) && after == Some(TransactionState::ChargedBack(amount))),
        Some(TransactionState::ChargedBack(_)) => after == before,
        Some(TransactionState::Withdrawal(_)) => after == before,
    }
}

/// The records of the transactions move along the dispute lifecycle only: whatever
/// the account and the action, the record of every transaction changes as
/// [`may_become`] allows.
pub proof fn lemma_dispute_lifecycle(account: AccountState, action: Action, id: TransactionId)
    ensures
        may_become(account.entry(id), action, id, account.apply(action).entry(id)),
{
}

/// Every action on a transaction whose record does not allow it is refused, and
/// with the error that belongs to the record:
/// a transaction without record cannot be disputed, resolved or charged back;
/// a deposit cannot be resolved or charged back before it is disputed, and its
/// dispute fails only where the held funds would overflow;
/// a deposit under dispute cannot be disputed again;
/// a deposit that was charged back admits nothing more;
/// a withdrawal cannot be disputed, and so neither resolved nor charged back;
/// and an identifier with a record cannot be used for another deposit or withdrawal.
pub proof fn lemma_refusals(account: AccountState, id: TransactionId)
    ensures
        match account.entry(id) {
            None => {
                &&& account.dispute(id) == Err::<AccountState, _>(
                    TransactionError::InvalidTransactionId,
                )
                &&& account.resolve(id) == Err::<AccountState, _>(
                    TransactionError::InvalidTransactionId,
                )
                &&& account.charge_back(id) == Err::<AccountState, _>(
                    TransactionError::InvalidTransactionId,
                )
            },
            Some(TransactionState::Deposit(amount)) => {
                &&& account.dispute(id) is Ok || account.dispute(id) == Err::<AccountState, _>(
                    TransactionError::WouldOverFlow,
                )
                &&& account.resolve(id) == Err::<AccountState, _>(
                    TransactionError::DisputeNotOpenedYet,
                )
                &&& account.charge_back(id) == Err::<AccountState, _>(
                    TransactionError::DisputeNotOpenedYet,
                )
            },
            Some(TransactionState::DepositInDispute(amount)) => {
                &&& account.dispute(id) == Err::<AccountState, _>(
                    TransactionError::AlreadyInDispute,
                )
                &&& account.resolve(id) is Ok || account.resolve(id) == Err::<AccountState, _>(
                    TransactionError::Unexpected,
                )
                &&& account.charge_back(id) is Ok || account.charge_back(id) == Err::<
                    AccountState,
                    _,
                >(TransactionError::Unexpected)
            },
            Some(TransactionState::ChargedBack(amount)) => {
                &&& account.dispute(id) == Err::<AccountState, _>(
                    TransactionError::AlreadyChargedBack,
                )
                &&& account.resolve(id) == Err::<AccountState, _>(
                    TransactionError::AlreadyChargedBack,
                )
                &&& account.charge_back(id) == Err::<AccountState, _>(
                    TransactionError::AlreadyChargedBack,
                )
            },
            Some(TransactionState::Withdrawal(amount)) => {
                &&& account.dispute(id) == Err::<AccountState, _>(
                    TransactionError::InvalidTransactionType,
                )
                &&& account.resolve(id) == Err::<AccountState, _>(
                    TransactionError::DisputeNotOpenedYet,
                )
                &&& account.charge_back(id) == Err::<AccountState, _>(
                    TransactionError::DisputeNotOpenedYet,
                )
            },
        },
        forall|transaction: Transaction|
            account.entry(id) is Some ==> #[trigger] account.transact(
                TransactionData { id, transaction },
            ) == Err::<AccountState, _>(
                if account.locked {
                    TransactionError::AccountLocked
                } else {
                    TransactionError::RepeatedTransactionId
                },
            ),
{
}

/// The result of an action on an account that is locked, given the result of the
/// action on the same account without the lock.
pub open spec fn locked_again(result: Result<AccountState, TransactionError>) -> Result<
    AccountState,
    TransactionError,
> {
    match result {
        Ok(next) => Ok(next.with_lock(true)),
        Err(e) => Err(e),
    }
}

/// A lock is for good: a chargeback that succeeds locks the account, no action
/// unlocks it, and a locked account refuses every deposit and withdrawal as locked.
/// Disputes, resolutions and chargebacks are still judged on their own merits.
pub proof fn lemma_lock_is_sticky(account: AccountState, action: Action)
    ensures
        action is ChargeBack && account.step(action) is Ok ==> account.apply(action).locked,
        account.locked ==> account.apply(action).locked,
        account.locked && action is Transact ==> account.step(action) == Err::<AccountState, _>(
            TransactionError::AccountLocked,
        ),
        account.locked && !(action is Transact) ==> account.step(action) == locked_again(
            account.with_lock(false).step(action),
        ),
{
}

/// Once an account is locked, it stays locked through any sequence of actions,
/// and refuses every deposit and withdrawal among them as locked.
pub proof fn lemma_locked_forever(account: AccountState, actions: Seq<Action>)
    requires
        account.locked,
    ensures
        account.run(actions).locked,
        forall|i: int|
            0 <= i < actions.len() && actions[i] is Transact ==> #[trigger] account.run(
                actions.take(i),
            ).step(actions[i]) == Err::<AccountState, _>(TransactionError::AccountLocked),
    decreases actions.len(),
{
    if actions.len() > 0 {
        let earlier = actions.drop_last();
        lemma_locked_forever(account, earlier);
        lemma_lock_is_sticky(account.run(earlier), actions.last());
        assert forall|i: int| 0 <= i < actions.len() && actions[i] is Transact implies #[trigger]
            account.run(actions.take(i)).step(actions[i]) == Err::<AccountState, _>(
            TransactionError::AccountLocked,
        ) by {
            if i < actions.len() - 1 {
                assert(actions.take(i) =~= earlier.take(i));
                assert(actions[i] == earlier[i]);
            } else {
                assert(actions.take(i) =~= earlier);
            }
        }
    }
}

/// Setting the record of one transaction changes a sum by what the new record adds
/// in place of the old one.
pub proof fn lemma_sum_after_insert(
    ledger: Entries,
    part: spec_fn(Option<TransactionState>) -> int,
    bound: nat,
    id: TransactionId,
    state: TransactionState,
)
    requires
        bound <= id_count(),
    ensures
        sum_below(ledger.insert(id, state), part, bound) == sum_below(ledger, part, bound) + (
        if id.0 < bound {
            part(Some(state)) - part(
                if ledger.contains_key(id) {
                    Some(ledger[id])
                } else {
                    None
                },
            )
        } else {
            0
        }),
    decreases bound,
{
    if bound > 0 {
        lemma_sum_after_insert(ledger, part, (bound - 1) as nat, id, state);
        let last = TransactionId((bound - 1) as u32);
        if last != id {
            assert(last.0 != id.0);
        }
    }
}

/// A sum of parts that are never negative is at least the part of each
/// transaction below the bound, and so is not negative itself.
pub proof fn lemma_sum_bounds(
    ledger: Entries,
    part: spec_fn(Option<TransactionState>) -> int,
    bound: nat,
    id: TransactionId,
)
    requires
        bound <= id_count(),
        forall|state: Option<TransactionState>|
            (state matches Some(held) ==> held.amount()@ > 0) ==> #[trigger] part(state) >= 0,
        forall|id: TransactionId| #[trigger] ledger.contains_key(id) ==> ledger[id].amount()@ > 0,
    ensures
        sum_below(ledger, part, bound) >= 0,
        id.0 < bound ==> sum_below(ledger, part, bound) >= part(
            if ledger.contains_key(id) {
                Some(ledger[id])
            } else {
                None
            },
        ),
    decreases bound,
{
    if bound > 0 {
        lemma_sum_bounds(ledger, part, (bound - 1) as nat, id);
        let last = TransactionId((bound - 1) as u32);
        let state = if ledger.contains_key(last) {
            Some(ledger[last])
        } else {
            None
        };
        assert(part(state) >= 0);
        if id.0 == bound - 1 {
            assert(last == id);
        }
    }
}

/// Nothing adds to a sum over an empty ledger.
pub proof fn lemma_sum_of_nothing(part: spec_fn(Option<TransactionState>) -> int, bound: nat)
    requires
        part(None) == 0,
    ensures
        sum_below(Entries::empty(), part, bound) == 0,
    decreases bound,
{
    if bound > 0 {
        lemma_sum_of_nothing(part, (bound - 1) as nat);
    }
}

/// A new account over an empty ledger is consistent.
pub proof fn lemma_fresh_is_consistent()
    ensures
        AccountState::fresh(Entries::empty()).consistent(),
{
    lemma_sum_of_nothing(|state: Option<TransactionState>| held_part(state), id_count());
    lemma_sum_of_nothing(|state: Option<TransactionState>| total_part(state), id_count());
}

/// Every action keeps a consistent account consistent: the total moves by the
/// amount of each deposit and withdrawal that is accepted and of each chargeback,
/// and the held funds by the amount of each dispute that is opened or closed.
pub proof fn lemma_consistency_is_kept(account: AccountState, action: Action)
    requires
        account.consistent(),
    ensures
        account.apply(action).consistent(),
{
    let held = |state: Option<TransactionState>| held_part(state);
    let total = |state: Option<TransactionState>| total_part(state);
    match account.step(action) {
        Ok(next) => {
            let id = action.id();
            assert(next.ledger.contains_key(id));
            let state = next.ledger[id];
            assert(next.ledger == account.ledger.insert(id, state));
            lemma_sum_after_insert(account.ledger, held, id_count(), id, state);
            lemma_sum_after_insert(account.ledger, total, id_count(), id, state);
            assert forall|other: TransactionId| #[trigger]
                next.ledger.contains_key(other) implies next.ledger[other].amount()@ > 0 by {
                if other != id {
                    assert(account.ledger.contains_key(other));
                } else if account.ledger.contains_key(id) {
                    assert(account.ledger[id].amount()@ > 0);
                }
            }
        },
        Err(_) => {},
    }
}

/// In a consistent account the held funds are not negative and cover every
/// deposit under dispute, so that a resolution never fails for want of held funds,
/// and a chargeback only where the total cannot go as low as it would have to.
pub proof fn lemma_consistent_disputes_close(account: AccountState, id: TransactionId)
    requires
        account.consistent(),
        account.in_range(),
    ensures
        account.held >= 0,
        account.entry(id) matches Some(TransactionState::DepositInDispute(amount)) ==> {
            &&& account.held >= amount@
            &&& account.resolve(id) is Ok
            &&& account.charge_back(id) is Ok || !fits(account.total - amount@)
        },
{
    broadcast use Amount::lemma_view_in_range;

    let held = |state: Option<TransactionState>| held_part(state);
    lemma_sum_bounds(account.ledger, held, id_count(), id);
}


/// Whatever the ledger does, an action leaves the account either as the rules say
/// or as it was; so what every action keeps, and what every refusal keeps, is kept
/// with any ledger: a lock stays, a consistent account stays consistent, and a
/// locked account answers every deposit and withdrawal with a refusal as locked.
pub proof fn lemma_outcome_keeps(
    before: AccountState,
    action: Action,
    after: AccountState,
    answer: Result<(), TransactionError>,
    reliable: bool,
)
    requires
        outcome(before, action, after, answer, reliable),
    ensures
        after == before.apply(action) || after == before,
        answer is Err ==> after == before,
        before.locked ==> after.locked,
        before.locked && action is Transact ==> answer == Err::<(), _>(
            TransactionError::AccountLocked,
        ),
        before.consistent() ==> after.consistent(),
        forall|id: TransactionId|
            may_become(before.entry(id), action, id, after.entry(id)),
{
    lemma_lock_is_sticky(before, action);
    if before.consistent() {
        lemma_consistency_is_kept(before, action);
    }
    assert forall|id: TransactionId|
        may_become(before.entry(id), action, id, after.entry(id)) by {
        lemma_dispute_lifecycle(before, action, id);
    }
}

} // verus!
