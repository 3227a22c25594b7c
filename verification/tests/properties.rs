use accounter::account_hub::ClientId;
use accounter::amount::Amount;
use accounter::parse_csv_line;
use accounter::process_line;
use accounter::summary;
use accounter::summary_line;
use accounter::Account;
use accounter::AccountHub;
use accounter::Action;
use accounter::InMemoryLedger;
use accounter::Ledger;
use accounter::LedgerError;
use accounter::ParseError;
use accounter::Transaction;
use accounter::TransactionData;
use accounter::TransactionError;
use accounter::TransactionId;
use accounter::TransactionState;

fn amount(text: &str) -> Amount {
    Amount::from_str(text).unwrap()
}

fn deposit(id: u32, text: &str) -> Action {
    Action::Transact(TransactionData {
        id: TransactionId(id),
        transaction: Transaction::Deposit(amount(text)),
    })
}

fn withdrawal(id: u32, text: &str) -> Action {
    Action::Transact(TransactionData {
        id: TransactionId(id),
        transaction: Transaction::Withdrawal(amount(text)),
    })
}

fn new_account() -> Account<InMemoryLedger> {
    Account::new(InMemoryLedger::connect().unwrap())
}

fn balances(account: &Account<InMemoryLedger>) -> (String, String, String, bool) {
    (
        account.available().to_string(),
        account.held().to_string(),
        account.total().to_string(),
        account.is_locked(),
    )
}

#[test]
fn round_trip_gives_canonical_form() {
    let cases = [
        ("0", "0"),
        ("-0", "0"),
        ("+0.0000", "0"),
        ("007", "7"),
        ("7.", "7"),
        (".5", "0.5"),
        ("-.5", "-0.5"),
        ("+12.3400", "12.34"),
        ("-12.0340", "-12.034"),
        ("100", "100"),
        ("0.0001", "0.0001"),
        ("-0.0001", "-0.0001"),
        ("1234567890.1234", "1234567890.1234"),
        ("4.000000000000000", "4"),
    ];
    for (text, canonical) in cases {
        let parsed = Amount::from_str(text).unwrap();
        assert_eq!(parsed.to_string(), canonical);
        assert_eq!(Amount::from_str(&parsed.to_string()), Ok(parsed));
    }
}

#[test]
fn texts_that_are_no_amounts() {
    for text in [
        "", "+", "-", ".", "+.", "--1", "+-1", "1+", "1.2.3", "1e3", "1.2e3", "1E3", "1_000",
        "_1", "1,5", "0x10", "１", "1 ", " 1", "1.00001", "0.00005", "922337203685477.5808",
        "-922337203685477.5809", "1000000000000000", "79228162514264337593543950336",
    ] {
        assert_eq!(Amount::from_str(text), Err(ParseError), "{:?}", text);
    }
}

#[test]
fn decimal_numbers_as_amounts() {
    assert_eq!(Amount::from_decimal(0, 0), Ok(Amount::zero()));
    assert_eq!(Amount::from_decimal(0, 4_000_000_000), Ok(Amount::zero()));
    assert_eq!(Amount::from_decimal(1, 0), Ok(Amount::one()));
    assert_eq!(Amount::from_decimal(-1, 0), Ok(Amount::minus_one()));
    assert_eq!(Amount::from_decimal(15, 1).unwrap().scaled(), 15_000);
    assert_eq!(Amount::from_decimal(-15, 3).unwrap().scaled(), -150);
    assert_eq!(Amount::from_decimal(15, 4).unwrap().scaled(), 15);
    assert_eq!(Amount::from_decimal(150, 5).unwrap().scaled(), 15);
    assert_eq!(Amount::from_decimal(15, 5), Err(ParseError));
    assert_eq!(Amount::from_decimal(-1_000_000, 10).unwrap().scaled(), -1);
    assert_eq!(Amount::from_decimal(1_000_000, 11), Err(ParseError));
    assert_eq!(
        Amount::from_decimal(9223372036854775807, 4),
        Ok(Amount::max_value())
    );
    assert_eq!(Amount::from_decimal(9223372036854775808, 4), Err(ParseError));
    assert_eq!(
        Amount::from_decimal(-9223372036854775808, 4),
        Ok(Amount::min_value())
    );
    assert_eq!(Amount::from_decimal(-9223372036854775809, 4), Err(ParseError));
    assert_eq!(
        Amount::from_decimal(-92233720368547758080, 5),
        Ok(Amount::min_value())
    );
    assert_eq!(Amount::from_decimal(922337203685478, 0), Err(ParseError));
    assert_eq!(Amount::from_decimal(i128::MAX, 0), Err(ParseError));
    assert_eq!(Amount::from_decimal(i128::MIN, 28), Err(ParseError));
    assert_eq!(Amount::from_decimal(i128::MIN, 4), Err(ParseError));
}

#[test]
fn sums_at_the_edge_of_the_range() {
    let step = amount("0.0001");
    assert_eq!(Amount::checked_add(Amount::max_value(), Amount::zero()), Some(Amount::max_value()));
    assert_eq!(Amount::checked_add(Amount::max_value(), step), None);
    assert_eq!(Amount::checked_add(Amount::min_value(), amount("-0.0001")), None);
    assert_eq!(Amount::checked_sub(Amount::min_value(), Amount::zero()), Some(Amount::min_value()));
    assert_eq!(Amount::checked_sub(Amount::min_value(), step), None);
    assert_eq!(Amount::checked_sub(Amount::zero(), Amount::min_value()), None);
    assert_eq!(
        Amount::checked_sub(Amount::minus_one(), Amount::min_value())
            .unwrap()
            .scaled(),
        9223372036854765808
    );
    assert_eq!(
        Amount::checked_add(Amount::max_value(), Amount::min_value()).unwrap().scaled(),
        -1
    );
}

#[test]
fn order_of_withdrawals_decides_which_fails() {
    let mut account = new_account();
    assert_eq!(account.execute(deposit(1, "100")), Ok(()));
    assert_eq!(account.execute(withdrawal(2, "150")), Err(TransactionError::InvalidAmount));
    assert_eq!(account.execute(withdrawal(3, "50")), Ok(()));
    assert_eq!(account.total(), amount("50"));

    let mut account = new_account();
    assert_eq!(account.execute(deposit(1, "100")), Ok(()));
    assert_eq!(account.execute(withdrawal(3, "50")), Ok(()));
    assert_eq!(account.execute(withdrawal(2, "150")), Err(TransactionError::InvalidAmount));
    assert_eq!(account.total(), amount("50"));

    let mut account = new_account();
    assert_eq!(account.execute(deposit(1, "100")), Ok(()));
    assert_eq!(account.execute(withdrawal(2, "80")), Ok(()));
    assert_eq!(account.execute(withdrawal(3, "50")), Err(TransactionError::InvalidAmount));
    assert_eq!(account.total(), amount("20"));

    let mut account = new_account();
    assert_eq!(account.execute(deposit(1, "100")), Ok(()));
    assert_eq!(account.execute(withdrawal(3, "50")), Ok(()));
    assert_eq!(account.execute(withdrawal(2, "80")), Err(TransactionError::InvalidAmount));
    assert_eq!(account.total(), amount("50"));
}

#[test]
fn chargeback_of_spent_funds() {
    let mut account = new_account();
    assert_eq!(account.execute(deposit(1, "100")), Ok(()));
    assert_eq!(account.execute(withdrawal(2, "30")), Ok(()));
    assert_eq!(account.execute(Action::Dispute(TransactionId(1))), Ok(()));
    assert_eq!(
        balances(&account),
        ("-30".to_string(), "100".to_string(), "70".to_string(), false)
    );
    assert_eq!(account.execute(Action::ChargeBack(TransactionId(1))), Ok(()));
    assert_eq!(
        balances(&account),
        ("-30".to_string(), "0".to_string(), "-30".to_string(), true)
    );
}

#[test]
fn every_state_refuses_what_it_does_not_allow() {
    let mut account = new_account();
    let id = TransactionId(1);
    let other = TransactionId(2);
    let absent = TransactionId(3);
    for action in [Action::Dispute(absent), Action::Resolve(absent), Action::ChargeBack(absent)] {
        assert_eq!(account.execute(action), Err(TransactionError::InvalidTransactionId));
    }
    assert_eq!(account.execute(deposit(1, "10")), Ok(()));
    assert_eq!(account.execute(withdrawal(2, "4")), Ok(()));
    // a deposit
    assert_eq!(account.execute(deposit(1, "10")), Err(TransactionError::RepeatedTransactionId));
    assert_eq!(account.execute(withdrawal(1, "1")), Err(TransactionError::RepeatedTransactionId));
    assert_eq!(account.execute(Action::Resolve(id)), Err(TransactionError::DisputeNotOpenedYet));
    assert_eq!(account.execute(Action::ChargeBack(id)), Err(TransactionError::DisputeNotOpenedYet));
    // a withdrawal
    assert_eq!(account.execute(Action::Dispute(other)), Err(TransactionError::InvalidTransactionType));
    assert_eq!(account.execute(Action::Resolve(other)), Err(TransactionError::DisputeNotOpenedYet));
    assert_eq!(account.execute(Action::ChargeBack(other)), Err(TransactionError::DisputeNotOpenedYet));
    assert_eq!(account.execute(deposit(2, "1")), Err(TransactionError::RepeatedTransactionId));
    // a deposit under dispute, resolved, and disputed again
    assert_eq!(account.execute(Action::Dispute(id)), Ok(()));
    assert_eq!(account.held(), amount("10"));
    assert_eq!(account.execute(Action::Dispute(id)), Err(TransactionError::AlreadyInDispute));
    assert_eq!(account.execute(deposit(1, "10")), Err(TransactionError::RepeatedTransactionId));
    assert_eq!(account.execute(Action::Resolve(id)), Ok(()));
    assert_eq!(account.held(), amount("0"));
    assert_eq!(account.total(), amount("6"));
    assert_eq!(account.execute(Action::Dispute(id)), Ok(()));
    // charged back
    assert_eq!(account.execute(Action::ChargeBack(id)), Ok(()));
    assert_eq!(account.total(), amount("-4"));
    assert_eq!(account.held(), amount("0"));
    for action in [Action::Dispute(id), Action::Resolve(id), Action::ChargeBack(id)] {
        assert_eq!(account.execute(action), Err(TransactionError::AlreadyChargedBack));
    }
    assert_eq!(account.execute(deposit(1, "10")), Err(TransactionError::AccountLocked));
}

#[test]
fn lock_stays_and_disputes_go_on() {
    let mut account = new_account();
    assert_eq!(account.execute(deposit(1, "10")), Ok(()));
    assert_eq!(account.execute(deposit(2, "20")), Ok(()));
    assert_eq!(account.execute(withdrawal(3, "5")), Ok(()));
    assert_eq!(account.execute(Action::Dispute(TransactionId(1))), Ok(()));
    assert_eq!(account.execute(Action::ChargeBack(TransactionId(1))), Ok(()));
    assert!(account.is_locked());
    for round in 0..3 {
        assert_eq!(account.execute(deposit(10 + round, "1")), Err(TransactionError::AccountLocked));
        assert_eq!(
            account.execute(withdrawal(20 + round, "1")),
            Err(TransactionError::AccountLocked)
        );
        assert_eq!(account.execute(Action::Dispute(TransactionId(2))), Ok(()));
        assert_eq!(account.held(), amount("20"));
        assert_eq!(account.execute(Action::Resolve(TransactionId(2))), Ok(()));
        assert_eq!(account.held(), amount("0"));
        assert_eq!(
            account.execute(Action::Dispute(TransactionId(3))),
            Err(TransactionError::InvalidTransactionType)
        );
        assert!(account.is_locked());
    }
    assert_eq!(account.execute(Action::Dispute(TransactionId(2))), Ok(()));
    assert_eq!(account.execute(Action::ChargeBack(TransactionId(2))), Ok(()));
    assert_eq!(
        balances(&account),
        ("-5".to_string(), "0".to_string(), "-5".to_string(), true)
    );
}

#[test]
fn balances_that_cannot_hold_more() {
    let max = "922337203685477.5807";
    let mut account = new_account();
    assert_eq!(account.execute(deposit(1, max)), Ok(()));
    assert_eq!(account.execute(deposit(2, "0.0001")), Err(TransactionError::WouldOverFlow));
    assert_eq!(account.execute(withdrawal(3, max)), Ok(()));
    assert_eq!(account.execute(deposit(4, max)), Ok(()));
    assert_eq!(account.execute(withdrawal(5, max)), Ok(()));
    assert_eq!(account.execute(deposit(6, max)), Ok(()));
    assert_eq!(account.execute(withdrawal(7, max)), Ok(()));
    assert_eq!(account.execute(Action::Dispute(TransactionId(1))), Ok(()));
    // held funds cannot hold two such deposits
    assert_eq!(
        account.execute(Action::Dispute(TransactionId(4))),
        Err(TransactionError::WouldOverFlow)
    );
    assert_eq!(account.available(), amount("-922337203685477.5807"));
    assert_eq!(account.execute(Action::ChargeBack(TransactionId(1))), Ok(()));
    assert_eq!(account.total(), amount("-922337203685477.5807"));
    assert_eq!(account.execute(Action::Dispute(TransactionId(4))), Ok(()));
    // total less held cannot be represented: nothing is available
    assert_eq!(account.available(), Amount::zero());
    // the total cannot go that low
    assert_eq!(
        account.execute(Action::ChargeBack(TransactionId(4))),
        Err(TransactionError::Unexpected)
    );
    assert_eq!(account.held(), amount(max));
    assert_eq!(account.execute(Action::Resolve(TransactionId(4))), Ok(()));
    assert_eq!(account.held(), Amount::zero());
}

struct FailingLedger {
    inner: InMemoryLedger,
    calls_left: u32,
}

impl FailingLedger {
    fn spend(&mut self) -> bool {
        if self.calls_left == 0 {
            false
        } else {
            self.calls_left -= 1;
            true
        }
    }
}

impl Ledger for FailingLedger {
    type Error = LedgerError;

    // the two items below describe a ledger to the verifier and are never run
    fn view(&self) -> accounter::ledger::Entries {
        unreachable!()
    }

    fn reliable() -> bool {
        unreachable!()
    }

    fn contains(&self, key: TransactionId) -> Result<bool, LedgerError> {
        if self.calls_left == 0 {
            Err(LedgerError)
        } else {
            self.inner.contains(key)
        }
    }

    fn get(&self, key: TransactionId) -> Result<Option<TransactionState>, LedgerError> {
        if self.calls_left == 0 {
            Err(LedgerError)
        } else {
            self.inner.get(key)
        }
    }

    fn insert(&mut self, key: TransactionId, state: TransactionState) -> Result<(), LedgerError> {
        if self.spend() {
            self.inner.insert(key, state)
        } else {
            Err(LedgerError)
        }
    }
}

#[test]
fn ledger_failure_changes_nothing() {
    let ledger = FailingLedger { inner: InMemoryLedger::connect().unwrap(), calls_left: 2 };
    let mut account = Account::new(ledger);
    assert_eq!(account.execute(deposit(1, "10")), Ok(()));
    assert_eq!(account.execute(deposit(2, "20")), Ok(()));
    assert_eq!(account.execute(deposit(3, "30")), Err(TransactionError::DbError));
    assert_eq!(account.execute(Action::Dispute(TransactionId(1))), Err(TransactionError::DbError));
    assert_eq!(account.execute(Action::Resolve(TransactionId(1))), Err(TransactionError::DbError));
    assert_eq!(account.execute(Action::ChargeBack(TransactionId(1))), Err(TransactionError::DbError));
    assert_eq!(account.total(), amount("30"));
    assert_eq!(account.held(), Amount::zero());
    assert!(!account.is_locked());
}

#[test]
fn errors_as_text() {
    assert_eq!(
        TransactionError::AccountLocked.to_string(),
        "AccountLocked (try to access locked account)"
    );
    assert_eq!(
        TransactionError::InvalidAmount.to_string(),
        "InvalidAmount (zero or negative transaction amount)"
    );
    assert_eq!(
        TransactionError::WouldOverFlow.to_string(),
        "WouldOverFlow (can not book that much amount)"
    );
    assert_eq!(
        TransactionError::DisputeNotOpenedYet.to_string(),
        "DisputeNotOpenedYet (resolve/charge back needs open dispute first)"
    );
    assert_eq!(
        TransactionError::AlreadyInDispute.to_string(),
        "AlreadyInDispute (a dispute already opened with the given transaction id)"
    );
    assert_eq!(
        TransactionError::AlreadyChargedBack.to_string(),
        "AlreadyChargedBack (already charged back)"
    );
    assert_eq!(
        TransactionError::InvalidTransactionId.to_string(),
        "InvalidTransactionId (there is no such transaction in the ledger)"
    );
    assert_eq!(
        TransactionError::InvalidTransactionType.to_string(),
        "InvalidTransactionType (based on assumption that withdrawals can not be disputed)"
    );
    assert_eq!(
        TransactionError::RepeatedTransactionId.to_string(),
        "RepeatedTransactionId (this check is theoretically not needed (unique TransactionIds guaranteed in the input))"
    );
    assert_eq!(
        TransactionError::DbError.to_string(),
        "DbError (a ledger real DB would have possible access errors)"
    );
    assert_eq!(
        TransactionError::Unexpected.to_string(),
        "Unexpected (this should have never happened)"
    );
    assert_eq!(ParseError.to_string(), "parse error");
    assert_eq!(LedgerError.to_string(), "ledger error");
}

#[test]
fn identifiers_as_text() {
    assert_eq!(ClientId::from(0).to_string(), "0");
    assert_eq!(ClientId::from(65535).to_string(), "65535");
    assert_eq!(TransactionId::from(4294967295).to_string(), "4294967295");
    assert_eq!(TransactionId::from(1030).to_string(), "1030");
    assert_eq!(ClientId::from_str("65535"), Ok(ClientId(65535)));
    assert_eq!(ClientId::from_str("+7"), Ok(ClientId(7)));
    assert_eq!(ClientId::from_str("007"), Ok(ClientId(7)));
    assert_eq!(ClientId::from_str("65536"), Err(ParseError));
    assert_eq!(ClientId::from_str("-1"), Err(ParseError));
    assert_eq!(ClientId::from_str(""), Err(ParseError));
    assert_eq!(ClientId::from_str("+"), Err(ParseError));
    assert_eq!(ClientId::from_str("1 "), Err(ParseError));
    assert_eq!(TransactionId::from_str("4294967295"), Ok(TransactionId(4294967295)));
    assert_eq!(TransactionId::from_str("4294967296"), Err(ParseError));
    assert_eq!(TransactionId::from_str("99999999999999999999999999"), Err(ParseError));
    assert_eq!(TransactionId::from_str("1.0"), Err(ParseError));
    assert_eq!(TransactionId::from_str("٣"), Err(ParseError));
}

#[test]
fn lines_that_hold_records() {
    assert_eq!(parse_csv_line("deposit, 1, 2, 3.5"), Ok((ClientId(1), deposit(2, "3.5"))));
    assert_eq!(parse_csv_line("deposit,1,2,3.5,"), Ok((ClientId(1), deposit(2, "3.5"))));
    assert_eq!(
        parse_csv_line(" \twithdrawal ,\t65535 , 4294967295,  -0.5  ,  "),
        Ok((ClientId(65535), withdrawal(4294967295, "-0.5")))
    );
    assert_eq!(parse_csv_line("dispute,1,2"), Ok((ClientId(1), Action::Dispute(TransactionId(2)))));
    assert_eq!(parse_csv_line("dispute,1,2,"), Ok((ClientId(1), Action::Dispute(TransactionId(2)))));
    assert_eq!(parse_csv_line("dispute,1,2,,"), Ok((ClientId(1), Action::Dispute(TransactionId(2)))));
    assert_eq!(
        parse_csv_line("resolve, 001, 0002, 1.00001"),
        Ok((ClientId(1), Action::Resolve(TransactionId(2))))
    );
    assert_eq!(
        parse_csv_line("chargeback, 0, 0"),
        Ok((ClientId(0), Action::ChargeBack(TransactionId(0))))
    );
}

#[test]
fn lines_that_hold_no_record() {
    for line in [
        "",
        ",",
        ",,,",
        "type, client, tx, amount",
        "deposit",
        "deposit, 1",
        "deposit, 1, 2",
        "deposit, 1, 2,",
        "deposit, 1, 2, ,",
        "deposit, 1, 2, 3, 4",
        "deposit, 1, 2, 3,,",
        "deposit, 1, 2, 3, ,",
        "Deposit, 1, 2, 3",
        "deposits, 1, 2, 3",
        "depo sit, 1, 2, 3",
        "deposit, 1, 2, 3 4",
        "deposit, +1, 2, 3",
        "deposit, 1, +2, 3",
        "deposit, 65536, 2, 3",
        "deposit, 1, 4294967296, 3",
        "deposit, 1, 2, 1.00001",
        "deposit, 1, 2, 1e2",
        "deposit, 1, 2, 1_0",
        "withdrawal, 1, 2",
        "dispute, 1, 2, x",
        "dispute, 1, 2, 1 2",
        "dispute, 1, 2, , x",
        "dispute; 1; 2",
        "dispute, 1, 2\n",
        "dispute, 1, 2\r",
        "dépôt, 1, 2, 3",
        "deposit, 1, 2, 3 €",
    ] {
        assert_eq!(parse_csv_line(line), Err(ParseError), "{:?}", line);
    }
}

fn hub() -> AccountHub<InMemoryLedger, fn(ClientId) -> Option<InMemoryLedger>> {
    AccountHub::new(|_client| InMemoryLedger::connect())
}

fn report(stream: &[(u16, Action)]) -> String {
    let mut accounts = hub();
    for (client, action) in stream {
        let _ = accounts.execute(ClientId(*client), *action);
    }
    summary(&accounts.summarize())
}

#[test]
fn clients_do_not_touch_each_other() {
    let a = [
        deposit(1, "100"),
        withdrawal(2, "150"),
        withdrawal(3, "50"),
        Action::Dispute(TransactionId(1)),
        Action::ChargeBack(TransactionId(1)),
        deposit(4, "1"),
    ];
    let b = [
        deposit(1, "7.5"),
        deposit(5, "2.5"),
        Action::Dispute(TransactionId(5)),
        withdrawal(6, "8"),
        Action::Resolve(TransactionId(5)),
        withdrawal(6, "8"),
    ];
    let expected = "client,available,held,total,locked\n\
                    3, 2, 0, 2, false\n\
                    900, -50, 0, -50, true\n";
    let one_after_the_other: Vec<(u16, Action)> = a
        .iter()
        .map(|x| (900, *x))
        .chain(b.iter().map(|x| (3, *x)))
        .collect();
    let the_other_first: Vec<(u16, Action)> = b
        .iter()
        .map(|x| (3, *x))
        .chain(a.iter().map(|x| (900, *x)))
        .collect();
    let mut in_turns = Vec::new();
    for i in 0..a.len() {
        in_turns.push((900, a[i]));
        in_turns.push((3, b[i]));
    }
    let mut in_pairs = Vec::new();
    for i in 0..a.len() / 2 {
        in_pairs.push((3, b[2 * i]));
        in_pairs.push((3, b[2 * i + 1]));
        in_pairs.push((900, a[2 * i]));
        in_pairs.push((900, a[2 * i + 1]));
    }
    assert_eq!(report(&one_after_the_other), expected);
    assert_eq!(report(&the_other_first), expected);
    assert_eq!(report(&in_turns), expected);
    assert_eq!(report(&in_pairs), expected);
}

#[test]
fn summary_goes_by_client_in_ascending_order() {
    let mut accounts = hub();
    let mut seen: Vec<u16> = Vec::new();
    for client in [500u16, 2, 65535, 0, 30, 2, 500, 1] {
        let expected = if seen.contains(&client) {
            Err(TransactionError::RepeatedTransactionId)
        } else {
            Ok(())
        };
        assert_eq!(
            accounts.execute(ClientId(client), deposit(u32::from(client), "1.5")),
            expected
        );
        seen.push(client);
    }
    let entries = accounts.summarize();
    let clients: Vec<u16> = entries.iter().map(|entry| entry.0 .0).collect();
    assert_eq!(clients, vec![0, 1, 2, 30, 500, 65535]);
    for (client, account) in &entries {
        assert_eq!(account.total(), amount("1.5"));
        assert_eq!(
            summary_line(*client, account),
            format!("{}, 1.5, 0, 1.5, false\n", client.0)
        );
    }
    assert_eq!(
        summary::<InMemoryLedger>(&Vec::new()),
        "client,available,held,total,locked\n"
    );
}

#[test]
fn first_action_opens_the_account_even_if_refused() {
    let mut accounts = hub();
    assert_eq!(
        accounts.execute(ClientId(9), Action::Dispute(TransactionId(1))),
        Err(TransactionError::InvalidTransactionId)
    );
    assert_eq!(
        summary(&accounts.summarize()),
        "client,available,held,total,locked\n9, 0, 0, 0, false\n"
    );
}

#[test]
fn no_ledger_no_account() {
    let mut accounts: AccountHub<InMemoryLedger, _> = AccountHub::new(|client: ClientId| {
        if client.0 % 2 == 0 {
            InMemoryLedger::connect()
        } else {
            None
        }
    });
    assert_eq!(accounts.execute(ClientId(1), deposit(1, "5")), Err(TransactionError::DbError));
    assert_eq!(accounts.execute(ClientId(2), deposit(2, "5")), Ok(()));
    assert_eq!(accounts.execute(ClientId(1), deposit(3, "5")), Err(TransactionError::DbError));
    assert_eq!(
        summary(&accounts.summarize()),
        "client,available,held,total,locked\n2, 5, 0, 5, false\n"
    );
}

#[test]
fn lines_one_by_one() {
    let mut accounts = hub();
    assert_eq!(process_line(&mut accounts, "type, client, tx, amount"), None);
    assert_eq!(process_line(&mut accounts, "deposit, 4, 1, 12.5"), Some(Ok(())));
    assert_eq!(
        process_line(&mut accounts, "withdrawal, 4, 2, 12.5001"),
        Some(Err(TransactionError::InvalidAmount))
    );
    assert_eq!(process_line(&mut accounts, "withdrawal, 4, 2, 12.4999"), Some(Ok(())));
    assert_eq!(process_line(&mut accounts, "withdrawal, 4, 2"), None);
    assert_eq!(
        summary(&accounts.summarize()),
        "client,available,held,total,locked\n4, 0.0001, 0, 0.0001, false\n"
    );
}

#[test]
fn zeros_that_say_nothing_are_never_in_the_way() {
    let long_one = format!("{}1", "0".repeat(256));
    assert_eq!(Amount::from_str(&long_one), Ok(Amount::one()));
    assert_eq!(Amount::from_str(&"0".repeat(257)), Ok(Amount::zero()));
    let padded = format!("-{}12.5{}", "0".repeat(100_000), "0".repeat(100_000));
    assert_eq!(Amount::from_str(&padded).unwrap().scaled(), -125_000);
    let nothing = format!("+{}.{}", "0".repeat(5_000), "0".repeat(5_000));
    assert_eq!(Amount::from_str(&nothing), Ok(Amount::zero()));
    assert_eq!(Amount::from_str("1.0000000000000000000000000000"), Ok(Amount::one()));
    assert_eq!(Amount::from_str("1.00000000000000000000000000000"), Ok(Amount::one()));
    assert_eq!(
        Amount::from_str("000000000000000000000000000000922337203685477.58070000"),
        Ok(Amount::max_value())
    );
    assert_eq!(
        Amount::from_str("-922337203685477.58080000000000000000000000000000000"),
        Ok(Amount::min_value())
    );
    assert_eq!(Amount::from_str("-0.0").unwrap().to_string(), "0");
    assert_eq!(Amount::from_str("00.5000").unwrap().to_string(), "0.5");
}

#[test]
fn digits_that_count_beyond_the_range_are_refused() {
    assert_eq!(Amount::from_str("0.0000000000000000000000000001"), Err(ParseError));
    assert_eq!(Amount::from_str("0.00000000000000000000000000001"), Err(ParseError));
    assert_eq!(Amount::from_str("1.00000000000000000000000000001"), Err(ParseError));
    assert_eq!(Amount::from_str(&format!("0.{}1", "0".repeat(1_000))), Err(ParseError));
    assert_eq!(Amount::from_str(&"9".repeat(300)), Err(ParseError));
    assert_eq!(Amount::from_str(&format!("1{}", "0".repeat(300))), Err(ParseError));
    assert_eq!(
        Amount::from_str("79228162514264337593543950336.0000"),
        Err(ParseError)
    );
}
