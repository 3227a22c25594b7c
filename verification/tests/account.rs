use accounter::Account;
use accounter::Action;
use accounter::Amount;
use accounter::InMemoryLedger;
use accounter::Transaction;
use accounter::TransactionData;
use accounter::TransactionError;
use accounter::TransactionId;

fn new_account() -> Account<InMemoryLedger> {
    Account::new(InMemoryLedger::connect().unwrap())
}

fn deposit(
    account: &mut Account<InMemoryLedger>,
    id: u32,
    amount: &str,
    expected: Result<(), TransactionError>,
) {
    assert_eq!(
        account.execute(Action::Transact(TransactionData {
            id: TransactionId::from(id),
            transaction: Transaction::Deposit(Amount::from_str(amount).unwrap())
        })),
        expected
    );
}

fn withdraw(
    account: &mut Account<InMemoryLedger>,
    id: u32,
    amount: &str,
    expected: Result<(), TransactionError>,
) {
    assert_eq!(
        account.execute(Action::Transact(TransactionData {
            id: TransactionId::from(id),
            transaction: Transaction::Withdrawal(Amount::from_str(amount).unwrap())
        })),
        expected
    );
}

fn dispute(account: &mut Account<InMemoryLedger>, id: u32, expected: Result<(), TransactionError>) {
    assert_eq!(account.execute(Action::Dispute(TransactionId::from(id))), expected);
}

fn resolve(account: &mut Account<InMemoryLedger>, id: u32, expected: Result<(), TransactionError>) {
    assert_eq!(account.execute(Action::Resolve(TransactionId::from(id))), expected);
}

fn charge_back(
    account: &mut Account<InMemoryLedger>,
    id: u32,
    expected: Result<(), TransactionError>,
) {
    assert_eq!(account.execute(Action::ChargeBack(TransactionId::from(id))), expected);
}

fn expect_balance(
    account: &mut Account<InMemoryLedger>,
    available: &str,
    total: &str,
    held: &str,
    locked: bool,
) {
    assert_eq!(account.available(), Amount::from_str(available).unwrap());
    assert_eq!(account.total(), Amount::from_str(total).unwrap());
    assert_eq!(account.held(), Amount::from_str(held).unwrap());
    assert_eq!(account.is_locked(), locked);
}

#[test]
fn starting_from_zero() {
    let account = new_account();
    assert_eq!(account.available(), Amount::zero());
    assert_eq!(account.total(), Amount::zero());
    assert_eq!(account.held(), Amount::zero());
}

#[test]
fn deposit_sum_up() {
    let mut account = new_account();
    let amount1 = "1234567890.1234";
    let amount2 = "1.2";
    let amount3 = "1234567891.3234";
    deposit(&mut account, 0, amount1, Ok(()));
    deposit(&mut account, 1, "0", Err(TransactionError::InvalidAmount));
    deposit(&mut account, 2, "-1", Err(TransactionError::InvalidAmount));
    expect_balance(&mut account, amount1, amount1, "0", false);
    deposit(&mut account, 3, amount2, Ok(()));
    expect_balance(&mut account, amount3, amount3, "0", false);
    // an amount finer than a ten-thousandth is no amount at all
    assert!(Amount::from_str("0.00001").is_err());
    expect_balance(&mut account, amount3, amount3, "0", false);
    deposit(
        &mut account,
        5,
        "922337203685477.5807",
        Err(TransactionError::WouldOverFlow),
    );
    expect_balance(&mut account, amount3, amount3, "0", false);
    dispute(&mut account, 6, Err(TransactionError::InvalidTransactionId));
}

#[test]
fn withdrawals() {
    let mut account = new_account();
    deposit(&mut account, 1, "0.1", Ok(()));
    withdraw(&mut account, 2, "-0.0001", Err(TransactionError::InvalidAmount));
    withdraw(&mut account, 3, "0", Err(TransactionError::InvalidAmount));
    withdraw(&mut account, 4, "1", Err(TransactionError::InvalidAmount));
    expect_balance(&mut account, "0.1", "0.1", "0", false);
    withdraw(&mut account, 5, "0.1", Ok(()));
    expect_balance(&mut account, "0", "0", "0", false);

    withdraw(&mut account, 6, "1", Err(TransactionError::InvalidAmount));
    expect_balance(&mut account, "0", "0", "0", false);

    deposit(&mut account, 7, "100", Ok(()));
    expect_balance(&mut account, "100", "100", "0", false);

    withdraw(&mut account, 9, "5", Ok(()));
    expect_balance(&mut account, "95", "95", "0", false);
    withdraw(&mut account, 10, "99", Err(TransactionError::InvalidAmount));
    expect_balance(&mut account, "95", "95", "0", false);

    deposit(&mut account, 11, "200.124", Ok(()));
    expect_balance(&mut account, "295.124", "295.124", "0", false);
}

#[test]
fn disputes() {
    let mut account = new_account();
    withdraw(&mut account, 1, "0", Err(TransactionError::InvalidAmount));
    withdraw(&mut account, 2, "1", Err(TransactionError::InvalidAmount));

    deposit(&mut account, 3, "100", Ok(()));
    withdraw(&mut account, 4, "0", Err(TransactionError::InvalidAmount));
    withdraw(&mut account, 5, "5", Ok(()));
    withdraw(&mut account, 6, "99", Err(TransactionError::InvalidAmount));

    deposit(&mut account, 7, "200", Ok(()));
    withdraw(&mut account, 8, "290", Ok(()));

    deposit(&mut account, 9, "1", Ok(()));

    expect_balance(&mut account, "6", "6", "0", false);
    resolve(&mut account, 3, Err(TransactionError::DisputeNotOpenedYet));
    expect_balance(&mut account, "6", "6", "0", false);
    charge_back(&mut account, 3, Err(TransactionError::DisputeNotOpenedYet));
    expect_balance(&mut account, "6", "6", "0", false);
    dispute(&mut account, 9, Ok(())); //-1
    expect_balance(&mut account, "5", "6", "1", false);
    dispute(&mut account, 7, Ok(())); //-200
    expect_balance(&mut account, "-195", "6", "201", false);
    dispute(&mut account, 9, Err(TransactionError::AlreadyInDispute)); //1
    expect_balance(&mut account, "-195", "6", "201", false);
    resolve(&mut account, 7, Ok(())); //+200
    expect_balance(&mut account, "5", "6", "1", false);

    charge_back(&mut account, 7, Err(TransactionError::DisputeNotOpenedYet));
    expect_balance(&mut account, "5", "6", "1", false);
    resolve(&mut account, 7, Err(TransactionError::DisputeNotOpenedYet));
    expect_balance(&mut account, "5", "6", "1", false);
    dispute(&mut account, 7, Ok(())); //-200
    expect_balance(&mut account, "-195", "6", "201", false);
    charge_back(&mut account, 7, Ok(()));
    expect_balance(&mut account, "-195", "-194", "1", true);
    charge_back(&mut account, 7, Err(TransactionError::AlreadyChargedBack));
    expect_balance(&mut account, "-195", "-194", "1", true);
    deposit(&mut account, 11, "200", Err(TransactionError::AccountLocked));
    expect_balance(&mut account, "-195", "-194", "1", true);
    withdraw(&mut account, 12, "1", Err(TransactionError::AccountLocked));
    expect_balance(&mut account, "-195", "-194", "1", true);
    dispute(&mut account, 7, Err(TransactionError::AlreadyChargedBack)); //-200
    expect_balance(&mut account, "-195", "-194", "1", true);
}

#[test]
fn disputes2() {
    let mut account = new_account();
    deposit(&mut account, 3, "100", Ok(()));
    withdraw(&mut account, 4, "0", Err(TransactionError::InvalidAmount));
    withdraw(&mut account, 5, "5", Ok(()));
    withdraw(&mut account, 6, "99", Err(TransactionError::InvalidAmount));

    deposit(&mut account, 7, "200", Ok(()));
    withdraw(&mut account, 8, "290", Ok(()));

    deposit(&mut account, 8, "1", Err(TransactionError::RepeatedTransactionId));
    deposit(&mut account, 9, "1", Ok(()));

    expect_balance(&mut account, "6", "6", "0", false);
    dispute(&mut account, 2, Err(TransactionError::InvalidTransactionId));
    expect_balance(&mut account, "6", "6", "0", false);

    dispute(&mut account, 5, Err(TransactionError::InvalidTransactionType));
    expect_balance(&mut account, "6", "6", "0", false);
}
