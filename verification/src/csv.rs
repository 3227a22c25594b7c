//! Records of actions as lines of text, and the summary of the accounts as text.

use vstd::prelude::*;
use vstd::string::is_ascii;
use vstd::string::StrSliceExecFns;
use vstd::string::StringExecFns;
use crate::account::Account;
use crate::account::AccountState;
use crate::account::TransactionError;
use crate::account_hub::answer_of;
use crate::account_hub::dispatch;
use crate::account_hub::listing;
use crate::account_hub::run;
use crate::account_hub::states;
use crate::account_hub::AccountHub;
use crate::account_hub::Accounts;
use crate::account_hub::ClientId;
use crate::actions::Action;
use crate::actions::Transaction;
use crate::actions::TransactionData;
use crate::actions::TransactionId;
use crate::amount::amount_of_text;
use crate::amount::canonical_text;
use crate::amount::has_decimal_shape;
use crate::amount::is_decimal_text;
use crate::amount::Amount;
use crate::amount::ParseError;
use crate::ledger::Ledger;
use crate::text::ascii_bytes;
use crate::text::decimal_digits;
use crate::text::number_of_text;
use crate::text::parse_number;
use crate::text::section_is;
use crate::text::sections;
use crate::text::split;
use crate::text::split_ranges;
use crate::text::trim;
use crate::text::trim_range;

verus! {

/// The columns of a line: what stands between its commas, without the blanks
/// around it.
pub open spec fn columns(line: Seq<char>) -> Seq<Seq<char>> {
    split(line, ',').map_values(|section: Seq<char>| trim(section))
}

/// The action that a record asks for, given its type, its transaction and the text
/// of its amount column (empty where the record has no such column).
///
/// A deposit and a withdrawal need an amount. The other types need none: their
/// amount column is left out or left empty; an amount given all the same is passed
/// over, provided that it has the shape of one.
pub open spec fn action_of(kind: Seq<char>, id: TransactionId, amount: Seq<char>) -> Option<Action> {
    if kind == "deposit"@ {
        match amount_of_text(amount) {
            Some(amount) => Some(
                Action::Transact(TransactionData { id, transaction: Transaction::Deposit(amount) }),
            ),
            None => None,
        }
    } else if kind == "withdrawal"@ {
        match amount_of_text(amount) {
            Some(amount) => Some(
                Action::Transact(
                    TransactionData { id, transaction: Transaction::Withdrawal(amount) },
                ),
            ),
            None => None,
        }
    } else if amount.len() != 0 && !is_decimal_text(amount) {
        None
    } else if kind == "dispute"@ {
        Some(Action::Dispute(id))
    } else if kind == "resolve"@ {
        Some(Action::Resolve(id))
    } else if kind == "chargeback"@ {
        Some(Action::ChargeBack(id))
    } else {
        None
    }
}

/// The record that a line holds, if it holds one.
///
/// A record has the columns type, client, transaction and amount, parted by commas;
/// blanks around a column do not count. The amount column may be missing, and one
/// more comma may follow it. The client is a number of 16 bits and the transaction
/// a number of 32 bits, both written in digits alone. Every other line, the header
/// line among them, holds no record, and neither does a line with a character
/// outside ASCII.
pub open spec fn record_of(line: Seq<char>) -> Option<(ClientId, Action)> {
    let columns = columns(line);
    if !vstd::utf8::is_ascii_chars(line) {
        None
    } else if columns.len() < 3 || columns.len() > 5 {
        None
    } else if columns.len() == 5 && columns[4].len() != 0 {
        None
    } else {
        let amount = if columns.len() >= 4 {
            columns[3]
        } else {
            Seq::empty()
        };
        match (
            number_of_text(columns[1], u16::MAX as nat),
            number_of_text(columns[2], u32::MAX as nat),
        ) {
            (Some(client), Some(transaction)) => match action_of(
                columns[0],
                TransactionId(transaction as u32),
                amount,
            ) {
                Some(action) => Some((ClientId(client as u16), action)),
                None => None,
            },
            _ => None,
        }
    }
}

/// Reads the type of a record and makes the action it asks for.
fn read_action(line: &str, bytes: &[u8], kind: (usize, usize), id: TransactionId, amount: &str) -> (r:
    Option<Action>)
    requires
        is_ascii(line),
        bytes@ == crate::text::bytes_of(line@),
        kind.0 <= kind.1 <= bytes@.len(),
    ensures
        r == action_of(line@.subrange(kind.0 as int, kind.1 as int), id, amount@),
{
    proof {
        reveal_strlit("deposit");
        reveal_strlit("withdrawal");
        reveal_strlit("dispute");
        reveal_strlit("resolve");
        reveal_strlit("chargeback");
    }
    if section_is(line, bytes, kind.0, kind.1, "deposit") {
        match Amount::from_str(amount) {
            Ok(amount) => Some(
                Action::Transact(TransactionData { id, transaction: Transaction::Deposit(amount) }),
            ),
            Err(_) => None,
        }
    } else if section_is(line, bytes, kind.0, kind.1, "withdrawal") {
        match Amount::from_str(amount) {
            Ok(amount) => Some(
                Action::Transact(
                    TransactionData { id, transaction: Transaction::Withdrawal(amount) },
                ),
            ),
            Err(_) => None,
        }
    } else if !amount.is_empty() && !has_decimal_shape(amount) {
        None
    } else if section_is(line, bytes, kind.0, kind.1, "dispute") {
        Some(Action::Dispute(id))
    } else if section_is(line, bytes, kind.0, kind.1, "resolve") {
        Some(Action::Resolve(id))
    } else if section_is(line, bytes, kind.0, kind.1, "chargeback") {
        Some(Action::ChargeBack(id))
    } else {
        None
    }
}

/// Turns one line into the action it asks for and the client it is for.
pub fn parse_csv_line(line: &str) -> (r: Result<(ClientId, Action), ParseError>)
    ensures
        r == match record_of(line@) {
            Some(record) => Ok::<(ClientId, Action), ParseError>(record),
            None => Err::<(ClientId, Action), ParseError>(ParseError),
        },
{
    let bytes = match ascii_bytes(line) {
        Some(bytes) => bytes,
        None => {
            return Err(ParseError);
        },
    };
    let ranges = split_ranges(line, bytes, 0, bytes.len(), 44);
    let ghost parts = split(line@, ',');
    let ghost columns = columns(line@);
    assert(line@.subrange(0, bytes@.len() as int) =~= line@);
    assert(sections(line@, ranges@) == parts);
    let count = ranges.len();
    assert(count == columns.len());
    if count < 3 || count > 5 {
        return Err(ParseError);
    }
    assert(forall|i: int|
        0 <= i < count ==> #[trigger] columns[i] == trim(
            line@.subrange(ranges[i].0 as int, ranges[i].1 as int),
        )) by {
        assert forall|i: int| 0 <= i < count implies #[trigger] columns[i] == trim(
            line@.subrange(ranges[i].0 as int, ranges[i].1 as int),
        ) by {
            assert(parts[i] == line@.subrange(ranges[i].0 as int, ranges[i].1 as int));
        }
    }
    if count == 5 {
        let last = trim_range(line, bytes, ranges[4].0, ranges[4].1);
        if last.0 != last.1 {
            return Err(ParseError);
        }
    }
    let kind = trim_range(line, bytes, ranges[0].0, ranges[0].1);
    let client = trim_range(line, bytes, ranges[1].0, ranges[1].1);
    let transaction = trim_range(line, bytes, ranges[2].0, ranges[2].1);
    let amount = if count >= 4 {
        trim_range(line, bytes, ranges[3].0, ranges[3].1)
    } else {
        (0, 0)
    };
    let amount_text = line.substring_ascii(amount.0, amount.1);
    assert(amount_text@ == (if count >= 4 {
        columns[3]
    } else {
        Seq::<char>::empty()
    })) by {
        if count < 4 {
            assert(line@.subrange(0, 0) =~= Seq::<char>::empty());
        }
    }
    let client = match parse_number(line, bytes, client.0, client.1, 0xffff) {
        Some(client) => client,
        None => {
            return Err(ParseError);
        },
    };
    let transaction = match parse_number(line, bytes, transaction.0, transaction.1, 0xffff_ffff) {
        Some(transaction) => transaction,
        None => {
            return Err(ParseError);
        },
    };
    match read_action(line, bytes, kind, TransactionId(transaction as u32), amount_text) {
        Some(action) => Ok((ClientId(client as u16), action)),
        None => Err(ParseError),
    }
}


/// The records that a sequence of lines holds, in the order of the lines. A line
/// that holds none is passed over.
pub open spec fn records_of(lines: Seq<Seq<char>>) -> Seq<(ClientId, Action)>
    decreases lines.len(),
{
    if lines.len() == 0 {
        Seq::empty()
    } else {
        match record_of(lines.last()) {
            Some(record) => records_of(lines.drop_last()).push(record),
            None => records_of(lines.drop_last()),
        }
    }
}

/// The texts of a sequence of strings.
pub open spec fn texts(lines: Seq<String>) -> Seq<Seq<char>> {
    Seq::new(lines.len(), |i: int| lines[i]@)
}

/// The line of the summary for one client: the client, then the funds available,
/// the funds held and the total, each in canonical form, then whether the account
/// is locked.
pub open spec fn summary_line_text(client: ClientId, account: AccountState) -> Seq<char> {
    decimal_digits(client.0 as nat) + ", "@ + canonical_text(account.available()) + ", "@
        + canonical_text(account.held) + ", "@ + canonical_text(account.total) + ", "@ + (
    if account.locked {
        "true"@
    } else {
        "false"@
    }) + "\n"@
}

/// The lines of the summary for a sequence of clients with their accounts.
pub open spec fn summary_lines(entries: Seq<(ClientId, AccountState)>) -> Seq<char>
    decreases entries.len(),
{
    if entries.len() == 0 {
        Seq::empty()
    } else {
        summary_lines(entries.drop_last()) + summary_line_text(entries.last().0, entries.last().1)
    }
}

/// The summary of the accounts: a header line, then one line for each client in
/// ascending order of the clients.
pub open spec fn summary_text(accounts: Accounts) -> Seq<char> {
    "client,available,held,total,locked\n"@ + summary_lines(listing(accounts))
}

/// The header line of the summary.
pub fn summary_header() -> (line: String)
    ensures
        line@ == "client,available,held,total,locked\n"@,
{
    "client,available,held,total,locked\n".to_owned()
}

/// The line of the summary for one client.
pub fn summary_line<L: Ledger>(client: ClientId, account: &Account<L>) -> (line: String)
    ensures
        line@ == summary_line_text(client, account@),
{
    let mut line = client.to_string();
    line.append(", ");
    line.append(account.available().to_string().as_str());
    line.append(", ");
    line.append(account.held().to_string().as_str());
    line.append(", ");
    line.append(account.total().to_string().as_str());
    line.append(", ");
    if account.is_locked() {
        line.append("true");
    } else {
        line.append("false");
    }
    line.append("\n");
    line
}

/// The summary of the accounts of a directory that has taken its last action:
/// a header line, then one line for each entry.
pub fn summary<L: Ledger>(entries: &Vec<(ClientId, Account<L>)>) -> (text: String)
    ensures
        text@ == "client,available,held,total,locked\n"@ + summary_lines(states(entries@)),
{
    let mut text = summary_header();
    let ghost all = states(entries@);
    let mut i: usize = 0;
    assert(all.take(0) =~= Seq::<(ClientId, AccountState)>::empty());
    assert(text@ + Seq::<char>::empty() =~= text@);
    while i < entries.len()
        invariant
            i <= entries.len(),
            all == states(entries@),
            text@ == "client,available,held,total,locked\n"@ + summary_lines(all.take(i as int)),
        decreases entries.len() - i,
    {
        let ghost before = text@;
        let line = summary_line(entries[i].0, &entries[i].1);
        text.append(line.as_str());
        proof {
            assert(all.take(i + 1).drop_last() =~= all.take(i as int));
            assert(all.take(i + 1).last() == all[i as int]);
            assert(text@ =~= "client,available,held,total,locked\n"@ + summary_lines(
                all.take(i + 1),
            ));
        }
        i = i + 1;
    }
    assert(all.take(entries.len() as int) =~= all);
    text
}

/// Takes one line: where it holds a record, the action of the record goes to the
/// account of its client, and the answer is handed back. A line that holds no
/// record changes nothing, and `None` is handed back.
pub fn process_line<L: Ledger, F: Fn(ClientId) -> Option<L>>(
    accounts: &mut AccountHub<L, F>,
    line: &str,
) -> (r: Option<Result<(), TransactionError>>)
    requires
        old(accounts).well_formed(),
    ensures
        final(accounts).well_formed(),
        final(accounts).connector() == old(accounts).connector(),
        match record_of(line@) {
            Some((client, action)) => r matches Some(answer) && old(accounts).follows(
                old(accounts)@,
                client,
                action,
                final(accounts)@,
                answer,
            ),
            None => r is None && final(accounts)@ == old(accounts)@,
        },
        L::reliable() && old(accounts).opens_empty_ledgers() ==> match record_of(line@) {
            Some((client, action)) => r == Some(answer_of(old(accounts)@, client, action))
                && final(accounts)@ == dispatch(old(accounts)@, client, action),
            None => true,
        },
{
    match parse_csv_line(line) {
        Ok((client, action)) => Some(accounts.execute(client, action)),
        Err(_) => None,
    }
}

/// Takes the lines in order, each as [`process_line`] does, and gives the summary
/// of the accounts after the last of them.
pub fn process_csv<L: Ledger, F: Fn(ClientId) -> Option<L>>(
    accounts: AccountHub<L, F>,
    lines: &Vec<String>,
) -> (text: String)
    requires
        accounts.well_formed(),
    ensures
        exists|end: Accounts|
            accounts.reaches(accounts@, records_of(texts(lines@)), end) && text@ == summary_text(
                end,
            ),
        L::reliable() && accounts.opens_empty_ledgers() ==> text@ == summary_text(
            run(accounts@, records_of(texts(lines@))),
        ),
{
    let ghost start = accounts;
    let ghost all = texts(lines@);
    let mut accounts = accounts;
    let mut i: usize = 0;
    assert(all.take(0) =~= Seq::<Seq<char>>::empty());
    while i < lines.len()
        invariant
            i <= lines.len(),
            all == texts(lines@),
            accounts.well_formed(),
            accounts.connector() == start.connector(),
            start.reaches(start@, records_of(all.take(i as int)), accounts@),
        decreases lines.len() - i,
    {
        let ghost before = accounts@;
        let ghost done = records_of(all.take(i as int));
        let answer = process_line(&mut accounts, lines[i].as_str());
        proof {
            assert(all.take(i + 1).drop_last() =~= all.take(i as int));
            assert(all.take(i + 1).last() == lines[i as int]@);
            match record_of(lines[i as int]@) {
                Some((client, action)) => {
                    let more = done.push((client, action));
                    assert(more.drop_last() =~= done);
                    assert(more.last() == (client, action));
                    assert(start.follows(before, more.last().0, more.last().1, accounts@, answer->0));
                    assert(start.reaches(start@, more.drop_last(), before));
                    assert(start.reaches(start@, more, accounts@));
                    assert(records_of(all.take(i + 1)) == more);
                },
                None => {
                    assert(records_of(all.take(i + 1)) == done);
                },
            }
        }
        i = i + 1;
    }
    assert(all.take(lines.len() as int) =~= all);
    let ghost end = accounts@;
    let entries = accounts.summarize();
    let text = summary(&entries);
    proof {
        assert(start.reaches(start@, records_of(texts(lines@)), end) && text@ == summary_text(end));
        if L::reliable() && start.opens_empty_ledgers() {
            start.lemma_reaches_exactly(start@, records_of(all), end);
        }
    }
    text
}

} // verus!
