//! The directory of accounts: it owns every account, opens one when a client is
//! first seen, and hands each action to the account of its client.

use vstd::prelude::*;
use std::collections::BTreeMap;
use crate::ordered::keys_in_order;
use crate::account::outcome;
use crate::account::Account;
use crate::account::AccountState;
use crate::account::TransactionError;
use crate::actions::Action;
use crate::ledger::Entries;
use crate::ledger::Ledger;
use crate::amount::ParseError;
use crate::text::decimal_digits;
use crate::text::number_of_text;
use crate::text::parse_unsigned;
use crate::text::without_plus;
use crate::text::push_decimal;

verus! {

broadcast use vstd::std_specs::btree::group_btree_axioms;

/// Identifies one client, and with it one account. Kept apart from other numbers
/// by its own type.
#[derive(Debug, Clone, Copy, PartialEq, Eq, PartialOrd, Ord, Hash, Structural)]
pub struct ClientId(pub u16);

impl From<u16> for ClientId {
    fn from(v: u16) -> (id: ClientId) {
        ClientId(v)
    }
}

impl vstd::std_specs::convert::FromSpecImpl<u16> for ClientId {
    open spec fn obeys_from_spec() -> bool {
        true
    }

    open spec fn from_spec(v: u16) -> ClientId {
        ClientId(v)
    }
}

impl ClientId {
    /// The identifier written in decimal.
    pub fn to_string(&self) -> (text: String)
        ensures
            text@ == decimal_digits(self.0 as nat),
    {
        let mut out = String::new();
        push_decimal(&mut out, self.0 as u64);
        assert(Seq::<char>::empty() + decimal_digits(self.0 as nat) =~= decimal_digits(self.0 as nat));
        out
    }

    /// Reads an identifier: a number of 16 bits written in digits, with or without
    /// a plus sign before them.
    pub fn from_str(text: &str) -> (r: Result<ClientId, ParseError>)
        ensures
            r == match number_of_text(without_plus(text@), u16::MAX as nat) {
                Some(n) => Ok::<ClientId, ParseError>(ClientId(n as u16)),
                None => Err::<ClientId, ParseError>(ParseError),
            },
    {
        match parse_unsigned(text, 0xffff) {
            Some(n) => Ok(ClientId(n as u16)),
            None => Err(ParseError),
        }
    }
}

/// The accounts of a directory as a mathematical value: the account of each client
/// that was seen.
pub type Accounts = Map<ClientId, AccountState>;

/// The account that an action for `client` meets where every new account starts
/// over an empty ledger: the client's account, or a new one.
pub open spec fn account_of(accounts: Accounts, client: ClientId) -> AccountState {
    if accounts.contains_key(client) {
        accounts[client]
    } else {
        AccountState::fresh(Entries::empty())
    }
}

/// The accounts after an action for `client`, where every new account starts over
/// an empty ledger and the ledgers answer every call. The account of no other
/// client changes. A client's first action opens the account even if it is refused.
pub open spec fn dispatch(accounts: Accounts, client: ClientId, action: Action) -> Accounts {
    accounts.insert(client, account_of(accounts, client).apply(action))
}

/// The answer to an action for `client`, under the same conditions.
pub open spec fn answer_of(accounts: Accounts, client: ClientId, action: Action) -> Result<
    (),
    TransactionError,
> {
    match account_of(accounts, client).step(action) {
        Ok(_) => Ok(()),
        Err(e) => Err(e),
    }
}

/// The accounts after a stream of actions, each tagged with its client, under the
/// same conditions.
pub open spec fn run(accounts: Accounts, stream: Seq<(ClientId, Action)>) -> Accounts
    decreases stream.len(),
{
    if stream.len() == 0 {
        accounts
    } else {
        dispatch(run(accounts, stream.drop_last()), stream.last().0, stream.last().1)
    }
}

/// The actions of a stream that are for `client`, in the order of the stream.
pub open spec fn actions_for(stream: Seq<(ClientId, Action)>, client: ClientId) -> Seq<Action>
    decreases stream.len(),
{
    if stream.len() == 0 {
        Seq::empty()
    } else if stream.last().0 == client {
        actions_for(stream.drop_last(), client).push(stream.last().1)
    } else {
        actions_for(stream.drop_last(), client)
    }
}

/// The account of a client after a stream of actions depends on the client's own
/// actions alone, and on their order: it is the account that comes of applying
/// just these, in order, to the account that the client had before. A client has
/// an account after the stream where it had one before or the stream holds an
/// action for it.
pub proof fn lemma_run_by_client(
    accounts: Accounts,
    stream: Seq<(ClientId, Action)>,
    client: ClientId,
)
    ensures
        run(accounts, stream).contains_key(client) <==> accounts.contains_key(client)
            || actions_for(stream, client).len() > 0,
        account_of(run(accounts, stream), client) == account_of(accounts, client).run(
            actions_for(stream, client),
        ),
    decreases stream.len(),
{
    if stream.len() > 0 {
        lemma_run_by_client(accounts, stream.drop_last(), client);
        if stream.last().0 == client {
            let own = actions_for(stream, client);
            assert(own.drop_last() =~= actions_for(stream.drop_last(), client));
            assert(own.last() == stream.last().1);
        }
    }
}

/// Two streams that hold the same actions for every client, in the same order for
/// each, leave the same accounts, however the actions of different clients are
/// interleaved.
pub proof fn lemma_interleaving(
    accounts: Accounts,
    first: Seq<(ClientId, Action)>,
    second: Seq<(ClientId, Action)>,
)
    requires
        forall|client: ClientId| actions_for(first, client) == actions_for(second, client),
    ensures
        run(accounts, first) == run(accounts, second),
{
    let one = run(accounts, first);
    let other = run(accounts, second);
    assert forall|client: ClientId|
        (#[trigger] one.dom().contains(client)) == other.dom().contains(client) && (
        one.contains_key(client) ==> one[client] == other[client]) by {
        lemma_run_by_client(accounts, first, client);
        lemma_run_by_client(accounts, second, client);
        assert(actions_for(first, client) == actions_for(second, client));
    }
    assert(one =~= other);
}

/// The accounts of the clients below `bound`, in ascending order of the clients.
pub open spec fn listing_below(accounts: Accounts, bound: nat) -> Seq<(ClientId, AccountState)>
    decreases bound,
{
    if bound == 0 {
        Seq::empty()
    } else {
        let client = ClientId((bound - 1) as u16);
        let before = listing_below(accounts, (bound - 1) as nat);
        if accounts.contains_key(client) {
            before.push((client, accounts[client]))
        } else {
            before
        }
    }
}

/// The accounts of all clients, in ascending order of the clients.
pub open spec fn listing(accounts: Accounts) -> Seq<(ClientId, AccountState)> {
    listing_below(accounts, 0x1_0000)
}

/// Entries that list the accounts begin with the listing of the accounts below any
/// bound: with as many of it as the result says.
pub proof fn lemma_lists_below(
    entries: Seq<(ClientId, AccountState)>,
    accounts: Accounts,
    bound: nat,
) -> (count: int)
    requires
        lists(entries, accounts),
        bound <= 0x1_0000,
    ensures
        0 <= count <= entries.len(),
        forall|i: int| 0 <= i < count ==> (#[trigger] entries[i]).0.0 < bound,
        forall|i: int| count <= i < entries.len() ==> (#[trigger] entries[i]).0.0 >= bound,
        listing_below(accounts, bound) == entries.take(count),
    decreases bound,
{
    if bound == 0 {
        assert(entries.take(0) =~= Seq::<(ClientId, AccountState)>::empty());
        0
    } else {
        let before = lemma_lists_below(entries, accounts, (bound - 1) as nat);
        let client = ClientId((bound - 1) as u16);
        if accounts.contains_key(client) {
            let i = choose|i: int| 0 <= i < entries.len() && #[trigger] entries[i].0 == client;
            assert(entries[i].0.0 == bound - 1);
            assert(i == before) by {
                if i < before {
                    assert(entries[i].0.0 < bound - 1);
                } else if i > before {
                    assert(entries[before].0.0 >= bound - 1);
                    assert(entries[before].0.0 < entries[i].0.0);
                }
            }
            assert(entries.take(before + 1) =~= entries.take(before).push(entries[before]));
            assert forall|k: int| before + 1 <= k < entries.len() implies (
            #[trigger] entries[k]).0.0 >= bound by {
                assert(entries[before].0.0 < entries[k].0.0);
            }
            before + 1
        } else {
            assert forall|k: int| before <= k < entries.len() implies (#[trigger] entries[k]).0.0
                >= bound by {
                assert(entries[k].0.0 >= bound - 1);
                if entries[k].0.0 == bound - 1 {
                    assert(entries[k].0 == client);
                    assert(accounts.contains_key(entries[k].0));
                }
            }
            before
        }
    }
}

/// Entries that list the accounts are the listing of the accounts.
pub proof fn lemma_lists_is_listing(entries: Seq<(ClientId, AccountState)>, accounts: Accounts)
    requires
        lists(entries, accounts),
    ensures
        entries == listing(accounts),
{
    let count = lemma_lists_below(entries, accounts, 0x1_0000);
    if count < entries.len() {
        assert(entries[count].0.0 >= 0x1_0000);
    }
    assert(entries.take(count) =~= entries);
}

/// Whether the entries list the accounts: one entry for each client, in ascending
/// order of the clients, each with the client's account.
pub open spec fn lists(entries: Seq<(ClientId, AccountState)>, accounts: Accounts) -> bool {
    &&& forall|i: int, j: int| 0 <= i < j < entries.len() ==> entries[i].0.0 < entries[j].0.0
    &&& forall|i: int|
        0 <= i < entries.len() ==> accounts.contains_key(#[trigger] entries[i].0)
            && accounts[entries[i].0] == entries[i].1
    &&& forall|client: ClientId| #[trigger]
        accounts.contains_key(client) ==> exists|i: int|
            0 <= i < entries.len() && #[trigger] entries[i].0 == client
}

/// The clients and accounts of a sequence of directory entries.
pub open spec fn states<L: Ledger>(entries: Seq<(ClientId, Account<L>)>) -> Seq<
    (ClientId, AccountState),
> {
    Seq::new(entries.len(), |i: int| (entries[i].0, entries[i].1@))
}

/// Owner of the client accounts, and the only way to them.
///
/// `L` is the kind of ledger that the accounts keep, and `F` the function that
/// opens the ledger of a new account.
pub struct AccountHub<L, F> {
    accounts: BTreeMap<u16, Account<L>>,
    ledger_connector: F,
}

impl<L: Ledger, F: Fn(ClientId) -> Option<L>> AccountHub<L, F> {
    /// Whether the directory is in order: its connector can be asked for the ledger
    /// of any client. Every directory that [`Self::new`] made is, and stays so.
    pub closed spec fn well_formed(&self) -> bool {
        forall|client: ClientId| call_requires(self.ledger_connector, (client,))
    }

    /// The function that opens the ledger of a new account.
    pub closed spec fn connector(&self) -> F {
        self.ledger_connector
    }

    /// The accounts of the directory.
    pub closed spec fn view(&self) -> Accounts {
        Map::new(
            |client: ClientId| self.accounts@.contains_key(client.0),
            |client: ClientId| self.accounts@[client.0]@,
        )
    }

    /// Whether the connector gives every client an empty ledger, whatever it is asked.
    pub open spec fn opens_empty_ledgers(&self) -> bool {
        forall|client: ClientId, opened: Option<L>|
            call_ensures(self.connector(), (client,), opened) ==> (opened matches Some(ledger)
                && ledger@ == Entries::empty())
    }

    /// How the accounts and the answer may relate to the accounts before an action.
    ///
    /// The action goes to the account of its client and to no other. A client that
    /// is new gets an account over the ledger that the connector opens, and the
    /// action goes to that account; where the connector opens none, the action is
    /// answered with a ledger failure and no account is made.
    pub open spec fn follows(
        &self,
        before: Accounts,
        client: ClientId,
        action: Action,
        after: Accounts,
        answer: Result<(), TransactionError>,
    ) -> bool {
        if before.contains_key(client) {
            &&& after.contains_key(client)
            &&& after == before.insert(client, after[client])
            &&& outcome(before[client], action, after[client], answer, L::reliable())
        } else {
            ||| {
                &&& call_ensures(self.connector(), (client,), None::<L>)
                &&& after == before
                &&& answer == Err::<(), TransactionError>(TransactionError::DbError)
            }
            ||| {
                &&& after.contains_key(client)
                &&& after == before.insert(client, after[client])
                &&& exists|ledger: L|
                    {
                        &&& call_ensures(self.connector(), (client,), Some(ledger))
                        &&& outcome(
                            AccountState::fresh(ledger@),
                            action,
                            after[client],
                            answer,
                            L::reliable(),
                        )
                    }
            }
        }
    }

    /// Whether `after` can come of `before` by handing over a stream of actions, each
    /// tagged with its client, in order.
    pub open spec fn reaches(
        &self,
        before: Accounts,
        stream: Seq<(ClientId, Action)>,
        after: Accounts,
    ) -> bool
        decreases stream.len(),
    {
        if stream.len() == 0 {
            after == before
        } else {
            exists|middle: Accounts, answer: Result<(), TransactionError>|
                {
                    &&& self.reaches(before, stream.drop_last(), middle)
                    &&& #[trigger] self.follows(
                        middle,
                        stream.last().0,
                        stream.last().1,
                        after,
                        answer,
                    )
                }
        }
    }

    /// Whatever the ledgers and the connector do, an action touches the account of
    /// its own client alone: every other client has an account after it if and only
    /// if it had one before, and then the same; and the client of the action keeps
    /// its account if it had one.
    pub proof fn lemma_follows_touches_one(
        &self,
        before: Accounts,
        client: ClientId,
        action: Action,
        after: Accounts,
        answer: Result<(), TransactionError>,
    )
        requires
            self.follows(before, client, action, after, answer),
        ensures
            before.contains_key(client) ==> after.contains_key(client),
            forall|other: ClientId|
                other != client ==> (#[trigger] after.contains_key(other)) == before.contains_key(
                    other,
                ) && (after.contains_key(other) ==> after[other] == before[other]),
    {
    }

    /// Where the ledgers answer every call and every new account starts over an
    /// empty ledger, an action leaves the accounts and gives the answer that
    /// [`dispatch`] and [`answer_of`] say.
    pub proof fn lemma_follows_exactly(
        &self,
        before: Accounts,
        client: ClientId,
        action: Action,
        after: Accounts,
        answer: Result<(), TransactionError>,
    )
        requires
            L::reliable(),
            self.opens_empty_ledgers(),
            self.follows(before, client, action, after, answer),
        ensures
            after == dispatch(before, client, action),
            answer == answer_of(before, client, action),
    {
        if before.contains_key(client) {
            assert(after[client] == before[client].apply(action));
            match answer {
                Ok(unit) => {
                    assert(before[client].step(action) is Ok);
                    assert(answer_of(before, client, action) is Ok);
                    assert(unit == ());
                },
                Err(e) => {
                    assert(before[client].step(action) == Err::<AccountState, TransactionError>(e));
                },
            }
        } else {
            assert(!call_ensures(self.connector(), (client,), None::<L>));
            let ledger = choose|ledger: L|
                {
                    &&& call_ensures(self.connector(), (client,), Some(ledger))
                    &&& outcome(
                        AccountState::fresh(ledger@),
                        action,
                        after[client],
                        answer,
                        L::reliable(),
                    )
                };
            assert(ledger@ == Entries::empty());
            assert(after[client] == AccountState::fresh(Entries::empty()).apply(action));
        }
    }

    /// Under the same conditions, a stream of actions leaves the accounts that
    /// [`run`] says.
    pub proof fn lemma_reaches_exactly(
        &self,
        before: Accounts,
        stream: Seq<(ClientId, Action)>,
        after: Accounts,
    )
        requires
            L::reliable(),
            self.opens_empty_ledgers(),
            self.reaches(before, stream, after),
        ensures
            after == run(before, stream),
        decreases stream.len(),
    {
        if stream.len() > 0 {
            let (middle, answer) = choose|middle: Accounts, answer: Result<(), TransactionError>|
                {
                    &&& self.reaches(before, stream.drop_last(), middle)
                    &&& #[trigger] self.follows(
                        middle,
                        stream.last().0,
                        stream.last().1,
                        after,
                        answer,
                    )
                };
            self.lemma_reaches_exactly(before, stream.drop_last(), middle);
            self.lemma_follows_exactly(middle, stream.last().0, stream.last().1, after, answer);
        }
    }

    /// A directory without accounts. When a client is first seen, its account gets
    /// the ledger that `ledger_connector` opens for it.
    pub fn new(ledger_connector: F) -> (hub: Self)
        requires
            forall|client: ClientId| call_requires(ledger_connector, (client,)),
        ensures
            hub.well_formed(),
            hub@ == Accounts::empty(),
            hub.connector() == ledger_connector,
    {
        let hub = AccountHub { accounts: BTreeMap::new(), ledger_connector };
        assert(hub@ =~= Accounts::empty());
        hub
    }
}


impl<L: Ledger, F: Fn(ClientId) -> Option<L>> AccountHub<L, F> {
    /// Hands the action to the account of the client. Where the client is new, its
    /// account is opened first, over the ledger that the connector gives; where the
    /// connector gives none, the action is refused as a ledger failure.
    ///
    /// The answer is that of the account. Actions for one client take effect in the
    /// order of the calls.
    pub fn execute(&mut self, client_id: ClientId, action: Action) -> (r: Result<
        (),
        TransactionError,
    >)
        requires
            old(self).well_formed(),
        ensures
            final(self).well_formed(),
            final(self).connector() == old(self).connector(),
            old(self).follows(old(self)@, client_id, action, final(self)@, r),
            L::reliable() && old(self).opens_empty_ledgers() ==> final(self)@ == dispatch(
                old(self)@,
                client_id,
                action,
            ) && r == answer_of(old(self)@, client_id, action),
    {
        let r = self.hand_over(client_id, action);
        proof {
            if L::reliable() && old(self).opens_empty_ledgers() {
                old(self).lemma_follows_exactly(old(self)@, client_id, action, self@, r);
            }
        }
        r
    }

    /// Finds or opens the account of the client and has it take the action.
    fn hand_over(&mut self, client_id: ClientId, action: Action) -> (r: Result<
        (),
        TransactionError,
    >)
        requires
            old(self).well_formed(),
        ensures
            final(self).well_formed(),
            final(self).connector() == old(self).connector(),
            old(self).follows(old(self)@, client_id, action, final(self)@, r),
    {
        let mut account = match self.accounts.remove(&client_id.0) {
            Some(account) => account,
            None => match (self.ledger_connector)(client_id) {
                Some(ledger) => Account::new(ledger),
                None => {
                    assert(self@ =~= old(self)@);
                    return Err(TransactionError::DbError);
                },
            },
        };
        let r = account.execute(action);
        let ghost taken = account@;
        self.accounts.insert(client_id.0, account);
        assert(self@ =~= old(self)@.insert(client_id, taken));
        r
    }

    /// The accounts as they are after all the actions, one entry for each client in
    /// ascending order of the clients. The directory is used up: no action can come
    /// after the summary.
    pub fn summarize(self) -> (entries: Vec<(ClientId, Account<L>)>)
        requires
            self.well_formed(),
        ensures
            lists(states(entries@), self@),
            states(entries@) == listing(self@),
    {
        let mut accounts = self.accounts;
        let clients = keys_in_order(&accounts);
        let ghost all = accounts@;
        let mut entries: Vec<(ClientId, Account<L>)> = Vec::new();
        let mut i: usize = 0;
        while i < clients.len()
            invariant
                i <= clients.len(),
                entries.len() == i,
                forall|a: int, b: int| 0 <= a < b < clients.len() ==> clients[a] < clients[b],
                forall|a: int| 0 <= a < clients.len() ==> all.contains_key(#[trigger] clients[a]),
                forall|a: int|
                    i <= a < clients.len() ==> accounts@.contains_key(#[trigger] clients[a])
                        && accounts@[clients[a]] == all[clients[a]],
                forall|a: int|
                    0 <= a < i ==> (#[trigger] entries[a]).0.0 == clients[a] && entries[a].1
                        == all[clients[a]],
            decreases clients.len() - i,
        {
            let client = clients[i];
            match accounts.remove(&client) {
                Some(account) => {
                    entries.push((ClientId(client), account));
                },
                None => {
                    assert(false);
                },
            }
            assert forall|a: int| i + 1 <= a < clients.len() implies accounts@.contains_key(
                #[trigger] clients[a],
            ) && accounts@[clients[a]] == all[clients[a]] by {
                assert(clients[i as int] < clients[a]);
            }
            i = i + 1;
        }
        proof {
            let listed = states(entries@);
            assert forall|a: int, b: int| 0 <= a < b < listed.len() implies listed[a].0.0
                < listed[b].0.0 by {
                assert(entries[a].0.0 == clients[a] && entries[b].0.0 == clients[b]);
            }
            assert forall|a: int| 0 <= a < listed.len() implies self@.contains_key(
                #[trigger] listed[a].0,
            ) && self@[listed[a].0] == listed[a].1 by {
                assert(entries[a].0.0 == clients[a]);
                assert(listed[a].0 == ClientId(clients[a]));
            }
            assert forall|client: ClientId| #[trigger] self@.contains_key(client) implies exists|
                a: int,
            |
                0 <= a < listed.len() && #[trigger] listed[a].0 == client by {
                let a = choose|a: int| 0 <= a < clients.len() && clients[a] == client.0;
                assert(entries[a].0.0 == clients[a]);
                assert(listed[a].0 == client);
            }
            lemma_lists_is_listing(listed, self@);
        }
        entries
    }
}

} // verus!
