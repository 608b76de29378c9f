use vstd::prelude::*;
use vstd::string::StringExecFns;
use std::collections::HashMap;
use std::collections::HashSet;
use crate::decimal::{decimal, decimal_string};
use crate::accounts::{Account, AccountState, step_limit};
use crate::ledger::{fresh_ledger, ledger, lemma_room_for_replay, replay_fits, replayed, step};

verus! {

/// Possible types for a transaction.
#[derive(Debug, Clone, Copy, PartialEq, Eq, Structural)]
pub enum TransactionType {
    Deposit,
    Withdrawal,
    Dispute,
    Resolve,
    Chargeback,
}

/// Metadata of a transaction.
#[derive(Debug, Clone, Copy, PartialEq, Eq, Structural)]
pub struct Transaction {
    /// The type of the transaction.
    pub kind: TransactionType,
    /// The associated client id.
    pub client: u16,
    /// The id of the transaction.
    pub tx: u32,
    /// The amount withdrawn or deposited, in ten-thousandths of a unit.
    pub amount: Option<i64>,
}

impl Transaction {
    /// A deposit or a withdrawal: the records whose ids must be unique.
    pub open spec fn is_regular(self) -> bool {
        self.kind == TransactionType::Deposit || self.kind == TransactionType::Withdrawal
    }

    /// The records a dispute may name: withdrawals that carry an amount.
    /// Deposits are not disputable.
    pub open spec fn is_disputable(self) -> bool {
        self.kind == TransactionType::Withdrawal && self.amount is Some
    }

    /// Tells whether the record is a deposit or a withdrawal.
    pub fn regular(&self) -> (r: bool)
        ensures
            r == self.is_regular(),
    {
        match self.kind {
            TransactionType::Deposit | TransactionType::Withdrawal => true,
            _ => false,
        }
    }

    /// Tells whether a dispute may name this record.
    pub fn disputable(&self) -> (r: bool)
        ensures
            r == self.is_disputable(),
    {
        match (self.kind, self.amount) {
            (TransactionType::Withdrawal, Some(_)) => true,
            _ => false,
        }
    }
}

/// `i` is the position of the first record of `s` that satisfies `p`.
pub open spec fn is_first_where(
    s: Seq<Transaction>,
    p: spec_fn(Transaction) -> bool,
    i: int,
) -> bool {
    &&& 0 <= i < s.len()
    &&& p(s[i])
    &&& forall|j: int| 0 <= j < i ==> !p(#[trigger] s[j])
}

/// The position of the first record of `s` that satisfies `p`, if there is one.
pub open spec fn first_where(s: Seq<Transaction>, p: spec_fn(Transaction) -> bool) -> Option<int> {
    if exists|i: int| is_first_where(s, p, i) {
        Some(choose|i: int| is_first_where(s, p, i))
    } else {
        None
    }
}

/// The records that carry the id `tx`.
pub open spec fn with_id(tx: u32) -> spec_fn(Transaction) -> bool {
    |t: Transaction| t.tx == tx
}

/// The disputable records that carry the id `tx`.
pub open spec fn disputable_with_id(tx: u32) -> spec_fn(Transaction) -> bool {
    |t: Transaction| t.tx == tx && t.is_disputable()
}

/// A first position is the only first position.
pub proof fn lemma_first_where_some(s: Seq<Transaction>, p: spec_fn(Transaction) -> bool, i: int)
    requires
        is_first_where(s, p, i),
    ensures
        first_where(s, p) == Some(i),
{
    let c = choose|k: int| is_first_where(s, p, k);
    assert(c == i) by {
        if c < i {
            assert(p(s[c]));
        } else if i < c {
            assert(p(s[i]));
        }
    }
}

/// Where no record satisfies `p`, nothing is found.
pub proof fn lemma_first_where_none(s: Seq<Transaction>, p: spec_fn(Transaction) -> bool)
    requires
        forall|j: int| 0 <= j < s.len() ==> !p(#[trigger] s[j]),
    ensures
        first_where(s, p) is None,
{
}

/// Where some record satisfies `p`, a first one is found.
pub proof fn lemma_first_where_exists(s: Seq<Transaction>, p: spec_fn(Transaction) -> bool, k: int)
    requires
        0 <= k < s.len(),
        p(s[k]),
    ensures
        first_where(s, p) is Some,
        is_first_where(s, p, first_where(s, p).unwrap()),
        first_where(s, p).unwrap() <= k,
    decreases k,
{
    if exists|j: int| 0 <= j < k && p(#[trigger] s[j]) {
        let j = choose|j: int| 0 <= j < k && p(#[trigger] s[j]);
        lemma_first_where_exists(s, p, j);
    } else {
        lemma_first_where_some(s, p, k);
    }
}

/// What `first_where` finds is a first position.
pub proof fn lemma_first_where_is_first(s: Seq<Transaction>, p: spec_fn(Transaction) -> bool)
    requires
        first_where(s, p) is Some,
    ensures
        is_first_where(s, p, first_where(s, p).unwrap()),
{
}

/// Get a transaction by its id: the first one that carries it, with its position.
pub fn transaction_by_id(transactions: &[Transaction], tx: u32) -> (found: Option<
    (usize, &Transaction),
>)
    ensures
        match found {
            Some((i, t)) => {
                &&& is_first_where(transactions@, with_id(tx), i as int)
                &&& first_where(transactions@, with_id(tx)) == Some(i as int)
                &&& *t == transactions@[i as int]
            },
            None => first_where(transactions@, with_id(tx)) is None,
        },
{
    let mut i: usize = 0;
    while i < transactions.len()
        invariant
            i <= transactions@.len(),
            forall|j: int| 0 <= j < i ==> !with_id(tx)(#[trigger] transactions@[j]),
        decreases transactions@.len() - i,
    {
        if transactions[i].tx == tx {
            proof {
                lemma_first_where_some(transactions@, with_id(tx), i as int);
            }
            return Some((i, &transactions[i]));
        }
        i += 1;
    }
    proof {
        lemma_first_where_none(transactions@, with_id(tx));
    }
    None
}

/// Get the transaction that a dispute of `tx` names: the first disputable
/// one that carries the id, with its position.
pub fn disputable_by_id(transactions: &[Transaction], tx: u32) -> (found: Option<
    (usize, &Transaction),
>)
    ensures
        match found {
            Some((i, t)) => {
                &&& is_first_where(transactions@, disputable_with_id(tx), i as int)
                &&& first_where(transactions@, disputable_with_id(tx)) == Some(i as int)
                &&& *t == transactions@[i as int]
            },
            None => first_where(transactions@, disputable_with_id(tx)) is None,
        },
{
    let mut i: usize = 0;
    while i < transactions.len()
        invariant
            i <= transactions@.len(),
            forall|j: int| 0 <= j < i ==> !disputable_with_id(tx)(#[trigger] transactions@[j]),
        decreases transactions@.len() - i,
    {
        if transactions[i].tx == tx && transactions[i].disputable() {
            proof {
                lemma_first_where_some(transactions@, disputable_with_id(tx), i as int);
            }
            return Some((i, &transactions[i]));
        }
        i += 1;
    }
    proof {
        lemma_first_where_none(transactions@, disputable_with_id(tx));
    }
    None
}

/// Possible errors emitted by processing the history.
#[derive(Debug, PartialEq, Eq)]
pub enum TransactionError {
    ReadError(String),
    DeserializationError(String),
    DataFormatError(String),
}

impl TransactionError {
    /// The text that `message` writes.
    pub open spec fn message_text(self) -> Seq<char> {
        match self {
            TransactionError::ReadError(err) => "could not read transactions file: "@ + err@,
            TransactionError::DeserializationError(err) => "could not deserialize transactions: "@
                + err@,
            TransactionError::DataFormatError(err) => "could not parse transactions: "@ + err@,
        }
    }

    /// The error as a line for the user.
    pub fn message(&self) -> (text: String)
        ensures
            text@ == self.message_text(),
    {
        match self {
            TransactionError::ReadError(err) => String::from_str(
                "could not read transactions file: ",
            ).concat(err.as_str()),
            TransactionError::DeserializationError(err) => String::from_str(
                "could not deserialize transactions: ",
            ).concat(err.as_str()),
            TransactionError::DataFormatError(err) => String::from_str(
                "could not parse transactions: ",
            ).concat(err.as_str()),
        }
    }
}

/// What a format error says of a transaction id that occurs twice.
pub open spec fn duplicate_text(tx: u32) -> Seq<char> {
    "duplicate transactions found: "@ + decimal(tx as nat)
}

/// The record at `j` is regular and repeats the id of an earlier regular record.
pub open spec fn is_duplicate_at(s: Seq<Transaction>, j: int) -> bool {
    &&& 0 <= j < s.len()
    &&& s[j].is_regular()
    &&& exists|i: int| 0 <= i < j && (#[trigger] s[i]).is_regular() && s[i].tx == s[j].tx
}

/// `j` is the first position in the stream at which a regular id is repeated.
pub open spec fn is_first_duplicate(s: Seq<Transaction>, j: int) -> bool {
    &&& is_duplicate_at(s, j)
    &&& forall|k: int| 0 <= k < j ==> !is_duplicate_at(s, k)
}

/// No two regular records share an id.
pub open spec fn regular_ids_unique(s: Seq<Transaction>) -> bool {
    forall|i: int, j: int|
        0 <= i < j < s.len() && (#[trigger] s[i]).is_regular() && (#[trigger] s[j]).is_regular()
            ==> s[i].tx != s[j].tx
}

/// Two deposits with one id do not have unique ids, and the second of them
/// is where the id is first repeated.
pub proof fn lemma_same_id_deposits_refused(first: Transaction, second: Transaction)
    requires
        first.kind == TransactionType::Deposit,
        second.kind == TransactionType::Deposit,
        first.tx == second.tx,
    ensures
        !regular_ids_unique(seq![first, second]),
        is_first_duplicate(seq![first, second], 1),
{
    let both = seq![first, second];
    assert(both[0].is_regular() && both[1].is_regular() && both[0].tx == both[1].tx);
}

/// A dispute, a resolution or a chargeback does not count as a repeated
/// id, whatever id it carries and wherever it stands in the history.
pub proof fn lemma_lifecycle_record_keeps_unique(
    history: Seq<Transaction>,
    i: int,
    record: Transaction,
)
    requires
        0 <= i <= history.len(),
        !record.is_regular(),
    ensures
        regular_ids_unique(history.insert(i, record)) <==> regular_ids_unique(history),
{
    let longer = history.insert(i, record);
    if regular_ids_unique(history) {
        assert forall|a: int, b: int|
            0 <= a < b < longer.len() && (#[trigger] longer[a]).is_regular() && (
            #[trigger] longer[b]).is_regular() implies longer[a].tx != longer[b].tx by {
            let a0 = if a < i { a } else { a - 1 };
            let b0 = if b < i { b } else { b - 1 };
            assert(longer[a] == history[a0]);
            assert(longer[b] == history[b0]);
        }
    }
    if regular_ids_unique(longer) {
        assert forall|a: int, b: int|
            0 <= a < b < history.len() && (#[trigger] history[a]).is_regular() && (
            #[trigger] history[b]).is_regular() implies history[a].tx != history[b].tx by {
            let a1 = if a < i { a } else { a + 1 };
            let b1 = if b < i { b } else { b + 1 };
            assert(longer[a1] == history[a]);
            assert(longer[b1] == history[b]);
        }
    }
}

/// A list of all transactions in order.
#[derive(Debug)]
pub struct History(pub Vec<Transaction>);

impl History {
    pub fn new(transactions: Vec<Transaction>) -> (history: Self)
        ensures
            history.0@ == transactions@,
    {
        Self(transactions)
    }

    /// Checks data integrity of the transaction history: the ids of the
    /// regular records must be unique. The error names the id that is
    /// repeated first in the stream.
    pub fn check_formatting(&self) -> (checked: Result<(), TransactionError>)
        ensures
            checked is Ok <==> regular_ids_unique(self.0@),
            match checked {
                Ok(_) => true,
                Err(TransactionError::DataFormatError(text)) => exists|j: int|
                    is_first_duplicate(self.0@, j) && text@ == duplicate_text(
                        (#[trigger] self.0@[j]).tx,
                    ),
                Err(_) => false,
            },
    {
        broadcast use vstd::std_specs::hash::group_hash_axioms;

        let ghost history = self.0@;
        let n = self.0.len();
        let mut regular_transaction: HashSet<u32> = HashSet::with_capacity(n);
        let mut i: usize = 0;
        while i < n
            invariant
                i <= n,
                n == history.len(),
                history == self.0@,
                forall|tx: u32|
                    regular_transaction@.contains(tx) <==> exists|k: int|
                        0 <= k < i && (#[trigger] history[k]).is_regular() && history[k].tx == tx,
                forall|k: int| 0 <= k < i ==> !is_duplicate_at(history, k),
            decreases n - i,
        {
            let transaction = &self.0[i];
            if transaction.regular() {
                let ghost seen = regular_transaction@;
                let fresh = regular_transaction.insert(transaction.tx);
                if !fresh {
                    let mut text = String::from_str("duplicate transactions found: ");
                    let id = decimal_string(transaction.tx as u128);
                    text.append(id.as_str());
                    proof {
                        assert(is_first_duplicate(history, i as int));
                    }
                    return Err(TransactionError::DataFormatError(text));
                }
                proof {
                    assert forall|tx: u32| regular_transaction@.contains(tx) implies exists|k: int|
                        0 <= k < i + 1 && (#[trigger] history[k]).is_regular() && history[k].tx
                            == tx by {
                        if tx != transaction.tx {
                            let k = choose|k: int|
                                0 <= k < i && (#[trigger] history[k]).is_regular() && history[k].tx
                                    == tx;
                            assert(history[k].is_regular() && history[k].tx == tx);
                        }
                    }
                }
            }
            i += 1;
        }
        proof {
            assert forall|a: int, b: int|
                0 <= a < b < history.len() && (#[trigger] history[a]).is_regular() && (
                #[trigger] history[b]).is_regular() implies history[a].tx != history[b].tx by {
                if history[a].tx == history[b].tx {
                    assert(is_duplicate_at(history, b));
                }
            }
        }
        Ok(())
    }

    /// A history of `transactions`, if the ids of their regular records are
    /// unique; else the error of `check_formatting`.
    pub fn from_records(transactions: Vec<Transaction>) -> (made: Result<History, TransactionError>)
        ensures
            made is Ok <==> regular_ids_unique(transactions@),
            match made {
                Ok(history) => history.0@ == transactions@,
                Err(TransactionError::DataFormatError(text)) => exists|j: int|
                    is_first_duplicate(transactions@, j) && text@ == duplicate_text(
                        (#[trigger] transactions@[j]).tx,
                    ),
                Err(_) => false,
            },
    {
        let history = History(transactions);
        match history.check_formatting() {
            Ok(_) => Ok(history),
            Err(err) => Err(err),
        }
    }

    /// Update all given accounts following the internal history of transactions.
    ///
    /// Every record's client needs an account in `clients`, well formed, and
    /// no balance may leave the range of a 128-bit integer on the way.
    pub fn update_accounts(&self, clients: &mut HashMap<u16, Account>)
        requires
            forall|i: int|
                0 <= i < self.0@.len() ==> {
                    &&& old(clients)@.contains_key((#[trigger] self.0@[i]).client)
                    &&& old(clients)@[self.0@[i].client]@.wf()
                },
            replay_fits(ledger(old(clients)@), self.0@, self.0@.len()),
        ensures
            ledger(final(clients)@) == replayed(ledger(old(clients)@), self.0@, self.0@.len()),
            final(clients)@.dom() == old(clients)@.dom(),
            forall|i: int|
                0 <= i < self.0@.len() ==> final(clients)@[(#[trigger] self.0@[i]).client]@.wf(),
    {
        broadcast use vstd::std_specs::hash::group_hash_axioms;

        let ghost before = clients@;
        let ghost history = self.0@;
        let n = self.0.len();
        let mut i: usize = 0;
        while i < n
            invariant
                i <= n,
                n == history.len(),
                history == self.0@,
                clients@.dom() == before.dom(),
                ledger(clients@) == replayed(ledger(before), history, i as nat),
                replay_fits(ledger(before), history, n as nat),
                forall|j: int|
                    0 <= j < n ==> {
                        &&& clients@.contains_key((#[trigger] history[j]).client)
                        &&& clients@[history[j].client]@.wf()
                    },
            decreases n - i,
        {
            let record = &self.0[i];
            let ghost current = clients@;
            let found = clients.remove(&record.client);
            let mut account = found.unwrap();
            proof {
                let next = replayed(ledger(before), history, (i + 1) as nat);
                assert(next == step(ledger(current), history, *record));
                assert(next[record.client] == account@.apply(history, *record));
                assert(next[record.client].fits());
            }
            account.apply(self.0.as_slice(), record);
            clients.insert(record.client, account);
            proof {
                assert(clients@ =~= current.insert(record.client, account));
                assert(ledger(clients@) =~= step(ledger(current), history, *record));
                assert forall|j: int| 0 <= j < n implies {
                    &&& clients@.contains_key((#[trigger] history[j]).client)
                    &&& clients@[history[j].client]@.wf()
                } by {}
            }
            i += 1;
        }
    }

    /// One fresh account for each client that the history names.
    pub fn fresh_accounts(&self) -> (clients: HashMap<u16, Account>)
        ensures
            ledger(clients@) == fresh_ledger(self.0@),
    {
        broadcast use vstd::std_specs::hash::group_hash_axioms;

        let ghost history = self.0@;
        let n = self.0.len();
        let mut clients: HashMap<u16, Account> = HashMap::new();
        let mut i: usize = 0;
        while i < n
            invariant
                i <= n,
                n == history.len(),
                history == self.0@,
                forall|client: u16|
                    clients@.contains_key(client) <==> exists|j: int|
                        0 <= j < i && (#[trigger] history[j]).client == client,
                forall|client: u16|
                    clients@.contains_key(client) ==> (#[trigger] clients@[client])@
                        == AccountState::empty(client),
            decreases n - i,
        {
            let client = self.0[i].client;
            clients.insert(client, Account::new(client));
            proof {
                assert forall|c: u16| clients@.contains_key(c) implies exists|j: int|
                    0 <= j < i + 1 && (#[trigger] history[j]).client == c by {
                    if c != client {
                        let j = choose|j: int| 0 <= j < i && (#[trigger] history[j]).client == c;
                        assert(history[j].client == c);
                    }
                }
            }
            i += 1;
        }
        proof {
            assert(ledger(clients@) =~= fresh_ledger(history));
        }
        clients
    }

    /// The final accounts: a fresh account for each client that the history
    /// names, then every record applied in order.
    pub fn replay(&self) -> (clients: HashMap<u16, Account>)
        ensures
            ledger(clients@) == replayed(fresh_ledger(self.0@), self.0@, self.0@.len()),
    {
        let mut clients = self.fresh_accounts();
        let n = self.0.len();
        proof {
            let fresh = ledger(clients@);
            assert forall|client: u16| fresh.contains_key(client) implies (#[trigger] fresh[client]).wf()
                && fresh[client].has_room(n as nat) by {
                assert(fresh[client] == AccountState::empty(client));
                assert(n * step_limit() <= i128::MAX);
            }
            lemma_room_for_replay(fresh, self.0@, n as nat);
            assert forall|i: int| 0 <= i < self.0@.len() implies {
                &&& clients@.contains_key((#[trigger] self.0@[i]).client)
                &&& clients@[self.0@[i].client]@.wf()
            } by {
                let client = self.0@[i].client;
                assert(fresh_ledger(self.0@).contains_key(client));
                assert(fresh[client] == AccountState::empty(client));
                assert(clients@[client]@ == fresh[client]);
            }
        }
        self.update_accounts(&mut clients);
        clients
    }
}

} // verus!
