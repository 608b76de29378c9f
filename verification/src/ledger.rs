use vstd::prelude::*;
use crate::accounts::{
    Account, AccountState, lemma_apply_keeps_room, lemma_apply_keeps_track, lemma_apply_keeps_wf,
    lemma_lock_is_one_way, lemma_tracks_is_wf,
};
use crate::transaction::{Transaction, TransactionType};

verus! {

/// The accounts of a client map, as mathematical values.
pub open spec fn ledger(clients: Map<u16, Account>) -> Map<u16, AccountState> {
    clients.map_values(|account: Account| account@)
}

/// The ledger after `record`: only the account of the record's client changes.
pub open spec fn step(
    accounts: Map<u16, AccountState>,
    history: Seq<Transaction>,
    record: Transaction,
) -> Map<u16, AccountState> {
    if accounts.contains_key(record.client) {
        accounts.insert(record.client, accounts[record.client].apply(history, record))
    } else {
        accounts
    }
}

/// The ledger after the first `n` records of `history`, in their order.
pub open spec fn replayed(
    accounts: Map<u16, AccountState>,
    history: Seq<Transaction>,
    n: nat,
) -> Map<u16, AccountState>
    decreases n,
{
    if n == 0 {
        accounts
    } else {
        step(replayed(accounts, history, (n - 1) as nat), history, history[n - 1])
    }
}

/// One fresh account for each client that `history` names.
pub open spec fn fresh_ledger(history: Seq<Transaction>) -> Map<u16, AccountState> {
    Map::new(
        |client: u16| exists|i: int| 0 <= i < history.len() && (#[trigger] history[i]).client == client,
        |client: u16| AccountState::empty(client),
    )
}

/// The sum of the deposits of `client` among the first `n` records.
pub open spec fn deposited(history: Seq<Transaction>, n: nat, client: u16) -> int
    decreases n,
{
    if n == 0 {
        0
    } else {
        let record = history[n - 1];
        let before = deposited(history, (n - 1) as nat, client);
        if record.client == client && record.kind == TransactionType::Deposit
            && record.amount is Some {
            before + record.amount.unwrap()
        } else {
            before
        }
    }
}

/// The sum of the successful withdrawals of `client` among the first `n`
/// records: those that the deposits and withdrawals before them cover.
pub open spec fn withdrawn(history: Seq<Transaction>, n: nat, client: u16) -> int
    decreases n,
{
    if n == 0 {
        0
    } else {
        let record = history[n - 1];
        let before = withdrawn(history, (n - 1) as nat, client);
        let funds = deposited(history, (n - 1) as nat, client) - before;
        if record.client == client && record.kind == TransactionType::Withdrawal
            && record.amount is Some && funds - record.amount.unwrap() >= 0 {
            before + record.amount.unwrap()
        } else {
            before
        }
    }
}

/// Replaying records neither adds an account nor removes one.
pub proof fn lemma_replayed_keeps_clients(
    accounts: Map<u16, AccountState>,
    history: Seq<Transaction>,
    n: nat,
)
    ensures
        replayed(accounts, history, n).dom() == accounts.dom(),
    decreases n,
{
    if n > 0 {
        lemma_replayed_keeps_clients(accounts, history, (n - 1) as nat);
        let before = replayed(accounts, history, (n - 1) as nat);
        assert(step(before, history, history[n - 1]).dom() =~= before.dom());
    }
}

/// No balance leaves the range of a 128-bit integer while the first `n`
/// records are replayed.
pub open spec fn replay_fits(
    accounts: Map<u16, AccountState>,
    history: Seq<Transaction>,
    n: nat,
) -> bool {
    forall|i: nat, client: u16|
        i <= n && replayed(accounts, history, i).contains_key(client) ==> (#[trigger] replayed(
            accounts,
            history,
            i,
        )[client]).fits()
}

/// Well-formed accounts stay well formed while records are replayed.
pub proof fn lemma_replayed_keeps_wf(
    accounts: Map<u16, AccountState>,
    history: Seq<Transaction>,
    n: nat,
    client: u16,
)
    requires
        accounts.contains_key(client),
        accounts[client].wf(),
    ensures
        replayed(accounts, history, n).contains_key(client),
        replayed(accounts, history, n)[client].wf(),
    decreases n,
{
    if n > 0 {
        lemma_replayed_keeps_wf(accounts, history, (n - 1) as nat, client);
        let before = replayed(accounts, history, (n - 1) as nat);
        lemma_apply_keeps_wf(before[client], history, history[n - 1]);
    }
}

/// Accounts with room for `n` records have room for what is left of them
/// after each of the first `n` records.
pub proof fn lemma_replayed_keeps_room(
    accounts: Map<u16, AccountState>,
    history: Seq<Transaction>,
    n: nat,
    i: nat,
    client: u16,
)
    requires
        i <= n,
        accounts.contains_key(client),
        accounts[client].wf(),
        accounts[client].has_room(n),
    ensures
        replayed(accounts, history, i).contains_key(client),
        replayed(accounts, history, i)[client].has_room((n - i) as nat),
    decreases i,
{
    if i > 0 {
        lemma_replayed_keeps_room(accounts, history, n, (i - 1) as nat, client);
        lemma_replayed_keeps_wf(accounts, history, (i - 1) as nat, client);
        let before = replayed(accounts, history, (i - 1) as nat);
        lemma_apply_keeps_room(before[client], history, history[i - 1], (n - i) as nat);
    }
}

/// Where every account is well formed and has room for `n` records, the
/// first `n` records are replayed within 128-bit integers.
pub proof fn lemma_room_for_replay(
    accounts: Map<u16, AccountState>,
    history: Seq<Transaction>,
    n: nat,
)
    requires
        forall|client: u16|
            accounts.contains_key(client) ==> (#[trigger] accounts[client]).wf()
                && accounts[client].has_room(n),
    ensures
        replay_fits(accounts, history, n),
{
    assert forall|i: nat, client: u16|
        i <= n && replayed(accounts, history, i).contains_key(client) implies (#[trigger] replayed(
        accounts,
        history,
        i,
    )[client]).fits() by {
        lemma_replayed_keeps_clients(accounts, history, i);
        assert(accounts.dom().contains(client));
        lemma_replayed_keeps_room(accounts, history, n, i, client);
    }
}

/// Accounts that track a history still track it, and are well formed,
/// after any number of its records.
pub proof fn lemma_replayed_tracks(
    accounts: Map<u16, AccountState>,
    history: Seq<Transaction>,
    n: nat,
)
    requires
        forall|client: u16|
            accounts.contains_key(client) ==> (#[trigger] accounts[client]).tracks(history),
    ensures
        forall|client: u16|
            replayed(accounts, history, n).contains_key(client) ==> {
                &&& (#[trigger] replayed(accounts, history, n)[client]).tracks(history)
                &&& replayed(accounts, history, n)[client].wf()
            },
    decreases n,
{
    let now = replayed(accounts, history, n);
    if n > 0 {
        let before = replayed(accounts, history, (n - 1) as nat);
        let record = history[n - 1];
        lemma_replayed_tracks(accounts, history, (n - 1) as nat);
        if before.contains_key(record.client) {
            lemma_apply_keeps_track(before[record.client], history, record);
        }
        assert forall|client: u16| now.contains_key(client) implies (#[trigger] now[client]).tracks(
            history,
        ) by {
            if client != record.client {
                assert(now[client] == before[client]);
            }
        }
    }
    assert forall|client: u16| now.contains_key(client) implies (#[trigger] now[client]).wf() by {
        lemma_tracks_is_wf(now[client], history);
    }
}

/// An account that is locked after some records is locked after any more.
pub proof fn lemma_replayed_keeps_lock(
    accounts: Map<u16, AccountState>,
    history: Seq<Transaction>,
    n: nat,
    m: nat,
    client: u16,
)
    requires
        n <= m,
        replayed(accounts, history, n).contains_key(client),
        replayed(accounts, history, n)[client].locked,
    ensures
        replayed(accounts, history, m).contains_key(client),
        replayed(accounts, history, m)[client].locked,
    decreases m,
{
    if n < m {
        lemma_replayed_keeps_lock(accounts, history, n, (m - 1) as nat, client);
        let before = replayed(accounts, history, (m - 1) as nat);
        lemma_lock_is_one_way(before[client], history, history[m - 1]);
    }
}

/// Where the first `n` records are deposits and withdrawals only, an account
/// that started empty holds the deposits less the successful withdrawals of
/// its client, all of it available and none of it held.
pub proof fn lemma_regular_records_balance(
    accounts: Map<u16, AccountState>,
    history: Seq<Transaction>,
    n: nat,
    client: u16,
)
    requires
        n <= history.len(),
        forall|i: int| 0 <= i < n ==> (#[trigger] history[i]).is_regular(),
        accounts.contains_key(client),
        accounts[client] == AccountState::empty(client),
    ensures
        replayed(accounts, history, n).contains_key(client),
        ({
            let account = replayed(accounts, history, n)[client];
            &&& account.total == deposited(history, n, client) - withdrawn(history, n, client)
            &&& account.available == account.total
            &&& account.held == 0
            &&& !account.locked
            &&& account.disputed == Seq::<Transaction>::empty()
        }),
    decreases n,
{
    if n > 0 {
        lemma_regular_records_balance(accounts, history, (n - 1) as nat, client);
        assert(history[n - 1].is_regular());
    }
}

} // verus!
