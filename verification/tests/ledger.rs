use off_chain_mutator::accounts::Account;
use off_chain_mutator::transaction::{
    disputable_by_id, transaction_by_id, History, Transaction, TransactionType,
};

fn entry(kind: TransactionType, client: u16, tx: u32, amount: Option<i64>) -> Transaction {
    Transaction { kind, client, tx, amount }
}

fn put(client: u16, tx: u32, amount: i64) -> Transaction {
    entry(TransactionType::Deposit, client, tx, Some(amount))
}

fn take(client: u16, tx: u32, amount: i64) -> Transaction {
    entry(TransactionType::Withdrawal, client, tx, Some(amount))
}

fn contest(client: u16, tx: u32) -> Transaction {
    entry(TransactionType::Dispute, client, tx, None)
}

fn settle(client: u16, tx: u32) -> Transaction {
    entry(TransactionType::Resolve, client, tx, None)
}

fn reverse(client: u16, tx: u32) -> Transaction {
    entry(TransactionType::Chargeback, client, tx, None)
}

fn account(
    client_id: u16,
    available: i128,
    held: i128,
    total: i128,
    locked: bool,
    disputed: Vec<Transaction>,
) -> Account {
    Account { client_id, available, held, total, locked, disputed }
}

/// The account of `client` after the first `count` records of `records`.
fn after(records: &[Transaction], count: usize, client: u16) -> Account {
    let mut state = Account::new(client);
    for record in &records[..count] {
        if record.client == client {
            state.apply(records, record);
        }
    }
    state
}

#[test]
fn new_account_is_empty() {
    assert_eq!(Account::new(9), account(9, 0, 0, 0, false, vec![]));
}

#[test]
fn deposit_raises_available_and_total() {
    let log = vec![put(1, 1, 2_5000)];
    let mut state = account(1, 1_0000, 3_0000, 4_0000, false, vec![]);
    state.apply(&log, &log[0]);
    assert_eq!(state, account(1, 3_5000, 3_0000, 6_5000, false, vec![]));
}

#[test]
fn deposit_without_amount_changes_nothing() {
    let log = vec![entry(TransactionType::Deposit, 1, 1, None)];
    let mut state = account(1, 1_0000, 0, 1_0000, false, vec![]);
    state.apply(&log, &log[0]);
    assert_eq!(state, account(1, 1_0000, 0, 1_0000, false, vec![]));
}

#[test]
fn withdrawal_lowers_available_and_total() {
    let log = vec![take(1, 1, 4_0000)];
    let mut state = account(1, 10_0000, 1_0000, 11_0000, false, vec![]);
    state.apply(&log, &log[0]);
    assert_eq!(state, account(1, 6_0000, 1_0000, 7_0000, false, vec![]));
}

#[test]
fn withdrawal_of_all_available_succeeds() {
    let log = vec![take(1, 1, 10_0000)];
    let mut state = account(1, 10_0000, 0, 10_0000, false, vec![]);
    state.apply(&log, &log[0]);
    assert_eq!(state, account(1, 0, 0, 0, false, vec![]));
}

#[test]
fn withdrawal_beyond_available_changes_nothing() {
    let log = vec![take(1, 1, 10_0001)];
    let mut state = account(1, 10_0000, 5_0000, 15_0000, false, vec![]);
    state.apply(&log, &log[0]);
    assert_eq!(state, account(1, 10_0000, 5_0000, 15_0000, false, vec![]));
    state.apply(&log, &log[0]);
    assert_eq!(state, account(1, 10_0000, 5_0000, 15_0000, false, vec![]));
}

#[test]
fn withdrawal_without_amount_changes_nothing() {
    let log = vec![entry(TransactionType::Withdrawal, 1, 1, None)];
    let mut state = account(1, 10_0000, 0, 10_0000, false, vec![]);
    state.apply(&log, &log[0]);
    assert_eq!(state, account(1, 10_0000, 0, 10_0000, false, vec![]));
}

#[test]
fn regular_records_sum_up() {
    let log = vec![
        put(1, 1, 10_0000),
        take(1, 2, 3_0000),
        put(2, 3, 1_0000),
        take(1, 4, 8_0000),
        put(1, 5, 2_5000),
        take(1, 6, 9_5000),
        take(2, 7, 2_0000),
    ];
    let clients = History::new(log).replay();
    // 10 - 3 (8 is refused) + 2.5 - 9.5
    assert_eq!(clients[&1], account(1, 0, 0, 0, false, vec![]));
    assert_eq!(clients[&2], account(2, 1_0000, 0, 1_0000, false, vec![]));
    assert_eq!(clients.len(), 2);
}

#[test]
fn dispute_holds_the_withdrawn_amount() {
    let log = vec![put(1, 1, 10_0000), take(1, 2, 5_0000), contest(1, 2)];
    assert_eq!(after(&log, 2, 1), account(1, 5_0000, 0, 5_0000, false, vec![]));
    assert_eq!(after(&log, 3, 1), account(1, 5_0000, 5_0000, 10_0000, false, vec![log[1]]));
}

#[test]
fn dispute_of_a_deposit_changes_nothing() {
    let log = vec![put(1, 1, 10_0000), contest(1, 1)];
    assert_eq!(after(&log, 2, 1), account(1, 10_0000, 0, 10_0000, false, vec![]));
}

#[test]
fn dispute_of_an_unknown_id_changes_nothing() {
    let log = vec![put(1, 1, 10_0000), take(1, 2, 1_0000), contest(1, 3)];
    assert_eq!(after(&log, 3, 1), account(1, 9_0000, 0, 9_0000, false, vec![]));
}

#[test]
fn dispute_of_a_withdrawal_without_amount_changes_nothing() {
    let log = vec![put(1, 1, 10_0000), entry(TransactionType::Withdrawal, 1, 2, None), contest(1, 2)];
    assert_eq!(after(&log, 3, 1), account(1, 10_0000, 0, 10_0000, false, vec![]));
}

#[test]
fn dispute_that_carries_an_amount_changes_nothing() {
    let log = vec![
        put(1, 1, 10_0000),
        take(1, 2, 1_0000),
        entry(TransactionType::Dispute, 1, 2, Some(1_0000)),
    ];
    assert_eq!(after(&log, 3, 1), account(1, 9_0000, 0, 9_0000, false, vec![]));
}

#[test]
fn dispute_finds_the_withdrawal_behind_records_that_share_its_id() {
    let log = vec![put(1, 1, 10_0000), settle(1, 2), take(1, 2, 4_0000), contest(1, 2)];
    assert_eq!(after(&log, 4, 1), account(1, 6_0000, 4_0000, 10_0000, false, vec![log[2]]));
}

#[test]
fn resolve_releases_the_held_amount() {
    let log = vec![put(1, 1, 10_0000), take(1, 2, 5_0000), contest(1, 2), settle(1, 2)];
    assert_eq!(after(&log, 4, 1), account(1, 10_0000, 0, 10_0000, false, vec![]));
}

#[test]
fn resolve_without_dispute_changes_nothing() {
    let log = vec![put(1, 1, 10_0000), take(1, 2, 5_0000), settle(1, 2)];
    assert_eq!(after(&log, 3, 1), account(1, 5_0000, 0, 5_0000, false, vec![]));
}

#[test]
fn resolve_that_carries_an_amount_changes_nothing() {
    let log = vec![
        put(1, 1, 10_0000),
        take(1, 2, 5_0000),
        contest(1, 2),
        entry(TransactionType::Resolve, 1, 2, Some(5_0000)),
    ];
    assert_eq!(after(&log, 4, 1), account(1, 5_0000, 5_0000, 10_0000, false, vec![log[1]]));
}

#[test]
fn dispute_then_resolve_restores_held_and_open_disputes() {
    let log = vec![put(1, 1, 10_0000), take(1, 2, 3_0000), contest(1, 2), settle(1, 2)];
    let before = after(&log, 2, 1);
    let opened = after(&log, 3, 1);
    let closed = after(&log, 4, 1);
    assert_eq!(before, account(1, 7_0000, 0, 7_0000, false, vec![]));
    assert_eq!(opened.held, before.held + 3_0000);
    assert_eq!(closed.held, before.held);
    assert_eq!(closed.disputed, before.disputed);
    assert_eq!(closed.locked, before.locked);
    assert_eq!(closed.available, before.available + 3_0000);
    assert_eq!(closed.total, before.total + 3_0000);
}

#[test]
fn dispute_then_resolve_of_nothing_restores_the_account() {
    let log = vec![put(1, 1, 10_0000), take(1, 2, 0), contest(1, 2), settle(1, 2)];
    assert_eq!(after(&log, 4, 1), after(&log, 2, 1));
}

#[test]
fn chargeback_takes_the_amount_and_locks() {
    let log = vec![put(1, 1, 10_0000), take(1, 2, 5_0000), contest(1, 2), reverse(1, 2)];
    assert_eq!(after(&log, 4, 1), account(1, 5_0000, 0, 5_0000, true, vec![]));
}

#[test]
fn chargeback_without_dispute_changes_nothing() {
    let log = vec![put(1, 1, 10_0000), take(1, 2, 5_0000), reverse(1, 2)];
    assert_eq!(after(&log, 3, 1), account(1, 5_0000, 0, 5_0000, false, vec![]));
}

#[test]
fn nothing_reopens_a_charged_back_dispute() {
    let log = vec![
        put(1, 1, 10_0000),
        take(1, 2, 5_0000),
        contest(1, 2),
        reverse(1, 2),
        settle(1, 2),
        reverse(1, 2),
    ];
    let charged = after(&log, 4, 1);
    assert_eq!(charged, account(1, 5_0000, 0, 5_0000, true, vec![]));
    assert_eq!(after(&log, 5, 1), charged);
    assert_eq!(after(&log, 6, 1), charged);
}

#[test]
fn locked_account_still_takes_records_and_stays_locked() {
    let log = vec![
        put(1, 1, 10_0000),
        take(1, 2, 5_0000),
        contest(1, 2),
        reverse(1, 2),
        put(1, 3, 1_0000),
        take(1, 4, 2_0000),
        contest(1, 4),
        settle(1, 4),
    ];
    assert_eq!(after(&log, 6, 1), account(1, 4_0000, 0, 4_0000, true, vec![]));
    assert_eq!(after(&log, 8, 1), account(1, 6_0000, 0, 6_0000, true, vec![]));
}

#[test]
fn several_disputes_close_independently() {
    let log = vec![
        put(1, 1, 100_0000),
        take(1, 2, 1_0000),
        take(1, 3, 2_0000),
        take(1, 4, 4_0000),
        contest(1, 2),
        contest(1, 3),
        contest(1, 4),
        settle(1, 2),
        reverse(1, 3),
    ];
    assert_eq!(
        after(&log, 7, 1),
        account(1, 93_0000, 7_0000, 100_0000, false, vec![log[1], log[2], log[3]])
    );
    // the last open dispute takes the place of the one that closes
    assert_eq!(
        after(&log, 8, 1),
        account(1, 94_0000, 6_0000, 100_0000, false, vec![log[3], log[2]])
    );
    assert_eq!(after(&log, 9, 1), account(1, 94_0000, 4_0000, 98_0000, true, vec![log[3]]));
}

#[test]
fn a_chargeback_may_leave_negative_balances() {
    let log = vec![take(1, 2, 5_0000), reverse(1, 2)];
    let mut state = account(1, 0, 0, 0, false, vec![log[0]]);
    state.apply(&log, &log[1]);
    assert_eq!(state, account(1, 0, -5_0000, -5_0000, true, vec![]));
}

#[test]
fn two_clients_with_one_refused_withdrawal() {
    let log = vec![put(1, 1, 1_0000), put(2, 2, 2_0000), take(1, 3, 1_5000)];
    let clients = History::new(log).replay();
    assert_eq!(clients[&1], account(1, 1_0000, 0, 1_0000, false, vec![]));
    assert_eq!(clients[&2], account(2, 2_0000, 0, 2_0000, false, vec![]));
}

#[test]
fn dispute_resolve_dispute_chargeback() {
    let log = vec![
        put(1, 1, 10_0000),
        take(1, 2, 5_0000),
        contest(1, 2),
        settle(1, 2),
        contest(1, 2),
        reverse(1, 2),
    ];
    assert_eq!(after(&log, 2, 1), account(1, 5_0000, 0, 5_0000, false, vec![]));
    assert_eq!(after(&log, 3, 1), account(1, 5_0000, 5_0000, 10_0000, false, vec![log[1]]));
    assert_eq!(after(&log, 4, 1), account(1, 10_0000, 0, 10_0000, false, vec![]));
    assert_eq!(after(&log, 5, 1), account(1, 10_0000, 5_0000, 15_0000, false, vec![log[1]]));
    assert_eq!(after(&log, 6, 1), account(1, 10_0000, 0, 10_0000, true, vec![]));
    let clients = History::new(log).replay();
    assert_eq!(clients[&1], account(1, 10_0000, 0, 10_0000, true, vec![]));
}

#[test]
fn fresh_accounts_has_one_empty_account_per_client() {
    let log = vec![put(4, 1, 1), take(2, 2, 1), contest(4, 1), reverse(9, 7)];
    let clients = History::new(log).fresh_accounts();
    assert_eq!(clients.len(), 3);
    assert_eq!(clients[&4], Account::new(4));
    assert_eq!(clients[&2], Account::new(2));
    assert_eq!(clients[&9], Account::new(9));
    assert!(History::new(vec![]).fresh_accounts().is_empty());
}

#[test]
fn update_accounts_leaves_other_accounts_alone() {
    let log = vec![put(1, 1, 3_0000)];
    let mut clients = std::collections::HashMap::new();
    clients.insert(1, account(1, 1_0000, 0, 1_0000, false, vec![]));
    clients.insert(2, account(2, 7_0000, 1_0000, 8_0000, true, vec![]));
    History::new(log).update_accounts(&mut clients);
    assert_eq!(clients[&1], account(1, 4_0000, 0, 4_0000, false, vec![]));
    assert_eq!(clients[&2], account(2, 7_0000, 1_0000, 8_0000, true, vec![]));
    assert_eq!(clients.len(), 2);
}

#[test]
fn a_dispute_acts_on_the_account_of_its_own_client() {
    let log = vec![put(1, 1, 10_0000), take(1, 2, 5_0000), put(2, 3, 1_0000), contest(2, 2)];
    let clients = History::new(log.clone()).replay();
    assert_eq!(clients[&1], account(1, 5_0000, 0, 5_0000, false, vec![]));
    assert_eq!(clients[&2], account(2, 1_0000, 5_0000, 6_0000, false, vec![log[1]]));
}

#[test]
fn transaction_by_id_gives_the_first_match() {
    let log = vec![put(1, 5, 1), take(1, 6, 2), contest(1, 6), take(2, 6, 3)];
    assert_eq!(transaction_by_id(&log, 6), Some((1, &log[1])));
    assert_eq!(transaction_by_id(&log, 5), Some((0, &log[0])));
    assert_eq!(transaction_by_id(&log, 7), None);
    assert_eq!(transaction_by_id(&[], 5), None);
}

#[test]
fn disputable_by_id_gives_the_first_withdrawal_with_an_amount() {
    let log = vec![
        put(1, 6, 1),
        contest(1, 6),
        entry(TransactionType::Withdrawal, 1, 6, None),
        take(1, 6, 2),
        take(2, 6, 3),
    ];
    assert_eq!(disputable_by_id(&log, 6), Some((3, &log[3])));
    assert_eq!(disputable_by_id(&log, 5), None);
    assert_eq!(disputable_by_id(&log[..3], 6), None);
}

#[test]
fn kinds_of_records() {
    assert!(put(1, 1, 1).regular());
    assert!(take(1, 1, 1).regular());
    assert!(!contest(1, 1).regular());
    assert!(!settle(1, 1).regular());
    assert!(!reverse(1, 1).regular());
    assert!(take(1, 1, 1).disputable());
    assert!(!entry(TransactionType::Withdrawal, 1, 1, None).disputable());
    assert!(!put(1, 1, 1).disputable());
    assert!(!contest(1, 1).disputable());
}

#[test]
fn balances_grow_past_sixty_four_bits() {
    let log = vec![put(1, 1, i64::MAX), put(1, 2, i64::MAX), put(1, 3, i64::MAX)];
    let clients = History::new(log).replay();
    let sum = 3 * (i64::MAX as i128);
    assert_eq!(clients[&1], account(1, sum, 0, sum, false, vec![]));
}
