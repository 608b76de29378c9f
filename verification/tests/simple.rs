use off_chain_mutator::accounts::Account;
use off_chain_mutator::transaction::{History, Transaction, TransactionType};

fn record(kind: TransactionType, client: u16, tx: u32, amount: Option<i64>) -> Transaction {
    Transaction { kind, client, tx, amount }
}

fn deposit(client: u16, tx: u32, amount: i64) -> Transaction {
    record(TransactionType::Deposit, client, tx, Some(amount))
}

fn withdrawal(client: u16, tx: u32, amount: i64) -> Transaction {
    record(TransactionType::Withdrawal, client, tx, Some(amount))
}

fn dispute(client: u16, tx: u32) -> Transaction {
    record(TransactionType::Dispute, client, tx, None)
}

fn chargeback(client: u16, tx: u32) -> Transaction {
    record(TransactionType::Chargeback, client, tx, None)
}

fn settled(transactions: &History) -> Vec<Account> {
    let mut clients = transactions
        .0
        .iter()
        .map(|transaction| (transaction.client, Account::new(transaction.client)))
        .collect::<std::collections::HashMap<_, _>>();

    transactions.update_accounts(&mut clients);

    let mut accounts = clients
        .into_iter()
        .map(|(_, account)| account)
        .collect::<Vec<_>>();

    accounts.sort_unstable_by_key(|account| account.client_id);
    accounts
}

#[test]
fn test_example() {
    let transactions = History::from_records(vec![
        deposit(1, 1, 1_0000),
        deposit(2, 2, 2_0000),
        deposit(1, 3, 2_0000),
        withdrawal(1, 4, 1_5000),
        withdrawal(2, 5, 3_0000),
    ])
    .unwrap();

    assert_eq!(
        settled(&transactions),
        vec![
            Account {
                client_id: 1,
                available: 1_5000,
                total: 1_5000,
                held: 0,
                locked: false,
                disputed: vec![]
            },
            Account {
                client_id: 2,
                available: 2_0000,
                total: 2_0000,
                held: 0,
                locked: false,
                disputed: vec![]
            },
        ]
    );
}

#[test]
fn mod_test_simple_deposits() {
    let transactions = History::from_records(vec![
        deposit(1, 1, 1_0000),
        deposit(2, 2, 5_0000),
        deposit(10, 3, 2_0000),
        deposit(2, 4, 6_0000),
    ])
    .unwrap();

    assert_eq!(
        settled(&transactions),
        vec![
            Account {
                client_id: 1,
                available: 1_0000,
                total: 1_0000,
                held: 0,
                locked: false,
                disputed: vec![],
            },
            Account {
                client_id: 2,
                available: 11_0000,
                total: 11_0000,
                held: 0,
                locked: false,
                disputed: vec![],
            },
            Account {
                client_id: 10,
                available: 2_0000,
                total: 2_0000,
                held: 0,
                locked: false,
                disputed: vec![],
            }
        ]
    );
}

#[test]
fn simple_test_simple_deposits() {
    let transactions = History::new(vec![
        deposit(1, 1, 1_0000),
        deposit(2, 2, 5_0000),
        deposit(10, 3, 2_0000),
        deposit(2, 4, 6_0000),
    ]);

    let accounts = settled(&transactions);

    assert_eq!(
        accounts
            .iter()
            .map(|account| (
                account.client_id,
                account.available,
                account.total,
                account.held,
                account.locked
            ))
            .collect::<Vec<_>>(),
        vec![
            (1, 1_0000, 1_0000, 0, false),
            (2, 11_0000, 11_0000, 0, false),
            (10, 2_0000, 2_0000, 0, false),
        ]
    );
}

#[test]
fn test_simple_operations() {
    let transactions = History::from_records(vec![
        deposit(1, 1, 100_0000),
        withdrawal(1, 2, 10_1000),
        deposit(2, 3, 20_0000),
        withdrawal(2, 4, 20_0000),
        dispute(2, 4),
        chargeback(2, 4),
        deposit(3, 7, 10_0000),
        withdrawal(3, 8, 5_0000),
        dispute(3, 8),
    ])
    .unwrap();

    assert_eq!(
        settled(&transactions),
        vec![
            Account {
                client_id: 1,
                available: 89_9000,
                total: 89_9000,
                held: 0,
                locked: false,
                disputed: vec![],
            },
            Account {
                client_id: 2,
                available: 0,
                total: 0,
                held: 0,
                locked: true,
                disputed: vec![],
            },
            Account {
                client_id: 3,
                available: 5_0000,
                total: 10_0000,
                held: 5_0000,
                locked: false,
                disputed: vec![Transaction {
                    kind: TransactionType::Withdrawal,
                    client: 3,
                    tx: 8,
                    amount: Some(5_0000),
                }],
            },
        ]
    );
}

#[test]
fn test_multiple_disputes() {
    let transactions = History::from_records(vec![
        deposit(1, 1, 100_0000),
        withdrawal(1, 2, 10_0000),
        withdrawal(1, 3, 10_0000),
        dispute(1, 2),
        dispute(1, 3),
        chargeback(1, 3),
    ])
    .unwrap();

    let mut clients = transactions
        .0
        .iter()
        .map(|transaction| (transaction.client, Account::new(transaction.client)))
        .collect::<std::collections::HashMap<_, _>>();

    transactions.update_accounts(&mut clients);

    let accounts = clients
        .into_iter()
        .map(|(_, account)| account)
        .collect::<Vec<_>>();

    assert_eq!(
        accounts,
        vec![Account {
            client_id: 1,
            available: 80_0000,
            total: 90_0000,
            held: 10_0000,
            locked: true,
            disputed: vec![Transaction {
                kind: TransactionType::Withdrawal,
                client: 1,
                tx: 2,
                amount: Some(10_0000),
            }],
        },]
    );
}
