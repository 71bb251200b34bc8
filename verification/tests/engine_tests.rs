//! Tests of record parsing and per-account replay.

use ledger::account_state::AccountState;
use ledger::amount::Amount;
use ledger::engine::run;
use ledger::engine::parse_record;
use ledger::engine::process_account_transactions;
use ledger::engine::ClientId;
use ledger::engine::Transaction;
use ledger::engine::TxId;
use ledger::input::InputRecord;

fn record(kind: &str, client: u16, tx: u32, amount: Option<i128>) -> InputRecord {
    InputRecord { kind: kind.to_string(), client, tx, amount: amount.map(Amount) }
}

#[test]
fn parse_record_test() {
    // success: deposit
    {
        let record = record("deposit", 1, 2, Some(30000));
        let result = parse_record(&record).unwrap();

        assert_eq!(result, (ClientId(1), Transaction::Deposit(TxId(2), Amount(30000))));
    }

    // success: withdrawal
    {
        let record = record("withdrawal", 1, 2, Some(30000));
        let result = parse_record(&record).unwrap();

        assert_eq!(result, (ClientId(1), Transaction::Withdrawal(TxId(2), Amount(30000))));
    }

    // success: dispute
    {
        let record = record("dispute", 1, 2, None);
        let result = parse_record(&record).unwrap();

        assert_eq!(result, (ClientId(1), Transaction::Dispute(TxId(2))));
    }

    // success: resolve
    {
        let record = record("resolve", 1, 2, None);
        let result = parse_record(&record).unwrap();

        assert_eq!(result, (ClientId(1), Transaction::Resolve(TxId(2))));
    }

    // success: chargeback
    {
        let record = record("chargeback", 1, 2, None);
        let result = parse_record(&record).unwrap();

        assert_eq!(result, (ClientId(1), Transaction::Chargeback(TxId(2))));
    }

    // failure: nonexistent transaction type
    {
        let record = record("no_such_tx_type", 1, 2, None);
        let result = parse_record(&record);

        assert!(matches!(result, Err(_)));
    }

    // failure: deposit is missing its amount
    {
        let record = record("deposit", 1, 2, None);
        let result = parse_record(&record);

        assert!(matches!(result, Err(_)));
    }

    // failure: dispute has an amount
    {
        let record = record("dispute", 1, 2, Some(30000));
        let result = parse_record(&record);

        assert!(matches!(result, Err(_)));
    }
}

#[test]
fn process_account_transactions_test() {
    let client_id = ClientId(1);

    // no transactions
    {
        let transactions = vec![];

        let expected = None;

        let result = process_account_transactions(client_id, &transactions);

        assert_eq!(result, expected);
    }

    // deposits + withdrawals (all successful)
    {
        let transactions = vec![
            Transaction::Deposit(TxId(1), Amount(100000)),
            Transaction::Deposit(TxId(2), Amount(10000)),
            Transaction::Withdrawal(TxId(3), Amount(20000)),
            Transaction::Deposit(TxId(4), Amount(10000)),
        ];

        let expected = Some(AccountState {
            client_id,
            available: Amount(100000),
            held: Amount(0),
            locked: false,
        });

        let result = process_account_transactions(client_id, &transactions);

        assert_eq!(result, expected);
    }

    // overdrawing withdrawal rejected
    {
        let transactions = vec![
            Transaction::Deposit(TxId(1), Amount(10000)),
            Transaction::Withdrawal(TxId(2), Amount(20000)),
            Transaction::Deposit(TxId(3), Amount(10000)),
        ];

        let expected = Some(AccountState {
            client_id,
            available: Amount(20000),
            held: Amount(0),
            locked: false,
        });

        let result = process_account_transactions(client_id, &transactions);

        assert_eq!(result, expected);
    }

    // pending dispute (neither resolved nor charged back)
    {
        let transactions = vec![
            Transaction::Deposit(TxId(1), Amount(100000)),
            Transaction::Dispute(TxId(1)),
        ];

        let expected = Some(AccountState {
            client_id,
            available: Amount(0),
            held: Amount(100000),
            locked: false,
        });

        let result = process_account_transactions(client_id, &transactions);

        assert_eq!(result, expected);
    }

    // resolved dispute
    {
        let transactions = vec![
            Transaction::Deposit(TxId(1), Amount(100000)),
            Transaction::Dispute(TxId(1)),
            Transaction::Resolve(TxId(1)),
        ];

        let expected = Some(AccountState {
            client_id,
            available: Amount(100000),
            held: Amount(0),
            locked: false,
        });

        let result = process_account_transactions(client_id, &transactions);

        assert_eq!(result, expected);
    }

    // chargeback with blocked subsequent transaction attempts
    {
        let transactions = vec![
            Transaction::Deposit(TxId(1), Amount(100000)),
            Transaction::Dispute(TxId(1)),
            Transaction::Chargeback(TxId(1)),
            // remaining transactions will not happen (account is locked)
            Transaction::Resolve(TxId(1)),
            Transaction::Deposit(TxId(1), Amount(1000000)),
            Transaction::Withdrawal(TxId(1), Amount(50000)),
        ];

        let expected = Some(AccountState {
            client_id,
            available: Amount(0),
            held: Amount(0),
            locked: true,
        });

        let result = process_account_transactions(client_id, &transactions);

        assert_eq!(result, expected);
    }

    // dispute resolution precedes deposit
    {
        let transactions = vec![
            // these transactions have no effect, their target doesn't exist yet
            Transaction::Dispute(TxId(1)),
            Transaction::Chargeback(TxId(1)),
            Transaction::Resolve(TxId(1)),
            Transaction::Deposit(TxId(1), Amount(100000)),
        ];

        let expected = Some(AccountState {
            client_id,
            available: Amount(100000),
            held: Amount(0),
            locked: false,
        });

        let result = process_account_transactions(client_id, &transactions);

        assert_eq!(result, expected);
    }

    // dispute resolution precedes dispute
    {
        let transactions = vec![
            Transaction::Deposit(TxId(1), Amount(100000)),
            // these transactions have no effect, their target isn't disputed yet
            Transaction::Chargeback(TxId(1)),
            Transaction::Resolve(TxId(1)),
            Transaction::Dispute(TxId(1)),
        ];

        let expected = Some(AccountState {
            client_id,
            available: Amount(0),
            held: Amount(100000),
            locked: false,
        });

        let result = process_account_transactions(client_id, &transactions);

        assert_eq!(result, expected);
    }
}

#[test]
fn run_test() {
    // no records
    {
        let records = vec![];
        let expected = vec![];

        let result = run(&records);

        assert_eq!(result, expected);
    }

    // one client + invalid record
    {
        let records = vec![
            record("", 1, 1, None),
            record("deposit", 1, 2, Some(100000)),
            record("withdrawal", 1, 3, Some(20000)),
        ];
        let expected = vec![
            AccountState {
                client_id: ClientId(1),
                available: Amount(80000),
                held: Amount(0),
                locked: false,
            },
        ];

        let result = run(&records);

        assert_eq!(result, expected);
    }

    // three clients + canceled overdrawing withdrawal
    {
        let records = vec![
            record("deposit", 1, 616, Some(100000)),
            record("deposit", 2, 525, Some(100000)),
            record("deposit", 3, 434, Some(100000)),
            record("withdrawal", 3, 343, Some(20000)),
            record("withdrawal", 2, 252, Some(80000)),
            record("withdrawal", 1, 161, Some(150000)),
        ];
        let expected = vec![
            AccountState {
                client_id: ClientId(1),
                available: Amount(100000),
                held: Amount(0),
                locked: false,
            },
            AccountState {
                client_id: ClientId(2),
                available: Amount(20000),
                held: Amount(0),
                locked: false,
            },
            AccountState {
                client_id: ClientId(3),
                available: Amount(80000),
                held: Amount(0),
                locked: false,
            },
        ];

        let result = run(&records);

        assert_eq!(result, expected);
    }

    // three clients w/ disputes: pending, resolved, and charged back
    {
        let records = vec![
            record("deposit", 1, 616, Some(100000)),
            record("deposit", 2, 525, Some(100000)),
            record("deposit", 3, 434, Some(100000)),
            record("dispute", 1, 616, None),
            record("dispute", 2, 525, None),
            record("dispute", 3, 434, None),
            record("resolve", 2, 525, None),
            record("chargeback", 3, 434, None),
            record("withdrawal", 3, 343, Some(50000)),
            record("withdrawal", 2, 252, Some(50000)),
            record("withdrawal", 1, 161, Some(50000)),
        ];

        let expected = vec![
            AccountState {
                client_id: ClientId(1),
                available: Amount(0),
                held: Amount(100000),
                locked: false,
            },
            AccountState {
                client_id: ClientId(2),
                available: Amount(50000),
                held: Amount(0),
                locked: false,
            },
            AccountState {
                client_id: ClientId(3),
                available: Amount(0),
                held: Amount(0),
                locked: true,
            },
        ];

        let result = run(&records);

        assert_eq!(result, expected);
    }

    // disputes + resolutions: wrong clients/transaction IDs
    {
        let records = vec![
            record("deposit", 1, 616, Some(100000)),
            record("deposit", 2, 525, Some(100000)),
            record("deposit", 3, 434, Some(100000)),
            // wrong client
            record("dispute", 2, 616, None),
            // non-existent client
            record("dispute", 5, 525, None),
            // valid
            record("dispute", 3, 434, None),
            // wrong transaction ID
            record("resolve", 2, 434, None),
            // wrong client
            record("chargeback", 2, 434, None),
        ];

        let expected = vec![
            AccountState {
                client_id: ClientId(1),
                available: Amount(100000),
                held: Amount(0),
                locked: false,
            },
            AccountState {
                client_id: ClientId(2),
                available: Amount(100000),
                held: Amount(0),
                locked: false,
            },
            AccountState {
                client_id: ClientId(3),
                available: Amount(0),
                held: Amount(100000),
                locked: false,
            },
        ];

        let result = run(&records);

        assert_eq!(result, expected);
    }
}
