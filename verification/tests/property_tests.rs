//! Concrete scenarios for the library's stated properties: the derived
//! total, the terminal lock, idempotent disputes, inert resolves, the
//! absence rule, the withdrawal guard, and the replay examples.

use ledger::account_state::AccountState;
use ledger::amount::Amount;
use ledger::engine::run;
use ledger::engine::process_account_transactions;
use ledger::engine::ClientId;
use ledger::engine::Transaction;
use ledger::engine::TxId;
use ledger::input::InputRecord;

fn record(kind: &str, client: u16, tx: u32, amount: Option<i128>) -> InputRecord {
    InputRecord { kind: kind.to_string(), client, tx, amount: amount.map(Amount) }
}

#[test]
fn reported_total_is_available_plus_held() {
    let account = AccountState {
        client_id: ClientId(3),
        available: Amount(12500),
        held: Amount(100000),
        locked: false,
    };
    // the total field is derived, never stored: 1.25 + 10.0 = 11.25
    assert_eq!(account.output_line(), "3,1.2500,10.0000,11.2500,false");
}

#[test]
fn locked_account_ignores_every_later_event() {
    let prefix = vec![
        Transaction::Deposit(TxId(1), Amount(100000)),
        Transaction::Dispute(TxId(1)),
        Transaction::Chargeback(TxId(1)),
    ];
    let mut extended = prefix.clone();
    extended.push(Transaction::Deposit(TxId(2), Amount(50000)));
    extended.push(Transaction::Withdrawal(TxId(3), Amount(10000)));
    extended.push(Transaction::Dispute(TxId(2)));
    extended.push(Transaction::Resolve(TxId(1)));
    extended.push(Transaction::Chargeback(TxId(2)));

    let frozen = process_account_transactions(ClientId(1), &prefix);
    let after_more = process_account_transactions(ClientId(1), &extended);

    assert!(frozen.unwrap().locked);
    assert_eq!(frozen, after_more);
}

#[test]
fn dispute_twice_equals_dispute_once() {
    let once = vec![
        Transaction::Deposit(TxId(1), Amount(100000)),
        Transaction::Dispute(TxId(1)),
    ];
    let twice = vec![
        Transaction::Deposit(TxId(1), Amount(100000)),
        Transaction::Dispute(TxId(1)),
        Transaction::Dispute(TxId(1)),
    ];

    let state_once = process_account_transactions(ClientId(1), &once);
    let state_twice = process_account_transactions(ClientId(1), &twice);

    assert_eq!(state_once, state_twice);
}

#[test]
fn resolve_of_undisputed_tx_changes_nothing() {
    let plain = vec![
        Transaction::Deposit(TxId(1), Amount(100000)),
        Transaction::Deposit(TxId(2), Amount(50000)),
    ];
    let mut with_resolve = plain.clone();
    with_resolve.push(Transaction::Resolve(TxId(1))); // known, not disputed
    with_resolve.push(Transaction::Resolve(TxId(9))); // unknown

    let expected = process_account_transactions(ClientId(1), &plain);
    let resolved = process_account_transactions(ClientId(1), &with_resolve);

    assert_eq!(expected, resolved);
}

#[test]
fn client_without_deposit_never_appears() {
    let records = vec![
        record("deposit", 1, 1, Some(100000)),
        // client 2 never deposits: every event it sends is inert
        record("withdrawal", 2, 2, Some(10000)),
        record("dispute", 2, 1, None),
        record("resolve", 2, 1, None),
        record("chargeback", 2, 1, None),
    ];

    let result = run(&records);

    assert_eq!(result.len(), 1);
    assert_eq!(result[0].client_id, ClientId(1));
}

#[test]
fn withdrawal_guard() {
    // covered: available decreases by exactly the amount
    {
        let transactions = vec![
            Transaction::Deposit(TxId(1), Amount(100000)),
            Transaction::Withdrawal(TxId(2), Amount(100000)),
        ];
        let state = process_account_transactions(ClientId(1), &transactions).unwrap();
        assert_eq!(state.available, Amount(0));
        assert_eq!(state.held, Amount(0));
        assert!(!state.locked);
    }

    // uncovered: nothing changes, and no error is recorded
    {
        let transactions = vec![
            Transaction::Deposit(TxId(1), Amount(100000)),
            Transaction::Withdrawal(TxId(2), Amount(100001)),
        ];
        let state = process_account_transactions(ClientId(1), &transactions).unwrap();
        assert_eq!(state.available, Amount(100000));
        assert_eq!(state.held, Amount(0));
        assert!(!state.locked);
    }
}

#[test]
fn scenario_insufficient_funds() {
    // deposit 1.0, withdraw 2.0 (rejected), deposit 1.0
    let transactions = vec![
        Transaction::Deposit(TxId(1), Amount(10000)),
        Transaction::Withdrawal(TxId(2), Amount(20000)),
        Transaction::Deposit(TxId(3), Amount(10000)),
    ];
    let state = process_account_transactions(ClientId(1), &transactions).unwrap();
    assert_eq!(state.available, Amount(20000));
    assert_eq!(state.held, Amount(0));
    assert!(!state.locked);
}

#[test]
fn scenario_pending_dispute() {
    // deposit 10.0, dispute it
    let transactions = vec![
        Transaction::Deposit(TxId(1), Amount(100000)),
        Transaction::Dispute(TxId(1)),
    ];
    let state = process_account_transactions(ClientId(1), &transactions).unwrap();
    assert_eq!(state.available, Amount(0));
    assert_eq!(state.held, Amount(100000));
    assert!(!state.locked);
}

#[test]
fn scenario_chargeback_discards_the_rest() {
    // deposit, dispute, chargeback; the resolve and the second deposit are
    // discarded
    let transactions = vec![
        Transaction::Deposit(TxId(1), Amount(100000)),
        Transaction::Dispute(TxId(1)),
        Transaction::Chargeback(TxId(1)),
        Transaction::Resolve(TxId(1)),
        Transaction::Deposit(TxId(1), Amount(1000000)),
    ];
    let state = process_account_transactions(ClientId(1), &transactions).unwrap();
    assert_eq!(state.available, Amount(0));
    assert_eq!(state.held, Amount(0));
    assert!(state.locked);
}

#[test]
fn scenario_pre_account_events_are_inert() {
    // dispute and chargeback before any deposit do nothing, then the
    // deposit opens the account
    let transactions = vec![
        Transaction::Dispute(TxId(1)),
        Transaction::Chargeback(TxId(1)),
        Transaction::Deposit(TxId(1), Amount(100000)),
    ];
    let state = process_account_transactions(ClientId(1), &transactions).unwrap();
    assert_eq!(state.available, Amount(100000));
    assert_eq!(state.held, Amount(0));
    assert!(!state.locked);
}

#[test]
fn scenario_three_independent_clients() {
    // one full dispute -> resolve, one dispute -> chargeback, one plain
    // withdrawal; no cross-client interference, output ascending by client
    let records = vec![
        record("deposit", 3, 31, Some(100000)),
        record("deposit", 1, 11, Some(100000)),
        record("deposit", 2, 21, Some(100000)),
        record("dispute", 1, 11, None),
        record("resolve", 1, 11, None),
        record("dispute", 2, 21, None),
        record("chargeback", 2, 21, None),
        record("withdrawal", 3, 32, Some(40000)),
    ];

    let result = run(&records);

    let expected = vec![
        AccountState {
            client_id: ClientId(1),
            available: Amount(100000),
            held: Amount(0),
            locked: false,
        },
        AccountState {
            client_id: ClientId(2),
            available: Amount(0),
            held: Amount(0),
            locked: true,
        },
        AccountState {
            client_id: ClientId(3),
            available: Amount(60000),
            held: Amount(0),
            locked: false,
        },
    ];

    assert_eq!(result, expected);
}

#[test]
fn duplicate_deposit_tx_id_overwrites_recorded_amount() {
    // a second deposit reusing a transaction id overwrites the recorded
    // amount, so a later dispute holds the second amount
    let transactions = vec![
        Transaction::Deposit(TxId(1), Amount(100000)),
        Transaction::Deposit(TxId(1), Amount(50000)),
        Transaction::Dispute(TxId(1)),
    ];
    let state = process_account_transactions(ClientId(1), &transactions).unwrap();
    assert_eq!(state.available, Amount(100000));
    assert_eq!(state.held, Amount(50000));
    assert!(!state.locked);
}

#[test]
fn dispute_after_withdrawal_can_go_negative() {
    // disputing a deposit whose funds were already withdrawn drives
    // available negative; a chargeback then locks the account there
    let records = vec![
        record("deposit", 2, 1, Some(50000)),
        record("withdrawal", 2, 2, Some(30000)),
        record("dispute", 2, 1, None),
        record("chargeback", 2, 1, None),
    ];

    let result = run(&records);

    assert_eq!(result.len(), 1);
    let state = result[0];
    assert_eq!(state.available, Amount(-30000));
    assert_eq!(state.held, Amount(0));
    assert!(state.locked);
    assert_eq!(state.output_line(), "2,-3.0000,0.0000,-3.0000,true");
}

#[test]
fn full_pipeline_from_text_to_output_lines() {
    let input = "type, client, tx, amount\n\
                 deposit,1,1,1.0\n\
                 deposit,2,2,2.0\n\
                 deposit,1,3,2.0\n\
                 withdrawal,1,4,1.5\n\
                 withdrawal,2,5,3.0\n";
    let records = ledger::input::parse_csv(input.to_string()).unwrap();
    let states = run(&records);

    let lines: Vec<String> = states.iter().map(|s| s.output_line()).collect();
    assert_eq!(lines, vec!["1,1.5000,0.0000,1.5000,false", "2,2.0000,0.0000,2.0000,false"]);
}
