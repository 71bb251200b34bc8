//! The mathematical model of one client's ledger: how a single event moves
//! the account, and what a whole ordered history replays to.

use vstd::prelude::*;

use crate::engine::Transaction;
use crate::engine::TxId;

verus! {

/// The balances and lock status of one account.
pub ghost struct AccountModel {
    pub available: int,
    pub held: int,
    pub locked: bool,
}

/// The replay state of one client's ledger: the account (absent until the
/// first deposit), the amount of every deposit seen so far, and the set of
/// deposits currently under dispute.
pub ghost struct LedgerModel {
    pub account: Option<AccountModel>,
    pub deposits: Map<u32, i128>,
    pub disputed: Set<u32>,
}

/// The state before any event: no account, no deposits, no disputes.
pub open spec fn initial_ledger() -> LedgerModel {
    LedgerModel { account: None, deposits: Map::empty(), disputed: Set::empty() }
}

/// One event applied to a ledger, strictly in input order:
/// - before the first deposit, every other event is inert;
/// - once the account is locked, every event is inert;
/// - a deposit always succeeds and records its amount (a repeated
///   transaction id overwrites the recorded amount);
/// - a withdrawal succeeds only when `available` covers it, and is
///   otherwise silently ignored;
/// - a dispute holds the amount of a known, not-yet-disputed deposit;
/// - a resolve releases the amount of a known, currently disputed deposit;
/// - a chargeback removes the held amount of a known, currently disputed
///   deposit and locks the account for good.
pub open spec fn step(l: LedgerModel, t: Transaction) -> LedgerModel {
    match l.account {
        None => match t {
            Transaction::Deposit(tx, amt) => LedgerModel {
                account: Some(AccountModel { available: amt.0 as int, held: 0, locked: false }),
                deposits: l.deposits.insert(tx.0, amt.0),
                disputed: l.disputed,
            },
            _ => l,
        },
        Some(a) => if a.locked {
            l
        } else {
            match t {
                Transaction::Deposit(tx, amt) => LedgerModel {
                    account: Some(
                        AccountModel {
                            available: a.available + amt.0,
                            held: a.held,
                            locked: false,
                        },
                    ),
                    deposits: l.deposits.insert(tx.0, amt.0),
                    disputed: l.disputed,
                },
                Transaction::Withdrawal(_, amt) => if a.available >= amt.0 {
                    LedgerModel {
                        account: Some(
                            AccountModel {
                                available: a.available - amt.0,
                                held: a.held,
                                locked: false,
                            },
                        ),
                        deposits: l.deposits,
                        disputed: l.disputed,
                    }
                } else {
                    l
                },
                Transaction::Dispute(tx) => if l.deposits.contains_key(tx.0)
                    && !l.disputed.contains(tx.0) {
                    LedgerModel {
                        account: Some(
                            AccountModel {
                                available: a.available - l.deposits[tx.0],
                                held: a.held + l.deposits[tx.0],
                                locked: false,
                            },
                        ),
                        deposits: l.deposits,
                        disputed: l.disputed.insert(tx.0),
                    }
                } else {
                    l
                },
                Transaction::Resolve(tx) => if l.deposits.contains_key(tx.0)
                    && l.disputed.contains(tx.0) {
                    LedgerModel {
                        account: Some(
                            AccountModel {
                                available: a.available + l.deposits[tx.0],
                                held: a.held - l.deposits[tx.0],
                                locked: false,
                            },
                        ),
                        deposits: l.deposits,
                        disputed: l.disputed.remove(tx.0),
                    }
                } else {
                    l
                },
                Transaction::Chargeback(tx) => if l.deposits.contains_key(tx.0)
                    && l.disputed.contains(tx.0) {
                    LedgerModel {
                        account: Some(
                            AccountModel {
                                available: a.available,
                                held: a.held - l.deposits[tx.0],
                                locked: true,
                            },
                        ),
                        deposits: l.deposits,
                        disputed: l.disputed,
                    }
                } else {
                    l
                },
            }
        },
    }
}

/// The ledger state after an ordered history of events.
pub open spec fn replay(ts: Seq<Transaction>) -> LedgerModel
    decreases ts.len(),
{
    if ts.len() == 0 {
        initial_ledger()
    } else {
        step(replay(ts.drop_last()), ts.last())
    }
}

/// Law: the lock is terminal. Once a history has locked the account, no
/// later event changes the account, the recorded deposits, or the disputes.
pub proof fn lemma_locked_is_frozen(p: Seq<Transaction>, q: Seq<Transaction>)
    requires
        replay(p).account matches Some(a) && a.locked,
    ensures
        replay(p + q) == replay(p),
    decreases q.len(),
{
    if q.len() == 0 {
        assert(p + q =~= p);
    } else {
        lemma_locked_is_frozen(p, q.drop_last());
        assert((p + q).drop_last() =~= p + q.drop_last());
    }
}

/// Law: disputing is idempotent. Disputing a transaction id twice in a row
/// leaves the ledger exactly as disputing it once does.
pub proof fn lemma_dispute_idempotent(l: LedgerModel, tx: TxId)
    ensures
        step(step(l, Transaction::Dispute(tx)), Transaction::Dispute(tx)) == step(
            l,
            Transaction::Dispute(tx),
        ),
{
}

/// Law: disputing is idempotent over whole histories. A history that
/// disputes a transaction id twice in a row replays to the same state as
/// one that disputes it once.
pub proof fn lemma_dispute_idempotent_replay(p: Seq<Transaction>, tx: TxId)
    ensures
        replay(p.push(Transaction::Dispute(tx)).push(Transaction::Dispute(tx))) == replay(
            p.push(Transaction::Dispute(tx)),
        ),
{
    let once = p.push(Transaction::Dispute(tx));
    let twice = once.push(Transaction::Dispute(tx));
    assert(once.drop_last() =~= p);
    assert(twice.drop_last() =~= once);
    lemma_dispute_idempotent(replay(p), tx);
}

/// Law: a resolve that references a transaction id not currently under
/// dispute leaves the ledger unchanged.
pub proof fn lemma_resolve_undisputed_noop(l: LedgerModel, tx: TxId)
    requires
        !l.disputed.contains(tx.0),
    ensures
        step(l, Transaction::Resolve(tx)) == l,
{
}

/// Law: the withdrawal guard. On an open, unlocked account, a withdrawal
/// covered by the available balance decreases `available` by exactly its
/// amount; an uncovered one changes nothing. Held funds, recorded deposits
/// and disputes are never touched.
pub proof fn lemma_withdrawal_guard(l: LedgerModel, tx: TxId, amt: crate::amount::Amount)
    requires
        l.account matches Some(a) && !a.locked,
    ensures
        ({
            let a = l.account.unwrap();
            let l2 = step(l, Transaction::Withdrawal(tx, amt));
            &&& amt.0 <= a.available ==> l2.account == Some(
                AccountModel { available: a.available - amt.0, held: a.held, locked: false },
            )
            &&& amt.0 > a.available ==> l2 == l
            &&& l2.deposits == l.deposits
            &&& l2.disputed == l.disputed
        }),
{
}

/// Whether an event is a deposit, the only kind that can open an account.
pub open spec fn is_deposit(t: Transaction) -> bool {
    t matches Transaction::Deposit(_, _)
}

/// Law: an account exists after a history exactly when the history holds at
/// least one deposit; all events before the first deposit are inert.
pub proof fn lemma_account_iff_deposit(ts: Seq<Transaction>)
    ensures
        replay(ts).account is Some <==> exists|i: int|
            0 <= i < ts.len() && #[trigger] is_deposit(ts[i]),
    decreases ts.len(),
{
    if ts.len() > 0 {
        lemma_account_iff_deposit(ts.drop_last());
        if replay(ts).account is Some {
            if replay(ts.drop_last()).account is Some {
                let i = choose|i: int|
                    0 <= i < ts.drop_last().len() && #[trigger] is_deposit(ts.drop_last()[i]);
                assert(is_deposit(ts[i]));
            } else {
                assert(is_deposit(ts[ts.len() - 1]));
            }
        }
        if exists|i: int| 0 <= i < ts.len() && #[trigger] is_deposit(ts[i]) {
            let i = choose|i: int| 0 <= i < ts.len() && #[trigger] is_deposit(ts[i]);
            if i < ts.len() - 1 {
                assert(is_deposit(ts.drop_last()[i]));
                assert(replay(ts.drop_last()).account is Some);
            }
            assert(replay(ts).account is Some);
        }
    }
}

} // verus!
