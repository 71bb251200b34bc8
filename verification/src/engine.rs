//! The transaction processing engine: event types and the replay of
//! per-client histories into account states.

use std::collections::HashMap;
use std::collections::HashSet;

use vstd::prelude::*;

use crate::account_state::AccountState;
use crate::amount::Amount;
use crate::amount::BALANCE_LIMIT;
use crate::amount::MAX_AMOUNT_RAW;
use crate::input::InputRecord;
use crate::input::RecordView;
use crate::replay::replay;
use crate::replay::lemma_locked_is_frozen;
use crate::replay::LedgerModel;
use crate::text::str_eq;

verus! {

broadcast use vstd::std_specs::hash::group_hash_axioms;

/// A client identifier.
#[derive(Copy, Clone, Eq, PartialEq, Structural, Hash, Debug)]
pub struct ClientId(pub u16);

/// A globally unique transaction identifier.
#[derive(Copy, Clone, Eq, PartialEq, Structural, Hash, Debug)]
pub struct TxId(pub u32);

/// A transaction that applies to one client account.
#[derive(Copy, Clone, Eq, PartialEq, Structural, Debug)]
pub enum Transaction {
    Deposit(TxId, Amount),
    Withdrawal(TxId, Amount),
    Dispute(TxId),
    Resolve(TxId),
    Chargeback(TxId),
}

impl Transaction {
    /// Any amount carried is small enough that replaying a history of such
    /// events keeps every balance within `i128`.
    pub open spec fn wf(self) -> bool {
        match self {
            Transaction::Deposit(_, amt) => amt.wf(),
            Transaction::Withdrawal(_, amt) => amt.wf(),
            _ => true,
        }
    }
}

/// Why an input record does not describe a valid transaction: an amount on
/// an event kind that takes none, a missing amount on one that needs it, or
/// an unknown kind altogether.
#[derive(Copy, Clone, PartialEq, Eq, Structural, Debug)]
pub struct RecordError;

/// The transaction an input record describes, if any: a deposit or
/// withdrawal must carry an amount, a dispute-lifecycle event must not.
pub open spec fn record_tx(r: RecordView) -> Option<(ClientId, Transaction)> {
    match r.amount {
        Some(v) => if r.kind == "deposit"@ {
            Some((ClientId(r.client), Transaction::Deposit(TxId(r.tx), Amount(v))))
        } else if r.kind == "withdrawal"@ {
            Some((ClientId(r.client), Transaction::Withdrawal(TxId(r.tx), Amount(v))))
        } else {
            None
        },
        None => if r.kind == "dispute"@ {
            Some((ClientId(r.client), Transaction::Dispute(TxId(r.tx))))
        } else if r.kind == "resolve"@ {
            Some((ClientId(r.client), Transaction::Resolve(TxId(r.tx))))
        } else if r.kind == "chargeback"@ {
            Some((ClientId(r.client), Transaction::Chargeback(TxId(r.tx))))
        } else {
            None
        },
    }
}

/// Parses an input record into a client ID + transaction pair.
pub fn parse_record(record: &InputRecord) -> (r: Result<(ClientId, Transaction), RecordError>)
    ensures
        r matches Ok(ct) ==> record_tx(record@) == Some(ct),
        r is Err ==> record_tx(record@) is None,
{
    match record.amount {
        Some(amount) => {
            if str_eq(record.kind.as_str(), "deposit") {
                Ok((ClientId(record.client), Transaction::Deposit(TxId(record.tx), amount)))
            } else if str_eq(record.kind.as_str(), "withdrawal") {
                Ok((ClientId(record.client), Transaction::Withdrawal(TxId(record.tx), amount)))
            } else {
                Err(RecordError)
            }
        },
        None => {
            if str_eq(record.kind.as_str(), "dispute") {
                Ok((ClientId(record.client), Transaction::Dispute(TxId(record.tx))))
            } else if str_eq(record.kind.as_str(), "resolve") {
                Ok((ClientId(record.client), Transaction::Resolve(TxId(record.tx))))
            } else if str_eq(record.kind.as_str(), "chargeback") {
                Ok((ClientId(record.client), Transaction::Chargeback(TxId(record.tx))))
            } else {
                Err(RecordError)
            }
        },
    }
}

/// The executable replay state corresponds exactly to the model `m`.
spec fn state_matches(
    st: Option<AccountState>,
    deposits: Map<u32, i128>,
    disputed: Set<u32>,
    m: LedgerModel,
    client_id: ClientId,
) -> bool {
    &&& match (st, m.account) {
        (None, None) => true,
        (Some(s), Some(a)) => s.client_id == client_id && s.model() == a,
        _ => false,
    }
    &&& deposits == m.deposits
    &&& disputed == m.disputed
}

/// Every recorded deposit amount is a well-formed single amount.
spec fn deposits_wf(deposits: Map<u32, i128>) -> bool {
    forall|k: u32|
        deposits.contains_key(k) ==> -MAX_AMOUNT_RAW <= #[trigger] deposits[k] <= MAX_AMOUNT_RAW
}

/// After `n` events, each balance has moved by at most `MAX_AMOUNT_RAW`
/// twice per event.
spec fn balances_bounded_by(m: LedgerModel, n: int) -> bool {
    m.account matches Some(a) ==> vstd::math::abs(a.available) + vstd::math::abs(a.held) <= 2 * n
        * (MAX_AMOUNT_RAW as int)
}

/// Histories fit in memory, so the running balance bound never leaves the
/// range that `i128` arithmetic covers.
proof fn lemma_bound_fits(n: int)
    requires
        0 <= n <= usize::MAX as int,
    ensures
        2 * n * (MAX_AMOUNT_RAW as int) <= BALANCE_LIMIT as int,
{
    assert(usize::MAX as int <= 0xffff_ffff_ffff_ffff);
    assert(2 * n * (MAX_AMOUNT_RAW as int) <= BALANCE_LIMIT as int) by (nonlinear_arith)
        requires
            0 <= n <= 0xffff_ffff_ffff_ffff,
    ;
}

/// Replays one client's ordered transaction history and returns the final
/// state of its account, or `None` when no deposit ever opened the account.
/// `client_id` only names the resulting account: every transaction handed
/// in is replayed against it.
pub fn process_account_transactions(client_id: ClientId, transactions: &Vec<Transaction>) -> (r:
    Option<AccountState>)
    requires
        forall|k: int| 0 <= k < transactions@.len() ==> (#[trigger] transactions@[k]).wf(),
    ensures
        ({
            let m = replay(transactions@);
            &&& r is Some <==> m.account is Some
            &&& (r matches Some(st) ==> {
                &&& st.client_id == client_id
                &&& Some(st.model()) == m.account
                &&& st.bounded()
            })
        }),
{
    let ghost all = transactions@;
    let mut account_state: Option<AccountState> = None;

    // for existing deposits: transaction IDs mapped to raw amounts
    let mut deposit_amounts: HashMap<u32, i128> = HashMap::new();

    // the transaction IDs of disputed deposits
    let mut disputed_deposit_ids: HashSet<u32> = HashSet::new();

    let n = transactions.len();
    let mut i: usize = 0;
    while i < n
        invariant
            all == transactions@,
            i <= n,
            n == all.len(),
            forall|k: int| 0 <= k < all.len() ==> (#[trigger] all[k]).wf(),
            state_matches(
                account_state,
                deposit_amounts@,
                disputed_deposit_ids@,
                replay(all.take(i as int)),
                client_id,
            ),
            deposits_wf(deposit_amounts@),
            replay(all.take(i as int)).account matches Some(a) ==> !a.locked,
            balances_bounded_by(replay(all.take(i as int)), i as int),
        decreases n - i,
    {
        let t = transactions[i];
        proof {
            assert(all.take(i as int + 1).drop_last() =~= all.take(i as int));
            assert(all.take(i as int + 1).last() == all[i as int]);
            lemma_bound_fits(i as int + 1);
        }
        match t {
            Transaction::Deposit(tx, amt) => {
                // deposits always succeed, opening the account if need be
                let prev = match account_state {
                    Some(st) => st,
                    None => AccountState {
                        client_id,
                        available: Amount(0),
                        held: Amount(0),
                        locked: false,
                    },
                };
                account_state = Some(
                    AccountState {
                        client_id,
                        available: Amount(prev.available.0 + amt.0),
                        held: prev.held,
                        locked: false,
                    },
                );
                // record this deposit, in case of a dispute; a repeated
                // transaction id overwrites the recorded amount
                deposit_amounts.insert(tx.0, amt.0);
            },
            Transaction::Withdrawal(_, amt) => {
                // withdrawals only happen on an open account with enough
                // available funds; otherwise they are silently ignored
                if let Some(st) = account_state {
                    if st.available.0 >= amt.0 {
                        account_state = Some(
                            AccountState {
                                client_id,
                                available: Amount(st.available.0 - amt.0),
                                held: st.held,
                                locked: false,
                            },
                        );
                    }
                }
            },
            Transaction::Dispute(tx) => {
                // disputes only happen on existing deposits not already
                // under dispute
                if let Some(st) = account_state {
                    if let Some(amt_ref) = deposit_amounts.get(&tx.0) {
                        let amt_val = *amt_ref;
                        if !disputed_deposit_ids.contains(&tx.0) {
                            account_state = Some(
                                AccountState {
                                    client_id,
                                    available: Amount(st.available.0 - amt_val),
                                    held: Amount(st.held.0 + amt_val),
                                    locked: false,
                                },
                            );
                            disputed_deposit_ids.insert(tx.0);
                        }
                    }
                }
            },
            Transaction::Resolve(tx) => {
                // resolve only applies to an existing disputed deposit
                if let Some(st) = account_state {
                    if let Some(amt_ref) = deposit_amounts.get(&tx.0) {
                        let amt_val = *amt_ref;
                        if disputed_deposit_ids.contains(&tx.0) {
                            account_state = Some(
                                AccountState {
                                    client_id,
                                    available: Amount(st.available.0 + amt_val),
                                    held: Amount(st.held.0 - amt_val),
                                    locked: false,
                                },
                            );
                            disputed_deposit_ids.remove(&tx.0);
                        }
                    }
                }
            },
            Transaction::Chargeback(tx) => {
                // chargeback only applies to an existing disputed deposit;
                // it freezes the account, discarding all remaining events
                if let Some(st) = account_state {
                    if let Some(amt_ref) = deposit_amounts.get(&tx.0) {
                        let amt_val = *amt_ref;
                        if disputed_deposit_ids.contains(&tx.0) {
                            let frozen = AccountState {
                                client_id,
                                available: st.available,
                                held: Amount(st.held.0 - amt_val),
                                locked: true,
                            };
                            proof {
                                lemma_locked_is_frozen(
                                    all.take(i as int + 1),
                                    all.skip(i as int + 1),
                                );
                                assert(all.take(i as int + 1) + all.skip(i as int + 1) =~= all);
                            }
                            return Some(frozen);
                        }
                    }
                }
            },
        }
        i = i + 1;
    }
    proof {
        assert(all.take(n as int) =~= all);
        lemma_bound_fits(n as int);
    }
    account_state
}

/// The ordered transactions a record sequence holds for client `c`:
/// exactly the valid transactions of the records naming `c`, in input
/// order.
pub open spec fn client_events(records: Seq<InputRecord>, c: u16) -> Seq<Transaction>
    decreases records.len(),
{
    if records.len() == 0 {
        Seq::empty()
    } else {
        let rest = client_events(records.drop_last(), c);
        match record_tx(records.last()@) {
            Some((cid, t)) => if cid.0 == c {
                rest.push(t)
            } else {
                rest
            },
            None => rest,
        }
    }
}

/// The final account a record sequence yields for client `c`, if any.
pub open spec fn client_account(records: Seq<InputRecord>, c: u16) -> Option<
    crate::replay::AccountModel,
> {
    replay(client_events(records, c)).account
}

/// Whether some returned state reports on client `c`.
pub open spec fn reports_client(states: Seq<AccountState>, c: u16) -> bool {
    exists|a: int| 0 <= a < states.len() && (#[trigger] states[a]).client_id.0 == c
}

/// Whether one of the groups from position `k` on carries key `c`.
spec fn key_from(groups: Seq<(u16, Vec<Transaction>)>, k: int, c: u16) -> bool {
    exists|a: int| k <= a < groups.len() && (#[trigger] groups[a]).0 == c
}

/// Well-formed records yield well-formed per-client transactions.
proof fn lemma_client_events_wf(records: Seq<InputRecord>, c: u16)
    requires
        forall|k: int| 0 <= k < records.len() ==> (#[trigger] records[k]@).wf(),
    ensures
        forall|j: int|
            0 <= j < client_events(records, c).len() ==> (#[trigger] client_events(records, c)[j]).wf(),
    decreases records.len(),
{
    if records.len() > 0 {
        assert(forall|k: int|
            0 <= k < records.len() - 1 ==> #[trigger] records.drop_last()[k] == records[k]);
        lemma_client_events_wf(records.drop_last(), c);
        let rest = client_events(records.drop_last(), c);
        assert forall|j: int|
            0 <= j < client_events(records, c).len() implies (#[trigger] client_events(
            records,
            c,
        )[j]).wf() by {
            if j < rest.len() {
                assert(client_events(records, c)[j] == rest[j]);
            }
        }
    }
}

/// Extending a record sequence by one record extends exactly the named
/// client's transactions, and only when the record is valid.
proof fn lemma_client_events_step(records: Seq<InputRecord>, i: int)
    requires
        0 <= i < records.len(),
    ensures
        forall|c: u16| #[trigger]
            client_events(records.take(i + 1), c) == (match record_tx(records[i]@) {
                Some((cid, t)) => if cid.0 == c {
                    client_events(records.take(i), c).push(t)
                } else {
                    client_events(records.take(i), c)
                },
                None => client_events(records.take(i), c),
            }),
{
    assert(records.take(i + 1).drop_last() =~= records.take(i));
    assert(records.take(i + 1).last() == records[i]);
}

/// Law: the absence rule. A client whose events hold no deposit gets no
/// account, whatever other events reference it; `run` reports exactly the
/// clients with an account, so such a client never appears in the output.
pub proof fn lemma_absent_without_deposit(records: Seq<InputRecord>, c: u16)
    requires
        forall|j: int|
            0 <= j < client_events(records, c).len() ==> !crate::replay::is_deposit(
                #[trigger] client_events(records, c)[j],
            ),
    ensures
        client_account(records, c) is None,
{
    crate::replay::lemma_account_iff_deposit(client_events(records, c));
}

/// Replays a whole history of records: groups them by client, preserving
/// each client's input order, replays every client's group, and returns the
/// resulting account states in ascending client-id order. Records that
/// describe no valid transaction are silently ignored; clients whose
/// records hold no deposit yield no account.
#[verifier::loop_isolation(false)]
pub fn run(records: &Vec<InputRecord>) -> (r: Vec<AccountState>)
    requires
        forall|k: int| 0 <= k < records@.len() ==> (#[trigger] records@[k]@).wf(),
    ensures
        forall|a: int, b: int| 0 <= a < b < r@.len() ==> r@[a].client_id.0 < r@[b].client_id.0,
        forall|a: int|
            0 <= a < r@.len() ==> {
                &&& client_account(records@, (#[trigger] r@[a]).client_id.0) == Some(r@[a].model())
                &&& r@[a].bounded()
            },
        forall|c: u16| #[trigger] client_account(records@, c) is Some ==> reports_client(r@, c),
{
    let ghost all = records@;

    // maps a client ID to its ordered transaction sequence, keys ascending
    let mut histories: Vec<(u16, Vec<Transaction>)> = Vec::new();

    let n = records.len();
    let mut i: usize = 0;
    while i < n
        invariant
            i <= n,
            forall|a: int, b: int|
                0 <= a < b < histories@.len() ==> (#[trigger] histories@[a]).0
                    < (#[trigger] histories@[b]).0,
            forall|a: int|
                0 <= a < histories@.len() ==> (#[trigger] histories@[a]).1@ == client_events(
                    all.take(i as int),
                    histories@[a].0,
                ),
            forall|c: u16|
                client_events(all.take(i as int), c).len() > 0 <==> key_from(histories@, 0, c),
        decreases n - i,
    {
        proof {
            lemma_client_events_step(all, i as int);
        }
        let ghost before = all.take(i as int);
        let ghost after = all.take(i as int + 1);
        match parse_record(&records[i]) {
            Ok((cid, t)) => {
                let ghost hs0 = histories@;
                // find the client's group, or where it belongs
                let mut j: usize = 0;
                while j < histories.len() && histories[j].0 < cid.0
                    invariant
                        j <= histories@.len(),
                        forall|a: int| 0 <= a < j ==> (#[trigger] histories@[a]).0 < cid.0,
                    decreases histories@.len() - j,
                {
                    j = j + 1;
                }
                if j < histories.len() && histories[j].0 == cid.0 {
                    // the client already has a group: extend it
                    histories[j].1.push(t);
                    proof {
                        assert(forall|a: int|
                            0 <= a < hs0.len() && a != j ==> histories@[a] == hs0[a]);
                        assert(histories@[j as int].0 == cid.0);
                        assert(histories@[j as int].1@ == client_events(after, cid.0));
                        assert forall|c: u16|
                            client_events(after, c).len() > 0 <==> key_from(
                            histories@,
                            0,
                            c,
                        ) by {
                            if c == cid.0 {
                                assert(histories@[j as int].0 == c);
                            } else {
                                assert(client_events(after, c) == client_events(before, c));
                                if key_from(histories@, 0, c) {
                                    let a = choose|a: int|
                                        0 <= a < histories@.len() && (#[trigger] histories@[a]).0
                                            == c;
                                    assert(hs0[a].0 == c);
                                }
                                if key_from(hs0, 0, c) {
                                    let a = choose|a: int|
                                        0 <= a < hs0.len() && (#[trigger] hs0[a]).0 == c;
                                    assert(histories@[a].0 == c);
                                }
                            }
                        }
                    }
                } else {
                    // first transaction for this client: open a group where
                    // it keeps the keys ascending
                    let mut txs: Vec<Transaction> = Vec::new();
                    txs.push(t);
                    histories.insert(j, (cid.0, txs));
                    proof {
                        hs0.insert_ensures(j as int, histories@[j as int]);
                        assert(forall|a: int| 0 <= a < j ==> histories@[a] == hs0[a]);
                        assert(forall|a: int|
                            j < a < histories@.len() ==> histories@[a] == hs0[a - 1]);
                        assert(histories@[j as int].0 == cid.0);
                        // every pre-existing key differs from the new one
                        assert(forall|a: int|
                            j <= a < hs0.len() ==> cid.0 < (#[trigger] hs0[a]).0);
                        assert(!key_from(hs0, 0, cid.0));
                        assert(client_events(before, cid.0).len() == 0);
                        assert(client_events(after, cid.0) =~= seq![t]);
                        assert(histories@[j as int].1@ == client_events(after, cid.0));
                        assert forall|a: int, b: int|
                            0 <= a < b < histories@.len() implies (#[trigger] histories@[a]).0
                            < (#[trigger] histories@[b]).0 by {
                            if a < j && b > j {
                                assert(hs0[a].0 < hs0[b - 1].0 || a == b - 1);
                            }
                        }
                        assert forall|c: u16|
                            client_events(after, c).len() > 0 <==> key_from(
                            histories@,
                            0,
                            c,
                        ) by {
                            if c == cid.0 {
                                assert(histories@[j as int].0 == c);
                            } else {
                                assert(client_events(after, c) == client_events(before, c));
                                if key_from(histories@, 0, c) {
                                    let a = choose|a: int|
                                        0 <= a < histories@.len() && (#[trigger] histories@[a]).0
                                            == c;
                                    if a < j {
                                        assert(hs0[a].0 == c);
                                    } else {
                                        assert(hs0[a - 1].0 == c);
                                    }
                                }
                                if key_from(hs0, 0, c) {
                                    let a = choose|a: int|
                                        0 <= a < hs0.len() && (#[trigger] hs0[a]).0 == c;
                                    if a < j {
                                        assert(histories@[a].0 == c);
                                    } else {
                                        assert(histories@[a + 1].0 == c);
                                    }
                                }
                            }
                        }
                    }
                }
                proof {
                    assert forall|a: int|
                        0 <= a < histories@.len() implies (#[trigger] histories@[a]).1@
                        == client_events(after, histories@[a].0) by {
                        if histories@[a].0 != cid.0 {
                            assert(client_events(after, histories@[a].0) == client_events(
                                before,
                                histories@[a].0,
                            ));
                        }
                    }
                }
            },
            Err(_) => {
                // the record is invalid: ignore it
                proof {
                    assert(forall|c: u16|
                        client_events(after, c) == client_events(before, c));
                }
            },
        }
        i = i + 1;
    }
    proof {
        assert(all.take(n as int) =~= all);
        assert forall|c: u16| #[trigger] client_account(all, c) is Some implies key_from(
            histories@,
            0,
            c,
        ) by {
            crate::replay::lemma_account_iff_deposit(client_events(all, c));
        }
    }

    // replay the history of each client account and collect every account
    // that came to exist
    let mut out: Vec<AccountState> = Vec::new();
    let mut k: usize = 0;
    while k < histories.len()
        invariant
            k <= histories@.len(),
            forall|a: int, b: int|
                0 <= a < b < out@.len() ==> out@[a].client_id.0 < out@[b].client_id.0,
            out@.len() > 0 && k < histories@.len() ==> out@.last().client_id.0 < histories@[k as int].0,
            forall|a: int|
                0 <= a < out@.len() ==> {
                    &&& client_account(all, (#[trigger] out@[a]).client_id.0) == Some(
                        out@[a].model(),
                    )
                    &&& out@[a].bounded()
                },
            forall|c: u16| #[trigger]
                client_account(all, c) is Some ==> reports_client(out@, c) || key_from(
                    histories@,
                    k as int,
                    c,
                ),
        decreases histories@.len() - k,
    {
        let key = histories[k].0;
        proof {
            lemma_client_events_wf(all, key);
        }
        let ghost out0 = out@;
        match process_account_transactions(ClientId(key), &histories[k].1) {
            Some(st) => {
                proof {
                    assert(forall|a: int|
                        0 <= a < out0.len() ==> (#[trigger] out0[a]).client_id.0 < key);
                }
                out.push(st);
                proof {
                    assert forall|c: u16| #[trigger]
                        client_account(all, c) is Some implies reports_client(out@, c)
                        || key_from(histories@, k as int + 1, c) by {
                        if reports_client(out0, c) {
                            let a = choose|a: int|
                                0 <= a < out0.len() && (#[trigger] out0[a]).client_id.0 == c;
                            assert(out@[a].client_id.0 == c);
                        } else if key_from(histories@, k as int, c) {
                            let a = choose|a: int|
                                k <= a < histories@.len() && (#[trigger] histories@[a]).0 == c;
                            if a == k {
                                assert(out@[out0.len() as int].client_id.0 == c);
                            }
                        }
                    }
                }
            },
            None => {
                proof {
                    assert(client_account(all, key) is None);
                    assert forall|c: u16| #[trigger]
                        client_account(all, c) is Some implies reports_client(out@, c)
                        || key_from(histories@, k as int + 1, c) by {
                        if !reports_client(out@, c) && key_from(histories@, k as int, c) {
                            let a = choose|a: int|
                                k <= a < histories@.len() && (#[trigger] histories@[a]).0 == c;
                            assert(a != k);
                        }
                    }
                }
            },
        }
        k = k + 1;
    }
    out
}

} // verus!
