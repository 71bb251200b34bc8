//! The state of a client account, renderable as one output line.

use vstd::prelude::*;
use vstd::string::StringExecFns;

use crate::amount::Amount;
use crate::amount::BALANCE_LIMIT;
use crate::engine::ClientId;
use crate::replay::AccountModel;
use crate::text::dec_digits;
use crate::text::dec_string;
use crate::text::digit_char;
use crate::text::digit_str;

verus! {

/// The final state of a client account.
#[derive(Copy, Clone, Eq, PartialEq, Structural, Debug)]
pub struct AccountState {
    /// Client this account belongs to.
    pub client_id: ClientId,
    /// Total undisputed funds.
    pub available: Amount,
    /// Total disputed funds.
    pub held: Amount,
    /// True exactly when a chargeback has frozen this account.
    pub locked: bool,
}

impl AccountState {
    /// The mathematical account this state represents.
    pub open spec fn model(self) -> AccountModel {
        AccountModel {
            available: self.available.0 as int,
            held: self.held.0 as int,
            locked: self.locked,
        }
    }

    /// Balances within the range any replayed history can produce; in
    /// particular their sum, the total, fits in `i128`.
    pub open spec fn bounded(self) -> bool {
        &&& -BALANCE_LIMIT <= self.available.0 <= BALANCE_LIMIT
        &&& -BALANCE_LIMIT <= self.held.0 <= BALANCE_LIMIT
        &&& -BALANCE_LIMIT <= self.available.0 + self.held.0 <= BALANCE_LIMIT
    }

    /// Renders this state as one output line,
    /// `client,available,held,total,locked`, each balance with exactly four
    /// decimal places. The reported total is never stored: it is derived,
    /// exactly `available + held`, as the contract states.
    pub fn output_line(&self) -> (r: String)
        requires
            self.bounded(),
        ensures
            r@ == dec_digits(self.client_id.0 as int) + seq![','] + amount_digits(
                self.available.0 as int,
            ) + seq![','] + amount_digits(self.held.0 as int) + seq![','] + amount_digits(
                self.available.0 + self.held.0,
            ) + seq![','] + bool_chars(self.locked),
    {
        let mut s = dec_string(self.client_id.0 as u128);
        s.append(",");
        s.append(amount_string(self.available.0).as_str());
        s.append(",");
        s.append(amount_string(self.held.0).as_str());
        s.append(",");
        let total = self.available.0 + self.held.0;
        s.append(amount_string(total).as_str());
        s.append(",");
        s.append(if self.locked { "true" } else { "false" });
        proof {
            reveal_strlit(",");
            assert(s@ =~= dec_digits(self.client_id.0 as int) + seq![','] + amount_digits(
                self.available.0 as int,
            ) + seq![','] + amount_digits(self.held.0 as int) + seq![','] + amount_digits(
                self.available.0 + self.held.0,
            ) + seq![','] + bool_chars(self.locked));
        }
        s
    }
}

/// The decimal rendering of a signed raw amount, four places past the
/// point.
pub open spec fn amount_digits(raw: int) -> Seq<char> {
    if raw < 0 {
        seq!['-'] + magnitude_digits(-raw)
    } else {
        magnitude_digits(raw)
    }
}

/// The decimal rendering of a non-negative raw amount: the whole part, a
/// point, and exactly four fraction digits.
pub open spec fn magnitude_digits(v: int) -> Seq<char> {
    dec_digits(v / 10000) + seq!['.'] + frac_digits(v % 10000)
}

/// Four fraction digits, zero-padded.
pub open spec fn frac_digits(f: int) -> Seq<char> {
    seq![
        digit_char(f / 1000),
        digit_char((f / 100) % 10),
        digit_char((f / 10) % 10),
        digit_char(f % 10),
    ]
}

/// The rendering of the lock flag.
pub open spec fn bool_chars(b: bool) -> Seq<char> {
    if b {
        "true"@
    } else {
        "false"@
    }
}

/// Writes a non-negative raw amount with four decimal places.
fn magnitude_string(v: u128) -> (r: String)
    ensures
        r@ == magnitude_digits(v as int),
{
    let mut s = dec_string(v / 10000);
    s.append(".");
    let f = v % 10000;
    s.append(digit_str(f / 1000));
    s.append(digit_str((f / 100) % 10));
    s.append(digit_str((f / 10) % 10));
    s.append(digit_str(f % 10));
    proof {
        reveal_strlit(".");
        assert(s@ =~= magnitude_digits(v as int));
    }
    s
}

/// Writes a signed raw amount with four decimal places.
pub(crate) fn amount_string(raw: i128) -> (r: String)
    requires
        -BALANCE_LIMIT <= raw <= BALANCE_LIMIT,
    ensures
        r@ == amount_digits(raw as int),
{
    if raw < 0 {
        let mut s = String::from_str("-");
        let m = magnitude_string((-raw) as u128);
        s.append(m.as_str());
        proof {
            reveal_strlit("-");
            assert(s@ =~= amount_digits(raw as int));
        }
        s
    } else {
        magnitude_string(raw as u128)
    }
}

} // verus!
