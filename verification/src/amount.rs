//! Monetary quantities with exact four-decimal-place precision.

use vstd::prelude::*;

verus! {

/// Number of raw units in one whole currency unit: amounts carry four
/// decimal places and are stored exactly as a count of ten-thousandths.
pub const AMOUNT_SCALE: i128 = 10_000;

/// Largest magnitude, in raw ten-thousandths, that a single parsed
/// transaction amount may carry: fourteen integer digits and four
/// fraction digits.
pub const MAX_AMOUNT_RAW: i128 = 999_999_999_999_999_999;

/// Bound on the magnitude of any balance the ledger can reach: each event
/// moves each balance by at most `MAX_AMOUNT_RAW` twice over, and a history
/// holds at most `usize::MAX` events, so balances stay below this limit
/// (2^125) and all balance arithmetic fits in `i128`.
pub const BALANCE_LIMIT: i128 = 0x2000_0000_0000_0000_0000_0000_0000_0000;

/// A signed monetary quantity with four decimal places, held exactly as a
/// count of ten-thousandths of the currency unit.
#[derive(Copy, Clone, Debug, PartialEq, Eq, Structural)]
pub struct Amount(pub i128);

impl Amount {
    /// An amount small enough that balances summed over any event history
    /// fit in `i128`.
    pub open spec fn wf(self) -> bool {
        -MAX_AMOUNT_RAW <= self.0 <= MAX_AMOUNT_RAW
    }
}

} // verus!
