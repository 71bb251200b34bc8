//! Replays ordered logs of per-client monetary events (deposits,
//! withdrawals and the dispute lifecycle) into final account balances.
//!
//! The core is a per-account state machine (`engine`, with its
//! mathematical model in `replay`); `input` reads the delimited text
//! format into typed events, and `account_state` renders results.

pub mod account_state;
pub mod amount;
pub mod engine;
pub mod input;
pub mod replay;
pub mod text;
