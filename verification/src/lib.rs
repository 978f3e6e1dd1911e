//! A payment-dispute engine: per-account state machines that apply deposits,
//! withdrawals, disputes, resolves and chargebacks, and a dispatcher that
//! shards one event sequence by client id.
//!
//! All money is fixed-point: an integer count of ten-thousandths of a
//! currency unit, so every quantity has at most four fractional digits.

pub mod client;
pub mod ledger;
pub mod processor;
pub mod state;
pub mod theorems;
pub mod transaction;
