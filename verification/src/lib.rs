//! Stake accounting for a cross-chain staking provider.
//!
//! Collateral locked on this chain backs validators of a remote consumer
//! chain. Every validator owns a pool of shares whose token value shrinks
//! with each slash; every delegator position records its shares and the
//! tokens it originally locked.
//!
//! [`state`] holds pools and positions with their arithmetic, [`ledger`]
//! keeps them together in order, [`contract`] holds the operations and
//! queries that act on a ledger, and [`invariants`] states what holds of
//! them all.

pub mod contract;
pub mod error;
pub mod invariants;
pub mod ledger;
pub mod math;
pub mod msg;
pub mod order;
pub mod state;
