//! Persistent accounting engine for a token-staking protocol.
//!
//! The crate models the storage layer of a staking pool: per-asset pool
//! aggregates, per-staker reward records, a registry of bonded stakers, a
//! time-ordered unbonding queue with paginated browsing and an atomic drain,
//! and a versioned balance map that answers "value as of version V" queries.

pub mod bytes;
pub mod omap;
pub mod snapshot;
pub mod state;
pub mod laws;
