//! A proof-of-stake staking core: bonded-balance ledgers with unlocking
//! schedules, validator/nominator preference registries, per-era elections
//! with stake exposure snapshots, reward distribution, and deferred slashing.
//!
//! The whole state lives in `state::Staking`; every operation is an atomic
//! transition on it that returns a typed error and leaves the state
//! untouched when validation fails. The well-formedness invariant ties each
//! ledger's `total` to its active stake plus its unlocking queue, and each
//! stored exposure's `total` to its own stake plus the nominator
//! contributions.

pub mod store;
pub mod types;
pub mod state;
pub mod ledger_ops;
pub mod registry;
pub mod slashing;
pub mod election;
pub mod rewards;
pub mod laws;
pub mod rng;
pub mod fixtures;
