//! A directory and signaling registry.
//!
//! The library keeps three keyed stores and a transient event log behind a
//! single [`pallet::Pallet`] value: a write-once bidirectional binding between
//! account identities and fixed-width nicknames, a per-owner contact book
//! keyed by peer address, and a stateless signaling channel that records
//! offer/answer notifications. Every operation is verified: its contract
//! states exactly which entries change, which stay, and which error is
//! returned on which inputs.

pub mod assoc;
pub mod laws;
pub mod pallet;
pub mod types;
