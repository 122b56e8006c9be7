//! A fee-funded competition pool: entrants pay a fixed fee into escrow, an
//! oracle publishes validated leaderboards, and the pool is paid out by rank
//! or refunded when too few entrants joined by the deadline.
//!
//! The library holds the state machines and their rules. Moving assets,
//! checking signatures, reading the clock and persisting state are left to
//! the host, which performs the transfers that each operation hands back.

pub mod competition;
pub mod oracle;
pub mod factory;
