//! Matching core of a trading venue.
//!
//! Orders are validated when they are built ([`orderutils`]), rest in
//! price-level queues owned by the order book of their instrument
//! ([`orderbook`]), and reach their book through a placer ([`placement`]).
//! A book matches by price-time priority; what that means is defined over
//! plain sequences in [`matching`], and what follows from it is proved in
//! [`soundness`], [`guarantees`], [`priority`], [`conservation`] and
//! [`spread`].

pub mod assets;
pub mod conservation;
pub mod decimal;
pub mod guarantees;
pub mod marketdata;
pub mod matching;
pub mod messaging;
pub mod orderbook;
pub mod orderutils;
pub mod placement;
pub mod priority;
pub mod soundness;
pub mod spread;
pub mod trade;
