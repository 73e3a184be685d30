//! Verified persistent data layer for a point-of-sale system.
//!
//! The [`store::Store`] owns the product catalog, the singleton settings row,
//! the sales ledger with its line items, and derives analytics from them.
//! Snapshots serialise the whole store to bytes and back, so a caller can
//! persist it, ship it across a text boundary, or restore it with a backup of
//! the previous contents.
//!
//! Monetary amounts and quantities are fixed-point values counted in
//! thousandths of a unit, so `2500` stands for `2.5`; calendar dates are day
//! numbers and times of day are seconds since midnight.

pub mod analytics;
pub mod catalog;
mod clock;
pub mod codec;
pub mod data;
pub mod email;
pub mod sales;
pub mod settings;
pub mod snapshot;
pub mod store;
