//! Accounting and pricing core of a constant-product automated market maker.
//!
//! The library keeps paired-asset reserves for a set of trading pools, mints
//! and burns proportional ownership shares against those reserves, and
//! computes deterministic exchange rates for swaps under a constant-product
//! invariant with a proportional fee. All arithmetic is integer-only and
//! every operation is an all-or-nothing transition: it either returns a fully
//! updated state or fails with the state unchanged.

pub mod dex;
pub mod error;
pub mod ledger;
pub mod lex;
pub mod math;
pub mod msg;
pub mod pricing;
pub mod queries;
pub mod state;
