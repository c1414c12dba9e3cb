//! A configurable payment-splitting router.
//!
//! An owner registers a table of destinations, each with a share expressed in
//! basis points (1/100 of a percent; 10000 basis points = 100%). A routing
//! operation then splits an incoming amount across the stored destinations,
//! producing the exact list of transfers the hosting ledger must execute.
//!
//! The crate is organised around three pieces:
//! - a keyed configuration store, one router per owner ([`store`]);
//! - a validator that accepts or rejects a candidate destination table
//!   ([`validate`]);
//! - a distributor that computes the per-destination amounts ([`route`]).

pub mod config;
pub mod errors;
pub mod route;
pub mod store;
pub mod validate;
