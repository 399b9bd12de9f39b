//! Accounting core of a multi-asset lending platform.
//!
//! A [`cluster::Cluster`] is a single-asset, interest-bearing reserve that
//! issues supply shares and tracks debt shares; a [`position::Position`]
//! records one account's share holdings across many clusters; and
//! [`market::Lattic3`] composes clusters and positions into multi-asset
//! operations gated by a collateralization health check.
//!
//! All quantities are fixed-point decimals ([`dec::Dec`]) with checked
//! arithmetic and a single rounding rule (round-half-to-even), so every
//! result is bit-reproducible. Every state-changing operation either
//! succeeds with the documented effect or fails with a [`error::LendError`]
//! and leaves the state untouched.

pub mod cluster;
pub mod dec;
pub mod error;
pub mod market;
pub mod position;
pub mod value_map;
