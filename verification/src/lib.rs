//! A minimal in-memory key-value command server core.
//!
//! Requests arrive in a length-prefixed, RESP-like framing and are decoded
//! into typed commands; commands run against a registry of numbered
//! databases holding scalar strings and double-ended lists. Blocking pops
//! are exposed as a polled step function so that the caller owns the clock
//! and the sleeps.

use vstd::prelude::*;

pub mod command;
pub mod execute_cmd;
pub mod laws;
pub mod database;
pub mod resp;
pub mod utils;

verus! {

/// Largest database index a SELECT may name.
pub const MAX_DATABASES: u8 = 15;

/// Largest number of candidate keys a blocking pop may watch.
pub const MAX_KEYS: usize = 5;

/// Interval, in milliseconds, between polls while a blocking pop waits.
pub const POLL_INTERVAL_MILLIS: u64 = 100;

} // verus!
