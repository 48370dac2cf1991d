//! Departure boards for nearby public transit.
//!
//! A transit-data provider answers a "what is near this point" query with
//! routes, each holding itineraries, each of which may name the closest stop
//! and list the departures scheduled there. [`aggregation::aggregate`] turns
//! such an answer into display rows: one row per route, stop and direction,
//! in the order in which the provider first mentions them, each with its
//! departures sorted by departure time.
//!
//! Every function in this crate is verified with Verus against the contract
//! written on it. The one thing taken on trust is that `serde_json::Value`,
//! which [`models::Route`] carries and nothing here looks into, may be
//! treated as an opaque type.
//!
//! - [`models`]: the provider's answer.
//! - [`display`]: the rows of the board.
//! - [`grouping`]: what the board is for a given answer, as mathematics, and
//!   what follows from that.
//! - [`sorting`]: the stable sort of a row's departures.
//! - [`aggregation`]: the functions that build the board.

pub mod aggregation;
pub mod display;
pub mod grouping;
pub mod models;
pub mod sorting;
