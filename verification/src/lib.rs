//! Compact storage of a position history sampled once per minute.
//!
//! A position is quantized to a 43-bit Z-order code ([`bsp`]), each code is
//! stored as a signed-magnitude delta from the one before it ([`delta`]), and
//! runs of deltas are packed into 64-bit words ([`simple8b`]). [`db`] holds the
//! builder that drives the three over a series and the reader that replays it.

pub mod bsp;
pub mod db;
pub mod delta;
pub mod error;
pub mod simple8b;
