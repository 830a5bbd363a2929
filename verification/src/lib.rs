//! Victor–Purpura spike-train distances over fixed-point timestamps.
//!
//! A spike train is an ordered sequence of event timestamps; the
//! Victor–Purpura distance between two trains is the minimum cost of
//! transforming one into the other with unit-cost insertions and deletions
//! and a time-shift cost proportional to the timing difference of matched
//! events, scaled by a temporal-sensitivity coefficient.
//!
//! All quantities are integers: timestamps are ticks, the coefficient is a
//! cost per tick, and `unit` is the cost of one insertion or deletion, so
//! that every distance is computed exactly. Callers working in real-valued
//! time pick a tick length and a cost unit and scale on the way in and out.

pub mod array3;
pub mod laws;
pub mod model;
pub mod spkd;

pub use array3::Array3;
pub use spkd::{calculate_pairwise_distances, calculate_spkd_impl, iterate_spiketrains};
