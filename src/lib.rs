//! A field of energy-emitting nodes that an agent discovers, links and draws
//! power from: chunked world generation, a degree-capped link graph with a
//! connectivity structure, an attachment tracker and a packet simulation.
//!
//! All quantities are integers: positions and distances are in world units,
//! probabilities in parts per million, time in milliseconds and energy in
//! thousandths of an energy unit.

pub mod geometry;
pub mod chance;
pub mod worldgen;
pub mod graph;
pub mod attach;
pub mod energy;
pub mod sim;
pub mod shop;
