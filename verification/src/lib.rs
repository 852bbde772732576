//! Air-traffic data structures with machine-checked contracts: a parser for
//! the route field of ICAO flight plans, and an algebra of closed intervals.

pub mod data;
pub mod intervals;
