//! ICAO Field 15: the route of a flight plan.
//!
//! A route is a line of text such as
//! `N0456F340 LACOU5A LACOU UM184 CNA`. It is cut into tokens, and each token
//! becomes a point, a connector between points, or a change of speed and
//! level. Everything here is stated over the UTF-8 bytes of the text.

pub mod ascii;
pub mod elements;
pub mod grammar;
pub mod laws;
pub mod parser;
pub mod pass;
pub mod text;

pub use parser::Field15Parser;
pub use elements::{
    Altitude, Angle, Connector, Coordinate, Field15Element, Modifier, Point, Speed,
};
