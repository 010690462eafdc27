//! Plans how to cut raw tapes into standard-size segments.
//!
//! Given raw tape-length entries, the planner validates them, then searches
//! depth-first for one assignment of standard-size segments per tape, drawn
//! from two fixed catalogs, whose global class-A : class-B count ratio
//! reduces to an accepted value, and renders the outcome as styled display
//! lines. Lengths are carried in whole millimeters, so the 0.1 m catalog
//! grid is exact and the stated sub-millimeter tolerance becomes equality;
//! raw entries round half up to the millimeter before the search.

pub mod numfmt;
pub mod ranges;
pub mod ratio;
pub mod model;
pub mod search;
pub mod parse;
pub mod present;
