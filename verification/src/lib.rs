//! A verified core for the set covering problem: a universe of named
//! elements, a family of subsets held as a dense boolean incidence matrix,
//! an exact cost function over candidate covers, and a river formation
//! dynamics search engine that erodes and deposits an integer altitude
//! landscape over the subsets while looking for a small cover.

pub mod args;
pub mod read_input;
pub mod rfd;
pub mod set;
pub mod subset_cover;
