//! Recover a slightly misremembered or misordered secret recovery phrase
//! by exhaustively generating plausible variants.
//!
//! The pieces, leaves first: [`spelling`] builds, for every word of a
//! fixed vocabulary, the list of vocabulary words within a bounded edit
//! distance of it; [`combinator`] turns an input phrase and that table
//! into a per-position plan and enumerates the Cartesian product of the
//! per-position choices lazily, by mixed-radix index arithmetic;
//! [`reading`] catalogs the ways an even-length word list is read back
//! in the wrong order; [`search`] composes combinations with readings
//! into one flat, numbered candidate stream and decides what each
//! outcome of an external validity oracle means for the search. The
//! oracle itself, and all input and output, live outside this crate.

pub mod combinator;
pub mod reading;
pub mod search;
pub mod spelling;
