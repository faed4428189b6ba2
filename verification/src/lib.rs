//! Near-duplicate search over image signatures.
//!
//! Signatures are fixed-length vectors of small signed integers.  Bucket keys
//! computed by a locality-sensitive hash prune the pairs worth comparing
//! ([`index`]), an exact cosine test accepts or rejects each candidate pair
//! ([`similarity`]), and accepted pairs are merged into groups of mutual
//! matches ([`shared`]).  The signatures of a run are kept by dense index in
//! an append-only store ([`store`]).
//!
//! Signatures are memoised between runs in a keyed table whose rows are
//! encoded and checked for staleness in [`database`]; [`extraction`] decides
//! when a cached signature serves.  [`cli`] turns the command line into the
//! plan of a run, and [`formatting`] writes matched paths out.
pub mod cli;
pub mod database;
pub mod extraction;
pub mod formatting;
pub mod index;
pub mod open_image;
pub mod shared;
pub mod similarity;
pub mod store;
