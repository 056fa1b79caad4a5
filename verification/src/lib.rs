//! Minimal perfect hashing of a fixed word list by row displacement.
//!
//! Two cheap sub-hashes place every word in a sparse two-dimensional table.
//! The rows of that table are then shifted onto a one-dimensional array of
//! exactly as many slots as there are words, so that no two words share a
//! slot.  The shifts form the row lookup table of the resulting hash.

pub mod decimal;
pub mod elc_algorithm;
pub mod error;
pub mod generate;
pub mod hash_algorithm;
pub mod laws;
pub mod one_d_packed_array;
pub mod permutation;
pub mod rlt;
pub mod two_d_array;
pub mod word_list;

pub use elc_algorithm::ElcAlgorithm;
pub use error::{Error, Kind, KindView};
pub use generate::{generate_hash, HashClosure, HashData};
pub use hash_algorithm::HashAlgorithm;
pub use word_list::WordList;
