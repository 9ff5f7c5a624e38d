//! Suffix arrays of byte strings, with exact-pattern queries over them.
//!
//! The end of the string counts as a terminator smaller than every byte, so the
//! suffix array of a string of length `n` is a permutation of `0..=n`.

use vstd::prelude::*;

pub mod bucket;
pub mod construct;
pub mod lex;
pub mod pack;
pub mod sa;
pub mod search;

pub use sa::{SaError, SuffixArray};
