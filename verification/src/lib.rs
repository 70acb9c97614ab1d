//! An indexed regular-expression grep core.
//!
//! The library precomputes a byte-level n-gram inverted index over text
//! files, then answers regex queries by translating the pattern into a
//! boolean tree over n-grams, pruning candidate `(file, line)` positions
//! with that tree, and leaving final match confirmation to the caller.

use vstd::prelude::*;

pub mod assoc;
pub mod builder;
pub mod codec;
pub mod config;
pub mod compress;
pub mod data;
pub mod encode;
pub mod error;
pub mod index;
pub mod range;
pub mod search;
pub mod symbols;

verus! {

} // verus!
