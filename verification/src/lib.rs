//! Position-following configuration: account follow ratios, symbol tables,
//! and the byte layout of position messages.

pub mod assoc;
pub mod config;
pub mod entry;
pub mod matrix;
pub mod message;
pub mod ratio;
pub mod symbols;
pub mod text;

use vstd::prelude::*;

verus! {

/// Entry point for exercising a ratio table; it does nothing.
pub fn test_actable() {
}

} // verus!
