//! Low-level building blocks for symbolization: a checked byte cursor,
//! LEB128 decoding, keyed binary searches, an order-restoring batch helper
//! and a parser for process memory maps.

pub mod decode;
pub mod leb128;
pub mod maps;
pub mod pod;
pub mod reader;
pub mod reorder;
pub mod search;

use vstd::prelude::*;

verus! {

/// A virtual address.
pub type Addr = u64;

} // verus!
