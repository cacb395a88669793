//! Motion-JPEG client core: frame reassembly from an arbitrarily chunked byte
//! stream, the block-mode decode protocol, the aligned-allocation header
//! layout, and clipped block rendering. Every function here is verified.

pub mod marker;
pub mod reassembler;
pub mod split;
pub mod jpeg;
pub mod session;
pub mod ledger;
pub mod words;
pub mod shim;
pub mod render;
pub mod driver;
