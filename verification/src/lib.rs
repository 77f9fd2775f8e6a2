//! Mumbling v1 compressed bitmap format.
//!
//! A bitmap over `u32` positions splits them into containers of 256. A container
//! with fewer than 32 positions lists them, one byte each; any other is a bitset
//! of 32 bytes. Serialized, one descriptor byte per container says which, and the
//! descriptors are packed by patched frame-of-reference coding ([`pfor`] on top
//! of [`bit_packing`]).

pub mod bit_packing;
pub mod bitmap_laws;
pub mod bits;
pub mod codec_laws;
pub mod framing;
pub mod laws;
pub mod model;
pub mod mumbling;
pub mod outside;
pub mod page;
pub mod page_laws;
pub mod pfor;
pub mod reader;
mod store;
pub mod wire;

pub use crate::mumbling::{MumblingBitmap, MumblingReader};
