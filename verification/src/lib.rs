//! BC1, BC3, BC4 and BC5 texture block encoding, decoding and endpoint refinement.
use vstd::prelude::*;

pub mod alpha;
pub mod bits;
pub mod channels;
pub mod color;
pub mod decode;
pub mod encode;
pub mod gpu;
pub mod image;
pub mod refine;
pub mod types;
pub mod wide;

pub use decode::{decode, decode_into};
pub use encode::{encode, encode_blocks, encode_into};
pub use refine::refine;
pub use types::{Error, Format, Quality};

verus! {

} // verus!
