use vstd::prelude::*;

pub mod bitstr;
pub mod render;
pub mod utf8chunks;

pub use bitstr::{BitStr, BitStrMut, Utf8Error};
pub use render::write_escaped_str;
pub use utf8chunks::{Utf8Chunk, Utf8ChunksIter};

verus! {

} // verus!
