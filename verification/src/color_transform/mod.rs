//! Programs of linear transforms between the channels of an image, applied
//! before compression (for instance to separate luma from chroma) and undone
//! after decompression.
use vstd::prelude::*;

pub mod inverse;
pub mod program;
pub mod transform;

pub use self::program::{
    ChannelTransform, ChannelTransformBuilder, ChannelTransformFactor, ColorTransformProgram,
};
pub use self::transform::{interleaved_to_planar, planar_to_interleaved};


verus! {
} // verus!
