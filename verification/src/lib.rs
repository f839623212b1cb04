//! BRP: a lossless image codec built on per-block range packing.

pub mod alphabet;
pub mod analysis;
pub mod bitio;
pub mod bits;
pub mod block_arg;
pub mod block;
pub mod channels;
pub mod context;
pub mod ctx_stream;
pub mod decode;
pub mod encode;
pub mod error;
pub mod file;
pub mod header;
pub mod image;
pub mod image_kind;
pub mod image_load;
pub mod lab;
pub mod predict;
pub mod rice;
pub mod stream;

pub use crate::alphabet::RemapChoice;
pub use crate::analysis::{analyze, Analysis, BlockInfo};
pub use crate::bitio::{BitReader, BitWriter};
pub use crate::block::{BlockGrid, BlockRect};
pub use crate::channels::plan as plan_channels;
pub use crate::channels::{ChannelMode, ChannelOptions, ChannelPlan, CodedIndices};
pub use crate::decode::{decode, decode_with, DecodeOptions, DEFAULT_MAX_IMAGE_BYTES};
pub use crate::encode::{encode, CoderChoice, EncodeOptions, FilterChoice};
pub use crate::error::BrpError;
pub use crate::header::{Header, FLAG_ALPHABET_MAPS};
pub use crate::image::RawImage;
pub use crate::predict::apply as apply_prediction;
pub use crate::predict::{unzigzag, zigzag, FilterLayout};
