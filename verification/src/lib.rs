//! LEPCC: Limited Error Point Cloud Compression.
//!
//! Codecs for the attributes of point clouds in the I3S formats: bit-stuffed
//! integer arrays, colors through colormaps, intensities, flag bytes with an
//! optional Huffman code, and the integer grid of quantized coordinates.
use vstd::prelude::*;

pub mod bit_math;
pub mod text;
pub mod types;
pub mod error;
pub mod bit_stuffer2;
pub mod common;
pub mod bit_mask;
pub mod blob;
pub mod intensity;
pub mod cluster_rgb;
pub mod lepcc_xyz;
pub mod huffman;
pub mod flag_bytes;
pub mod xyz_roundtrip;
pub mod api;
pub mod prelude;

pub use error::{LepccError, Result};
pub use types::{Byte, U16, U32, U64, I64, RGB, ErrCode, BlobType, FlatRgbSlice};
pub use api::{compress_rgb, compress_rgb_array, decompress_rgb, decompress_rgb_array, compress_intensity,
    decompress_intensity, compress_flag_bytes, decompress_flag_bytes, get_blob_type, get_blob_size,
    get_num_points};

verus! {

/// Version of the LEPCC format.
pub const VERSION_LEPCC: u32 = 1;

/// Version of the point blob format.
pub const VERSION_LEPCC_XYZ: u32 = 1;

/// Version of the color blob format.
pub const VERSION_LEPCC_RGB: u32 = 1;

/// Version of the intensity blob format.
pub const VERSION_LEPCC_INTENSITY: u32 = 1;

/// Version of the flag byte blob format.
pub const VERSION_LEPCC_FLAGBYTES: u32 = 1;

} // verus!
