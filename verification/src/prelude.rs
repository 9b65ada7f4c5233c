//! The items most programs need.
pub use crate::error::{LepccError, Result};
pub use crate::types::{Byte, U16, U32, U64, I64, RGB, ErrCode, BlobType, FlatRgbSlice};
pub use crate::api::{compress_rgb, compress_rgb_array, decompress_rgb, decompress_rgb_array, compress_intensity,
    decompress_intensity, compress_flag_bytes, decompress_flag_bytes, get_blob_type, get_blob_size,
    get_num_points};
