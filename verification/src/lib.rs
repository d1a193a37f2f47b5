//! Small, independent utility modules: a packed fixed-length bitmap over
//! 128-bit words, argsort / permutation helpers, an order-indexed map,
//! big-endian byte codecs, and a few thin value wrappers.

pub mod arg_sort;
pub mod binary_io;
pub mod bitmap;
pub mod compress;
pub mod const_info;
pub mod download;
pub mod dyn_error;
pub mod fastrand_ext;
pub mod order_map;
pub mod wrapper;

pub use arg_sort::{apply_order, arg_sort};
pub use binary_io::{
    be_bytes_i64, be_bytes_u16, be_bytes_u32, be_bytes_u64, frame_len16, frame_len32, parse_len16,
    parse_len32, read_be_i64, read_be_u16, read_be_u32, read_be_u64,
};
pub use bitmap::{Bitmap, BitmapIter};
pub use compress::{effective_cap, fits_area, CompressPlan, Encoding};
pub use const_info::{TargetArch, TargetSystem};
pub use download::{choose_download_method, DownloadMethod};
pub use dyn_error::{GenericError, ToGenericError};
pub use fastrand_ext::{insert_fresh, insert_randomized};
pub use order_map::{order_map, order_with, OrderMap};
pub use wrapper::{Keyed, ToKeyed};
