//! Decides in well under a millisecond whether an image is likely to hold text.
//!
//! The verified core: a DC-only JPEG thumbnail decoder, the integer kernels of the
//! scoring pipeline (binarization, transition and coverage counts), the pixel
//! samplers and the format sniffing / thumbnail preparation of the decode path.

pub mod config;
pub mod simd;
pub mod jpeg_dc;
pub mod score;
pub mod sample;
pub mod decode;
pub mod codecs;

pub use config::TriageMode;
pub use jpeg_dc::{decode_dc_thumbnail, DcThumbnail};
pub use decode::{decode_thumbnail, GrayImage};
