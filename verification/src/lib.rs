//! A lossless codec for small indexed-color sprite sheet images.
//!
//! An image is a declared width together with a row-major buffer of
//! RGBA [`Pixel`]s. Encoding palettizes the distinct non-background colors
//! in first-seen order and run-length compresses runs of the background
//! (all-zero) pixel; decoding rebuilds the image from the byte stream and
//! rejects every malformed input with a typed error.
//!
//! The wire format is generic over two unsigned field widths: one for the
//! image dimensions and one for palette identifiers (the [`WireUint`]
//! trait, implemented for `u8`, `u16` and `u32`).

pub mod bytes_wrapper;
pub mod codec;
pub mod correctness;
pub mod format;
pub mod pixel;
pub mod wire;

pub use bytes_wrapper::BytesWrapper;
pub use codec::Image;
pub use format::CodecError;
pub use pixel::Pixel;
pub use wire::WireUint;
