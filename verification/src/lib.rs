//! A verified codec and editor for uncompressed 24-bit Windows BMP images.
//!
//! The crate decodes a raw byte buffer into a structured image (header plus
//! column-major pixel grid), supports in-place editing of the grid, and
//! re-encodes the image back to bytes.  Decoding and encoding are proved to
//! be mutually inverse on well-formed inputs.

pub mod header;
pub mod image;
pub mod le;
pub mod pixel;
