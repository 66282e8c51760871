//! Edge detection on uncompressed 24-bit bitmap buffers: header field
//! extraction, greyscale reduction and a Sobel gradient-magnitude filter.

pub mod header;
pub mod sobel;
pub mod greyscale;
pub mod pipeline;
