//! A software rasterizer: Bresenham line drawing and scanline polygon fill
//! (with optional holes, even-odd rule) over an in-memory pixel buffer.

pub mod color;
pub mod framebuffer;
pub mod line;
pub mod fill;
