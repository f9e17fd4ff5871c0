//! Delta encoding of video frames for low-resolution playback.
//!
//! A video is handed over as its decoded frames. The first frame fixes a small
//! target grid; every frame is resized to that grid with a nearest-neighbour
//! filter and its colours are quantized; each quantized frame is then compared
//! with the one before it, and only the pixels that changed are kept.

pub mod change_map;
pub mod delta;
pub mod dimensions;
pub mod process;
pub mod quantize;
pub mod raster;
