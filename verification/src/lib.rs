//! Tessera: seam-free tiled upscaling for large images.
//!
//! The engine splits an image into overlapping tiles, runs each through a
//! pluggable [`backend::Upscaler`], and cross-fades the results back together.
//! Tiling is what makes gigapixel scans possible at all, and the cross-fade is
//! what keeps the tile grid from showing in the result.
//!
//! Everything that decides where a pixel goes, what it is blended with and when
//! a run is refused is proved here. Floating-point arithmetic is handed in by the
//! caller as plain functions: how weighted pixels are summed, how a byte becomes
//! a model's number, how a coordinate is divided.

pub mod agree;
pub mod axis;
pub mod backend;
pub mod blend;
pub mod desktop;
pub mod models;
pub mod onnx;
pub mod pass;
pub mod pipeline;
pub mod planes;
pub mod preview;
pub mod raster;
pub mod reconstruct;
pub mod resize;
pub mod scale;
pub mod seams;
pub mod sidecar;
pub mod sink;
pub mod text;
pub mod tiling;
pub mod world;

pub use backend::{ResampleBackend, Upscaler};
pub use blend::Blender;
pub use pass::{Error, UpscaleOptions};
pub use pipeline::{accumulator_bytes, upscale_tiled, upscale_to_sink, upscale_to_target};
pub use raster::{Rgba, RgbaImage};
pub use scale::ScaleStrategy;
pub use sink::{MemorySink, RowSink};
pub use tiling::TilePlan;
pub use world::WorldFile;
