//! Verified logic of a manga translation tool: inpainting, saved API keys and
//! requests for images.
pub mod binary64;
pub mod codex;
pub mod credentials;
pub mod imaging;
pub mod inpainting;
pub mod lama;
pub mod pipeline;
pub mod raster;
