//! Core of an AI image upscaler: output naming and formats, seamless tiled
//! processing geometry, model catalogue helpers, and vector-tracing options.

pub mod upscaler;
pub mod status;
pub mod vectorize;
