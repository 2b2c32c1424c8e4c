//! Layout, alignment and ffmpeg command logic for rebuilding a StreamYard cloud
//! master out of high-resolution local tracks.
pub mod appearance;
pub mod chrome;
pub mod clock;
pub mod colour;
pub mod components;
pub mod composer;
pub mod frame;
pub mod geometry;
pub mod layout;
pub mod mask;
pub mod matching;
pub mod media;
pub mod model;
pub mod names;
pub mod offset;
pub mod order;
pub mod plan;
pub mod probe;
pub mod sampling;
pub mod sync;
pub mod text;
pub mod tiles;
pub mod timeline;
pub mod wide;
pub mod windows;
