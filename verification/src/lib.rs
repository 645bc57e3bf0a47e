//! Core logic of a Spotify web client: a cached, incrementally loaded
//! catalog of the user's saved tracks, and a collage composer that
//! arranges album art by color in a near-square grid.

pub mod app_state;
pub mod catalog;
pub mod collage;
pub mod color_analysis;
pub mod image_io;
pub mod models;
pub mod raster;
pub mod storage;
