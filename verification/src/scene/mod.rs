//! Scene-level logic: animation playback.

pub mod animation;
pub mod graph;
