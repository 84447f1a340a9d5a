//! Verified core of an audio-reactive visualizer: the Game of Life grid,
//! overlay menu state, visualization cycling, glyph atlas layout and the
//! integer bookkeeping behind audio analysis.

pub mod grid;
pub mod components;
pub mod bands;
pub mod overlay;
pub mod cycle;
pub mod text;
pub mod cli;
pub mod visualizations;
pub mod analysis;
pub mod terrain;
pub mod audio;
pub mod render;
pub mod atlas;
