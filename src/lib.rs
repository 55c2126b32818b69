//! Data model of a tile-sheet labelling tool: a registry that ties labels to
//! 8x8 cells of an image, its text configuration, and the encoder that turns a
//! cell's pixels into two bit-planes of assembly source.

pub mod text;
pub mod codec;
pub mod order;
pub mod config;
pub mod registry;
pub mod raster;
pub mod editor;
