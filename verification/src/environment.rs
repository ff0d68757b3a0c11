//! Levels, their tiles and the pictures they are drawn with.
pub mod autotiler;
pub mod texture_data;
pub mod tile_type;
pub mod level;
