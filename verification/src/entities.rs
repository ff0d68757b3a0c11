//! The player, the enemies and the camera.
pub mod animation;
pub mod camera;
pub mod enemy;
pub mod player;
pub mod point;
pub mod pursuit;
