//! sea2d: the logic of a 2D pixel-art dungeon game whose levels are made by
//! wave function collapse, with its contracts proved by Verus: level
//! generation, the tile levels and their tiles, the player's and enemies'
//! decisions, the game's states, the clock, and the network protocol.
pub mod display;
pub mod entities;
pub mod environment;
pub mod game;
pub mod networking;
pub mod random;
pub mod text;
pub mod wfc;
