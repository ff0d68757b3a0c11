//! What the screen shows apart from the level: the game clock.
pub mod game_clock;
