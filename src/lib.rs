//! A grid territory-capture game: the board model, its textual format, and an
//! autonomous planner that decides one move per turn for a player.
pub mod board;
pub mod bot;
pub mod geometry;
pub mod metadata;
pub mod model;
pub mod random;
pub mod render;
pub mod round_trip;
pub mod text;
