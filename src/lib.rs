//! Matchmaking, relay and move rules for a two-player hex-grid pursuit game:
//! one player moves a mouse towards the border, the other builds walls.
pub mod board;
pub mod protocol;
pub mod bot;
pub mod rooms;
pub mod setup;
pub mod error;
