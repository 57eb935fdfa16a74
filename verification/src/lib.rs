//! A verified core for a grid snake game: the tick-by-tick simulation
//! engine, food placement, the speed/timing controller, and the ordered
//! highscore store with its persisted byte format.
//!
//! Rendering, input capture and durable storage are external collaborators:
//! they hand plain values in and take plain values back.

pub mod codec;
pub mod game;
pub mod highscore;
pub mod utils;
