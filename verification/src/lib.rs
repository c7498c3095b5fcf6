//! Verified game rules for the Omarchy arcade collection.
pub mod arcade;
pub mod audio;
pub mod chase;
pub mod freeski;
pub mod rng;
pub mod twenty48;
pub mod twenty48_storage;
pub mod minesweeper;
pub mod minesweeper_storage;
