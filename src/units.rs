//! The wildlife simulation: species, the tile map it runs on, and the per-tick
//! systems. Time counts in milliseconds and distances in thousandths of a tile
//! (a tile is 1000). Satiation and food stocks count in millionths of a unit and
//! their rates in thousandths per second, so a rate times a tick is an exact
//! number of millionths: nothing is lost to rounding however short the tick.
pub mod species;
pub mod world;
pub mod bridge;
pub mod motion;
pub mod creature;
pub mod forage;
pub mod sim;
