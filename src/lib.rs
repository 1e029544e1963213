//! Procedural terrain generation for tile maps and a wildlife simulation that
//! runs on the generated map, with every step stated and proved in integers.
pub mod bases;
pub mod blend;
pub mod fractal;
pub mod generate;
pub mod geom;
pub mod grid;
pub mod landscape;
pub mod ley;
pub mod masks;
pub mod objects;
pub mod rng;
pub mod template;
pub mod units;
