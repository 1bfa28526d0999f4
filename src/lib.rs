//! A toroidal, multi-state 3D cellular automaton: a cube of cells that evolve tick by tick
//! under birth and survival rules over a 6- or 26-cell neighbourhood, with every cell's count
//! of fully alive neighbours kept exact from tick to tick.

pub mod cell;
pub mod colour_method;
pub mod engine;
pub mod model;
pub mod multi_dimensional;
pub mod multi_threaded;
pub mod neighbours;
pub mod render;
pub mod rule;
pub mod single_threaded;
pub mod utilities;
