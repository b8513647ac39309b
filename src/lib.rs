//! A falling-sand cellular automaton: a fixed-size grid of cells, each empty
//! or holding one particle of some material, advanced one tick at a time.

pub mod grid;
pub mod laws;
pub mod material;
