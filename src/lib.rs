//! Reconstruction of a bit-string from the unordered fragments it was cut
//! into, by two heuristics (a slot table and a dominance vote), with the
//! block-oriented input driver around them. Two small companions live beside
//! it: contest scoring records and minesweeper fields.

pub mod competition;
pub mod decimal;
pub mod dominance;
pub mod driver;
pub mod fragment;
pub mod minesweeper;
pub mod slots;
pub mod text;
