//! Two-dimensional cellular automata over toroidal grids: rule tables and two
//! interchangeable simulation engines, with their behaviour stated and proved.
//!
//! - [`rule`]: rule tables, how they are made, read, written and made
//!   symmetric.
//! - [`symmetry`] and [`digits`]: neighbourhoods as numbers, and the
//!   symmetries of the square acting on them.
//! - [`powers`]: which table lengths belong to one number of states only.
//! - [`lattice`]: the grid and one step of a rule, as mathematics.
//! - [`automaton`]: the flat engine and the tiled engine, their step
//!   iterators, starting patterns and scaled snapshots.
//! - [`codec`] and [`sampling`]: what is taken on trust from the compression
//!   and random number crates.
pub mod automaton;
pub mod codec;
pub mod digits;
pub mod lattice;
pub mod powers;
pub mod rule;
pub mod sampling;
pub mod symmetry;
