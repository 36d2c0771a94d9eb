//! A falling-sand cellular automaton: a grid of material cells, stored in
//! square blocks, that advances one synchronous tick at a time.
//!
//! `game` holds the block storage and the tick, `cells` the materials, their
//! rules and the spawners.  `grid` is the mathematical model that the
//! contracts speak of, `rules` says what one rule evaluation and one tick
//! compute on that model, and `laws` proves what follows from them.
//! `driver` holds what a program that shows the grid decides: when a tick
//! is due, when to stop, and where a cell goes on the screen.

pub mod cells;
pub mod driver;
pub mod game;
pub mod grid;
pub mod laws;
pub mod rules;
