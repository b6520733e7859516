//! Cellular automata on a lattice without bounds, and a dense grid advanced
//! by a stencil.
//!
//! The automata are birth/survival automata: [`rules`] reads their rules from
//! `B<digits>/S<digits>` notation, [`cell_set`] holds the live cells as a
//! sparse set, and [`life`] computes the next generation in two ways that are
//! proved to agree. [`automaton`] puts a set, a rule and a run state
//! together. [`grid`] is a grid of fixed size with two buffers, whose cells a
//! caller's kernel renews from their neighbourhoods.

pub mod automaton;
pub mod cell;
pub mod cell_set;
pub mod grid;
pub mod life;
pub mod rules;
pub mod tally;
