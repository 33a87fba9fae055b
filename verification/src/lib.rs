//! Core of a terminal inspector for columnar datasets: a windowing engine
//! that lets a bounded viewport scroll over data larger than the screen,
//! a connectivity-graph analyzer for sparse coordinate matrices, and the
//! state machine that drives the graph views.  All I/O, rendering and file
//! handling live outside this crate; everything here is pure state and
//! arithmetic, verified with Verus.

pub mod cli;
pub mod coo;
pub mod graph;
pub mod sample;
pub mod schema;
pub mod view;
pub mod window;
