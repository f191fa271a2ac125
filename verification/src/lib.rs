//! A mesh of points in space: a store of points, a graph that connects the
//! points that lie near each other, the pruning of points that nothing is
//! connected to, and the relaxation of points towards their neighbours.
//!
//! The library never computes with coordinates. It keeps every scalar as the
//! IEEE-754 encoding of its value, orders encodings where it has to compare
//! (see [`binary64`]), and leaves all arithmetic to functions that its
//! callers pass in. What it proves is everything else: which pairs are
//! connected, that the graph stays symmetric and within the store, how
//! indices move when points are removed, and which bytes a cloud is stored
//! as.

pub mod binary64;
pub mod commands;
pub mod creation;
pub mod error;
pub mod graph;
pub mod laws;
pub mod layout;
pub mod mesh;
pub mod point;
