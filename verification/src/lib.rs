//! A verified patrol-route planner over a square grid city.
//!
//! Cells are blocks or weighted road segments; certain road cells are
//! intersections that a closed patrol tour must observe along one or both
//! axes. The library classifies intersections, builds a straight-line
//! visibility graph, computes distances back to the start cell, and runs a
//! branch-and-bound search for a minimal observing tour, emitted as a string
//! of unit moves.

pub mod grid;
pub mod moves;
pub mod oracle;
pub mod route;
pub mod search;
pub mod view;
pub mod watch;
