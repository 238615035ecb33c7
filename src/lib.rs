//! Graph layout and spectral bisection.
//!
//! Coordinates are fixed-point integers, adjacency weights are unsigned
//! integers, and real numbers produced by a numerical solver enter as
//! IEEE-754 binary32 bit patterns, so that every rule here is checked
//! exactly.
pub mod graph;
pub mod layout;
pub mod spectral;
pub mod spring;
