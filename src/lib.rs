//! Connectivity checking and signal propagation for redstone circuits.
//!
//! The library builds a graph of ports and wires from a circuit description,
//! checks that signal power can reach every consumer, and simulates how
//! signal levels spread through the blocks of a single component.

pub mod geometry;
pub mod direction;
pub mod text;
pub mod circuit;
pub mod graph;
pub mod check;
pub mod sim;
pub mod netlist;
pub mod symmetry;
