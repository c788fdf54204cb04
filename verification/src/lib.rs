//! Renders a directory snapshot as a text tree, in the manner of the common
//! `tree` shell utility: one line per entry, box-drawing connectors, with
//! directories listed before files and an optional filter that skips entries
//! whose name starts with a dot.
//!
//! The library works on plain in-memory values: a [`node::Node`] describes one
//! entry of a snapshot (a file, a directory with its children, or a directory
//! whose contents could not be listed), and rendering produces the output
//! lines as `String`s. Reading the filesystem and printing are left to the
//! caller.

pub mod errors;
pub mod listing;
pub mod node;
pub mod order;
pub mod render;
