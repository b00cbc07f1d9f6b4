//! Judge and instance generator for a graph-traversal puzzle with a
//! palette array, a signal buffer and an ordered list of targets.

pub mod generator;
pub mod geometry;
pub mod instance;
pub mod judge;
pub mod program;
pub mod text;
pub mod union_find;
