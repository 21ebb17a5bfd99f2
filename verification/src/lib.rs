//! An in-memory, path-addressed workspace for tile processing, and the binary
//! codec of the scalar grids that are stored in it.
//!
//! Every executable function carries a contract over a mathematical model of
//! its data: paths are sequences of names, a directory tree is a map from
//! names to nodes, a grid is a row-major sequence of cells, and an artifact is
//! a sequence of bytes.

pub mod error;
pub mod order;
pub mod path;
pub mod model;
pub mod tree;
pub mod grid;
pub mod codec;
pub mod laws;
pub mod stream;
pub mod capability;
pub mod memory;
pub mod import;
