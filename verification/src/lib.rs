//! Dependency trees read from a depth-prefixed text dump, and the discrete
//! part of their radial layout.
pub mod text;
pub mod package_id;
pub mod model;
mod arena;
mod ranking;
pub mod parser;
pub mod laws;
pub mod dependency_tree;
pub mod color;
pub mod satellites;
pub mod drawing;
