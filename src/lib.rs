//! Finds the quoted file names that C-family sources name in their directives, and builds
//! the graph of the files that a root file reaches through them.

pub mod laws;
pub mod parser;
pub mod paths;
pub mod walker;
