//! Inventories a directory of packaged mod archives, builds the directed
//! dependency graph among the declared mod identifiers, removes the edges
//! a two-hop path already implies, and renders the result as a plain-text
//! graph description.

pub mod archive;
pub mod export;
pub mod graph;
pub mod graphmap;
pub mod record;
