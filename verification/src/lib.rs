//! Rendering of ordered, owned n-ary trees as textual diagrams with
//! box-drawing connectors.
//!
//! A [`tree::Tree`] is built bottom-up and then consumed exactly once by a
//! [`traverse::TreeIter`], a lazy depth-first walker that yields, for every
//! node, the node's value together with a branch path: one boolean per
//! ancestor level recording whether that level's node was the last child
//! among its siblings. [`render`] maps each such pair to one output line.

pub mod laws;
pub mod render;
pub mod traverse;
pub mod tree;
