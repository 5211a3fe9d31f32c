//! An ordered key-value collection kept in a height-balanced binary search
//! tree. The nodes live in one growable arena and refer to each other by
//! their positions in it.
//!
//! - `order`: the order on keys and its laws.
//! - `shape`: nodes, and what it means for an arena to hold a balanced
//!   search tree.
//! - `tree`: the tree itself, heights and balance factors.
//! - `rotate`, `rebalance`, `insert`: insertion and what restores the
//!   balance after it.
//! - `growth`: insertion as a function on shapes, which `insert` follows.
//! - `cursor`: the walk in ascending order of the keys.
//! - `laws`: what holds of every well-formed tree.
//! - `render`: a copy of the tree in the form in which it is drawn.
//! - `sample`: random entries, and trees filled with them.

pub mod cursor;
pub mod growth;
pub mod insert;
pub mod laws;
pub mod order;
pub mod rebalance;
pub mod render;
pub mod rotate;
pub mod sample;
pub mod shape;
pub mod tree;

pub use cursor::TreeIter;
pub use render::Marker;
pub use render::NodeForRendering;
pub use shape::Layout;
pub use shape::Node;
pub use tree::basic_tree;
pub use tree::Tree;
