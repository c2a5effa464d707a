//! Spatial data structures.
//!
//! Two recursive partition trees for storing and querying items by their
//! position:
//!
//! * [`Quadtree`], which partitions two-dimensional space, and
//! * [`Octree`], which partitions three-dimensional space.
//!
//! A tree covers a fixed bounding volume. It answers two queries: which of
//! its items lie in a box, and which lie within a distance of a point.
//!
//! # Indexing
//!
//! For an item to be inserted into a tree, its type implements the `Index`
//! trait of that tree, which gives the position of the item: two coordinates
//! for a quadtree, three for an octree. A point, an array of coordinates, is
//! an item as it is.
//!
//! # Coordinates
//!
//! A coordinate is a scalar that implements [`SpatialKey`]. `i64` does.
//!
//! # What is proved
//!
//! Each tree has an invariant, `wf`, and a view, the sequence of its items.
//! An insertion is accepted exactly when the item lies in the volume of the
//! tree, and then adds the item to the view and nothing else changes. A box
//! query returns the items of the view that lie in the box, in the order of
//! the view, and a radius query those of them within the distance.
//!
//! The two trees are one tree, [`node::Node`], over two kinds of bounding
//! volume. How a tree is built, and what an insertion does to it, is stated
//! there.

pub mod key;
pub mod node;
pub mod octree;
pub mod quadtree;
pub mod seqs;

pub use key::SpatialKey;
pub use octree::Octree;
pub use quadtree::Quadtree;
