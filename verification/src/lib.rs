//! A point quadtree over a fixed-point plane.
//!
//! Coordinates are 32-bit integers that count ticks, [`TICKS_PER_UNIT`] of
//! them to one unit of length, so every comparison and every halving of a
//! rectangle is exact. Each payload is stored under one position; the tree
//! offers insertion, exact lookup, removal, axis-aligned range queries and a
//! nearest-neighbour search.
//!
//! Every function is verified against a model of the tree: a subtree is the
//! map from positions to payloads that following the quadrants of a position
//! downwards finds ([`Node::lookup`], [`Node::view`]).
//!
//! - `point`, `rectangle`: positions, rectangles, quadrants and the relation
//!   of two rectangles by their corners.
//! - `node`: the nodes with their four slots; storing, finding and taking
//!   out a leaf.
//! - `walk`: listing the leaves and nodes of a subtree, emptying it, and
//!   dropping child nodes that hold nothing.
//! - `query`: the range query and the distance that bounds a
//!   nearest-neighbour search.
//! - `nearest`: ordering leaves by distance, and the nearest-neighbour
//!   search of a tree.
//! - `quadtree`: the tree handle, which looks at a position before it hands
//!   it to the root node.
//! - `laws`, `query_laws`: what holds of these functions together.

pub mod laws;
pub mod nearest;
pub mod node;
pub mod point;
pub mod quadtree;
pub mod query;
pub mod query_laws;
pub mod rectangle;
pub mod walk;

pub use crate::node::{Node, Spatial, TreeNode};
pub use crate::point::{Point, TICKS_PER_UNIT};
pub use crate::quadtree::QuadTree;
pub use crate::rectangle::{Quadrant, Rectangle, RectangleRelation, PLANE_LIMIT};
