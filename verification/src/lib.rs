//! A region quadtree over a two-dimensional integer grid.
//!
//! Features are loaded once and then queried by proximity: which features
//! may collide with a shape, which one is nearest to a probe, which `k`
//! are nearest, and all of them in order of distance. Two trees are
//! offered: `PointQuadTree` for features reduced to a single position, and
//! `BoundsQuadTree` for features indexed by their bounding rectangle.
//!
//! Coordinates are `i64` grid units. A node is divided on the grid lines
//! at or next below its midlines; where the sides of the root are
//! multiples of two to the power of the depth limit, these are the midlines
//! exactly (`structure::lemma_midlines_exact`). A feature belongs to the
//! quarter that its midpoint falls in, and is stuck in a node exactly where
//! no quarter of the node holds all of it. A tree measures in one of two
//! geometries, the plane or the sphere, with formulas that the caller
//! brings (`DistEuclidean`, `DistHaversine`); the decisions around the
//! formulas are made here. A distance is a `Dist`, of which only the order
//! matters. `geom::squared::Squared` brings formulas that need no floating
//! point.
//!
//! The contracts are stated over a model of the tree (`model::NodeView`).
//! What a search returns is stated for every function that the formulas'
//! answers agree with.
//!
//! What holds of every well-formed tree is proved in these modules:
//!
//! - `node`, `structure`: the quarters of a node tile its region; a node
//!   above the depth limit keeps to the limit of children; where each
//!   feature lives, and that nothing is stuck that a quarter holds.
//! - `placing`: inserting keeps a tree well formed and adds one feature.
//! - `retrieval`: what retrieving is sure to find.
//! - `quadtrees::nearest`: the nearest-feature search finds a nearest
//!   feature.
//! - `quadtrees::ordering`, `quadtrees::nearest_k`: the search for the `k`
//!   nearest gives them in order of distance, leaves out no nearer one, and
//!   gives each no more often than the tree holds it.
//! - `quadtrees::ordering`, `quadtrees::coverage`: the walk in order of
//!   distance is in order and gives every feature once.
//! - `geom::squared`: all of this without a condition on the formulas, for
//!   formulas that integers can compute.

pub mod error;
pub mod geom;
pub mod model;
pub mod node;
pub mod placing;
pub mod quadtrees;
pub mod retrieval;
pub mod structure;
pub mod text;
pub mod tree_node;

pub use error::Error;
pub use geom::calc::{Dist, DistEuclidean, DistHaversine, GeomCalc, UNBOUNDED};
pub use geom::geometry::{Geometry, GeometryRef, Line, LineString, Polygon};
pub use geom::point::Point;
pub use geom::rect::Rect;
pub use geom::squared::Squared;
pub use geom::CalcMethod;
pub use model::Entry;
pub use node::SubNode;
pub use quadtrees::bounds::{BoundsQuadTree, Datum};
pub use quadtrees::knn::NodeType;
pub use quadtrees::point::{AsPoint, PointQuadTree};
pub use quadtrees::sorted::SortIter;
pub use quadtrees::{DEFAULT_MAX_CHILDREN, DEFAULT_MAX_DEPTH};
pub use tree_node::{BoundsNode, Node, PointNode};
