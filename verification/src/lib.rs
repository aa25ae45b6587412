//! An approximate nearest-neighbour index over caller-defined points, built as
//! a hierarchical navigable small-world graph.

pub mod beam;
pub mod frontier;
pub mod graph;
pub mod insert;
pub mod level;
pub mod metric;
pub mod neighbor;
pub mod params;
pub mod plan;
pub mod ranked;
pub mod search;
pub mod searcher;
pub mod select;
pub mod visited;
pub mod widen;

pub use graph::Hnsw;
pub use metric::{Metric, SquaredEuclidean};
pub use neighbor::Neighbor;
pub use params::Params;
pub use searcher::Searcher;
