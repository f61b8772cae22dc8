pub mod accessors;
pub mod bounds;
pub mod bulk_load;
pub mod geometry;
pub mod knn;
pub mod laws;
pub mod measure;
pub mod node;
pub mod params;
pub mod query;
pub mod select;
pub mod tree;

pub use bulk_load::calculate_internal_node_size;
pub use geometry::{Point, Rect, Sphere};
pub use measure::euclidean;
pub use node::{Data, Node};
pub use params::Params;
pub use tree::{ArrayError, Euclidean, Manhattan, Metric, SRTree};
