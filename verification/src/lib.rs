//! Divisive hierarchical clustering of a dataset under a distance function:
//! clusters, their names, the tree that partitioning builds, and a flat form
//! of a cluster for serialization.

pub mod cluster;
pub mod criteria;
pub mod dataset;
pub mod name;
pub mod order;
pub mod partition;
pub mod search;
pub mod serialize;

pub use cluster::{Children, Cluster};
pub use criteria::{PartitionCriteria, PartitionCriterion};
pub use dataset::{Metric, VecDataset};
pub use serialize::{SerializedChildInfo, SerializedCluster};
