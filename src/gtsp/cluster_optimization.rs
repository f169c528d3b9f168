pub use crate::gtsp::neighborhoods::cluster_optimization::ClusterOptimization;
