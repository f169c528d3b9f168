pub mod swap;
pub use swap::{SwapMove, SwapNeighborhood};

pub mod two_opt;
pub use two_opt::{TwoOptMove, TwoOptNeighborhood};

pub mod inserts;
pub use inserts::InsertsNeighborhood;

pub mod cluster_optimization;
pub use cluster_optimization::ClusterOptimization;
