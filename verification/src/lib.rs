//! Tuple-based metric learning: the index logic behind negative mining, label
//! grouping and neighbour selection, and a first-in first-out memory of past
//! embeddings, each with a contract proved by Verus.

pub mod groups;
pub mod indices;
pub mod losses;
pub mod memory;
pub mod mining;
pub mod neighbors;

pub use losses::DistanceFn;
pub use memory::CrossBatchMemory;
pub use mining::{HardestMiner, InBatchMiner, RandomMiner};
