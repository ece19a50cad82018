//! Incremental item-to-item indicators: a down-sampled history of user
//! interactions, the co-occurrence counts it induces, the 2x2 contingency
//! tables that score each pair, and the selection of the best-scoring
//! indicators of an item.

pub mod cooccurrence;
pub mod counting;
pub mod fnv_collections;
pub mod random;
pub mod topk;
pub mod utils;
