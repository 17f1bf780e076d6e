//! Largest-by-metric selection: a total order on ranked items, an in-place
//! partition-exchange sort, a bounded priority structure, and the two
//! top-K strategies built from them.
pub mod heap;
pub mod items;
pub mod order;
pub mod scan;
pub mod selection;
pub mod slices;
pub mod sort;
pub mod topk;
pub mod utils;
