//! Top-k tracking of elephant flows.
pub mod min_heap;
pub mod pq;
pub mod randomness;
pub mod ranking;
pub mod small_flow_sampling;
