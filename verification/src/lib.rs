//! Small-flow sampling for backbone traffic: a sketch that counts packets per
//! flow, a table of candidate elephant flows, and the rules that decide which
//! flows stop being sampled.
use vstd::prelude::*;

pub mod capture;
pub mod config;
pub mod flow_table;
pub mod memory_stats;
pub mod topk;
pub mod util;

verus! {

} // verus!
