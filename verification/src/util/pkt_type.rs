//! Kinds of packets and flows.
use vstd::prelude::*;

verus! {

/// The direction of a packet within its flow.
#[derive(Debug, Clone, Copy, PartialEq, Eq, Structural)]
pub enum PacketDirection {
    Upstream,
    Downstream,
}

/// The flow-length class of a dataset.
#[derive(Debug, Clone, Copy, PartialEq, Eq, Structural)]
pub enum FlowLength {
    TOLNet,
    LEXNet,
}

} // verus!
