//! Memory statistics of a sampler, in bytes and counts.
use vstd::prelude::*;

verus! {

/// Memory used by a sampler at one moment. The ratios derived from these
/// (efficiency, bytes per flow) are computed by the benchmark that reports them.
#[derive(Debug, Clone, Copy, PartialEq, Eq, Structural)]
pub struct MemoryStats {
    /// Non-empty cells of the sketch.
    pub active_items_count: usize,
    /// Bytes of the non-empty cells.
    pub active_items_memory: usize,
    /// Candidate flows.
    pub active_nodes_count: usize,
    /// Bytes of the candidate flows.
    pub active_nodes_memory: usize,
    /// Bytes of the excluded flows.
    pub non_target_memory: usize,
    /// Bytes of the whole sketch, empty cells included.
    pub hash_counter_allocated_memory: usize,
    /// Distinct flows seen.
    pub unique_flows_processed: usize,
    /// The largest total seen.
    pub peak_total_memory: usize,
}

/// The memory in active use: cells, candidates and excluded flows.
pub open spec fn total_of(s: MemoryStats) -> int {
    s.active_items_memory + s.active_nodes_memory + s.non_target_memory
}

impl MemoryStats {
    /// All counts zero.
    pub fn new() -> (s: Self)
        ensures
            s == (MemoryStats {
                active_items_count: 0,
                active_items_memory: 0,
                active_nodes_count: 0,
                active_nodes_memory: 0,
                non_target_memory: 0,
                hash_counter_allocated_memory: 0,
                unique_flows_processed: 0,
                peak_total_memory: 0,
            }),
    {
        MemoryStats {
            active_items_count: 0,
            active_items_memory: 0,
            active_nodes_count: 0,
            active_nodes_memory: 0,
            non_target_memory: 0,
            hash_counter_allocated_memory: 0,
            unique_flows_processed: 0,
            peak_total_memory: 0,
        }
    }

    /// The memory in active use: cells, candidates and excluded flows.
    pub fn total_active_memory(&self) -> (t: usize)
        requires
            total_of(*self) <= usize::MAX,
        ensures
            t == total_of(*self),
            t == self.non_target_memory + self.active_nodes_memory + self.active_items_memory,
    {
        self.active_items_memory + self.active_nodes_memory + self.non_target_memory
    }

    /// Raises the peak to the current total if the total is higher.
    pub fn update_peak(&mut self)
        requires
            total_of(*old(self)) <= usize::MAX,
        ensures
            final(self).peak_total_memory == (if total_of(*old(self)) > old(self).peak_total_memory {
                total_of(*old(self)) as usize
            } else {
                old(self).peak_total_memory
            }),
            *final(self) == (MemoryStats { peak_total_memory: final(self).peak_total_memory, ..*old(self) }),
            final(self).peak_total_memory >= total_of(*final(self)),
    {
        let current_total = self.total_active_memory();
        if current_total > self.peak_total_memory {
            self.peak_total_memory = current_total;
        }
    }
}

/// The memory in active use counts the bytes of the non-empty cells, of the
/// candidates and of the excluded flows, each once, and nothing else: it is
/// 0 when those three are 0, it does not change with the counts, the bytes
/// of the whole sketch or the peak, and it grows by exactly what one of the
/// three grows by.
pub proof fn lemma_total_counts_active_memory(s: MemoryStats, t: MemoryStats, x: usize)
    ensures
        (s.active_items_memory == 0 && s.active_nodes_memory == 0 && s.non_target_memory == 0) ==> total_of(s) == 0,
        (s.active_items_memory == t.active_items_memory && s.active_nodes_memory == t.active_nodes_memory
            && s.non_target_memory == t.non_target_memory) ==> total_of(s) == total_of(t),
        total_of(MemoryStats { active_items_memory: x, ..s }) == total_of(s) - s.active_items_memory + x,
        total_of(MemoryStats { active_nodes_memory: x, ..s }) == total_of(s) - s.active_nodes_memory + x,
        total_of(MemoryStats { non_target_memory: x, ..s }) == total_of(s) - s.non_target_memory + x,
{
}

} // verus!
