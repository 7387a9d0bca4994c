use vstd::prelude::*;
use crate::packet::Tick;

verus! {

/// Upper bound on the global tick counter.  The driver gives up once the
/// clock reaches this value, so every tick held by the system stays far away
/// from `u64::MAX` and timestamp arithmetic cannot overflow.
pub const TICK_LIMIT: u64 = 0x1_0000_0000_0000;

/// Upper bound on each latency, delay and initiation-interval parameter.
pub const DELAY_LIMIT: u64 = 0x1_0000_0000;

/// Immutable bundle of shape and timing parameters for the schedule
/// simulation: queue and pipeline capacities, and latency / initiation
/// interval figures for every modelled unit.
#[derive(Clone, Copy)]
pub struct SimConfig {
    /// Number of read ports on the shared weights; bounds samples in flight.
    pub n_weight_banks: usize,
    /// Number of pipelined gradient workers.
    pub n_workers: usize,
    /// Number of gradient updates one fold may incorporate at once.
    pub n_folders: usize,
    /// Capacity of every sample and update FIFO.
    pub fifo_depth: usize,
    /// Ticks a weight bank stays busy after issuing a sample.
    pub send_delay: Tick,
    /// Link latency, applied in both directions.
    pub network_delay: Tick,
    /// Ticks to receive a packet; accepted for interface parity, not read by
    /// any modelled unit.
    pub receive_delay: Tick,
    /// Minimum ticks between two firings of one worker pipeline.
    pub gradient_ii: Tick,
    /// Depth of the gradient pipeline: ticks from sample in to update out.
    pub gradient_latency: Tick,
    /// Minimum ticks between two fold events.
    pub fold_ii: Tick,
    /// Ticks from a fold starting to its updates committing.
    pub fold_latency: Tick,
}

impl SimConfig {
    /// Well-formed parameters: every unit exists, and every timing figure is
    /// small enough that sums with the bounded tick counter fit in a `Tick`.
    pub open spec fn wf(self) -> bool {
        &&& self.n_weight_banks >= 1
        &&& self.n_workers >= 1
        &&& self.n_folders >= 1
        &&& self.fifo_depth >= 1
        &&& self.send_delay <= DELAY_LIMIT
        &&& self.network_delay <= DELAY_LIMIT
        &&& self.receive_delay <= DELAY_LIMIT
        &&& self.gradient_ii <= DELAY_LIMIT
        &&& self.gradient_latency <= DELAY_LIMIT
        &&& self.fold_ii <= DELAY_LIMIT
        &&& self.fold_latency <= DELAY_LIMIT
    }

    /// Runtime check of `wf`, for callers outside verified code.
    pub fn check_wf(&self) -> (r: bool)
        ensures
            r == self.wf(),
    {
        self.n_weight_banks >= 1 && self.n_workers >= 1 && self.n_folders >= 1
            && self.fifo_depth >= 1 && self.send_delay <= DELAY_LIMIT
            && self.network_delay <= DELAY_LIMIT && self.receive_delay <= DELAY_LIMIT
            && self.gradient_ii <= DELAY_LIMIT && self.gradient_latency <= DELAY_LIMIT
            && self.fold_ii <= DELAY_LIMIT && self.fold_latency <= DELAY_LIMIT
    }
}

} // verus!
