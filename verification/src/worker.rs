use vstd::prelude::*;
use crate::channel::TimeFifo;
use crate::config::{SimConfig, DELAY_LIMIT, TICK_LIMIT};
use crate::packet::{Sample, Tick};

verus! {

/// A pipelined gradient unit with initiation interval `gradient_ii` and
/// latency `gradient_latency`.  Each global tick it may pop one arrived
/// sample from its sample FIFO, rewrite the packet's timestamp to when the
/// resulting update will reach the server, and push it into its update FIFO.
pub struct WorkerState {
    cfg: SimConfig,
    tick: Tick,
    next_ready: Tick,
}

impl WorkerState {
    pub closed spec fn cfg(&self) -> SimConfig {
        self.cfg
    }

    pub closed spec fn tick(&self) -> Tick {
        self.tick
    }

    /// Earliest tick at which the pipeline may accept another sample.
    pub closed spec fn next_ready(&self) -> Tick {
        self.next_ready
    }

    pub open spec fn wf(&self) -> bool {
        &&& self.cfg().wf()
        &&& self.tick() <= TICK_LIMIT
        &&& self.next_ready() <= TICK_LIMIT + DELAY_LIMIT
    }

    pub fn new(cfg: SimConfig) -> (r: WorkerState)
        requires
            cfg.wf(),
        ensures
            r.cfg() == cfg,
            r.tick() == 0,
            r.next_ready() == 0,
            r.wf(),
    {
        WorkerState { cfg, tick: 0, next_ready: 0 }
    }

    /// The initiation interval has elapsed and the update FIFO has room.
    pub fn ready(&self, update_tx: &TimeFifo) -> (r: bool)
        ensures
            r == (self.tick() >= self.next_ready() && update_tx@.len() < update_tx.cap()),
    {
        self.tick >= self.next_ready && update_tx.has_room()
    }

    /// Whether the worker fires this tick: the initiation interval has
    /// elapsed, the update FIFO has room, and the sample at the head of the
    /// sample FIFO has arrived.
    pub open spec fn fires(&self, sample_rx: TimeFifo, update_tx: TimeFifo) -> bool {
        &&& self.tick() >= self.next_ready()
        &&& update_tx@.len() < update_tx.cap()
        &&& sample_rx@.len() > 0
        &&& sample_rx@[0].time <= self.tick()
    }

    /// The update packet emitted when firing on `s` at tick `now`: same
    /// sample, timestamp rewritten to when it reaches the server.
    pub open spec fn emitted(cfg: SimConfig, now: Tick, s: Sample) -> Sample {
        Sample {
            time: (now + cfg.gradient_latency + cfg.network_delay + cfg.send_delay) as Tick,
            sample_id: s.sample_id,
            weight_version: s.weight_version,
        }
    }

    /// One global tick of this worker.
    pub fn tick_worker(&mut self, sample_rx: &mut TimeFifo, update_tx: &mut TimeFifo)
        requires
            old(self).wf(),
            old(self).tick() < TICK_LIMIT,
            old(sample_rx).wf(),
            old(update_tx).wf(),
        ensures
            final(self).cfg() == old(self).cfg(),
            final(self).tick() == old(self).tick() + 1,
            final(self).wf(),
            final(sample_rx).cap() == old(sample_rx).cap(),
            final(update_tx).cap() == old(update_tx).cap(),
            final(sample_rx).wf(),
            final(update_tx).wf(),
            if old(self).fires(*old(sample_rx), *old(update_tx)) {
                &&& final(sample_rx)@ == old(sample_rx)@.drop_first()
                &&& final(update_tx)@ == old(update_tx)@.push(
                    Self::emitted(old(self).cfg(), old(self).tick(), old(sample_rx)@[0]),
                )
                &&& final(self).next_ready() == old(self).tick() + old(self).cfg().gradient_ii
            } else {
                &&& final(sample_rx)@ == old(sample_rx)@
                &&& final(update_tx)@ == old(update_tx)@
                &&& final(self).next_ready() == old(self).next_ready()
            },
    {
        if self.ready(update_tx) && sample_rx.can_pop(self.tick) {
            let mut s = sample_rx.pop_head();
            s.time = self.tick + self.cfg.gradient_latency + self.cfg.network_delay
                + self.cfg.send_delay;
            update_tx.push_back(s);
            self.next_ready = self.tick + self.cfg.gradient_ii;
        }
        self.tick = self.tick + 1;
    }
}

} // verus!
