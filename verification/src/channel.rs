use vstd::prelude::*;
use std::collections::VecDeque;
use crate::packet::{Sample, Tick};

verus! {

/// A capacity-limited FIFO of packets whose `time` field stamps arrival: a
/// packet becomes observable to its consumer only once the consumer's clock
/// has reached that tick.  All backpressure between the parameter server and
/// the workers is expressed through `can_pop` and `has_room`.
pub struct TimeFifo {
    items: VecDeque<Sample>,
    cap: usize,
}

impl View for TimeFifo {
    type V = Seq<Sample>;

    closed spec fn view(&self) -> Seq<Sample> {
        self.items@
    }
}

impl TimeFifo {
    /// The fixed capacity this FIFO was created with.
    pub closed spec fn cap(&self) -> usize {
        self.cap
    }

    /// The queue never holds more packets than its capacity.
    pub open spec fn wf(&self) -> bool {
        self@.len() <= self.cap()
    }

    pub fn new(cap: usize) -> (r: TimeFifo)
        ensures
            r@ == Seq::<Sample>::empty(),
            r.cap() == cap,
            r.wf(),
    {
        TimeFifo { items: VecDeque::new(), cap }
    }

    pub fn len(&self) -> (r: usize)
        ensures
            r == self@.len(),
    {
        self.items.len()
    }

    /// Whether a producer may push this tick.
    pub fn has_room(&self) -> (r: bool)
        ensures
            r == (self@.len() < self.cap()),
    {
        self.items.len() < self.cap
    }

    /// Whether the head packet exists and has arrived by `now`.  This is the
    /// sole admission predicate used by consumers: a packet still in flight
    /// is not yet observable.
    pub fn can_pop(&self, now: Tick) -> (r: bool)
        ensures
            r == (self@.len() > 0 && self@[0].time <= now),
    {
        if self.items.len() > 0 {
            self.items[0].time <= now
        } else {
            false
        }
    }

    pub fn push_back(&mut self, p: Sample)
        requires
            old(self).wf(),
            old(self)@.len() < old(self).cap(),
        ensures
            final(self)@ == old(self)@.push(p),
            final(self).cap() == old(self).cap(),
            final(self).wf(),
    {
        self.items.push_back(p);
    }

    pub fn peek_head(&self) -> (r: &Sample)
        requires
            self@.len() > 0,
        ensures
            *r == self@[0],
    {
        &self.items[0]
    }

    pub fn pop_head(&mut self) -> (r: Sample)
        requires
            old(self).wf(),
            old(self)@.len() > 0,
        ensures
            r == old(self)@[0],
            final(self)@ == old(self)@.drop_first(),
            final(self).cap() == old(self).cap(),
            final(self).wf(),
    {
        let r = self.items.pop_front();
        match r {
            Some(p) => {
                assert(self@ =~= old(self)@.drop_first());
                p
            },
            None => {
                proof {
                    assert(false);
                }
                Sample { time: 0, sample_id: 0, weight_version: 0 }
            },
        }
    }
}

} // verus!
