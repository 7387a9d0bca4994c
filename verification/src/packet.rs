use vstd::prelude::*;

verus! {

/// One unit of simulated time; a non-negative integer advanced uniformly.
pub type Tick = u64;

/// A packet moving through the simulated system: created by the parameter
/// server as a sample, rewritten by a worker into a gradient update, and
/// finally folded into the update log.  The three roles share one shape; only
/// the queue a packet sits in distinguishes them.
#[derive(Clone, Copy, PartialEq, Eq, Structural, Debug)]
pub struct Sample {
    /// The tick at which this packet next becomes observable.
    pub time: Tick,
    /// Index of the data sample this packet carries.
    pub sample_id: usize,
    /// Number of folds that had committed when this sample was issued.
    pub weight_version: usize,
}

/// Anything that carries a timestamp in simulated ticks.
pub trait HasTime {
    spec fn spec_time(&self) -> Tick;

    fn time(&self) -> (t: Tick)
        ensures
            t == self.spec_time(),
    ;

    fn add_time(&mut self, inc: Tick)
        requires
            old(self).spec_time() + inc <= Tick::MAX,
        ensures
            final(self).spec_time() == old(self).spec_time() + inc,
    ;
}

impl HasTime for Sample {
    open spec fn spec_time(&self) -> Tick {
        self.time
    }

    fn time(&self) -> (t: Tick) {
        self.time
    }

    fn add_time(&mut self, inc: Tick) {
        self.time = self.time + inc;
    }
}

impl HasTime for u64 {
    open spec fn spec_time(&self) -> Tick {
        *self
    }

    fn time(&self) -> (t: Tick) {
        *self
    }

    fn add_time(&mut self, inc: Tick) {
        *self = *self + inc;
    }
}

/// The maximum `time` over a sequence of packets; `Tick::MAX` on an empty
/// sequence, mirroring an `Iterator::max` folded over no elements.
pub open spec fn spec_max_sample_time(s: Seq<Sample>) -> int
    decreases s.len(),
{
    if s.len() == 0 {
        Tick::MAX as int
    } else if s.len() == 1 {
        s[0].time as int
    } else {
        let m = spec_max_sample_time(s.drop_last());
        if s.last().time as int > m {
            s.last().time as int
        } else {
            m
        }
    }
}

/// On a non-empty sequence the maximum bounds every element.
pub proof fn lemma_max_sample_time_ge(s: Seq<Sample>, i: int)
    requires
        0 <= i < s.len(),
    ensures
        s[i].time as int <= spec_max_sample_time(s),
    decreases s.len(),
{
    if s.len() > 1 {
        if i < s.len() - 1 {
            lemma_max_sample_time_ge(s.drop_last(), i);
        }
    }
}

/// On a sequence whose times are non-decreasing, the maximum is the last time.
pub proof fn lemma_max_sample_time_sorted(s: Seq<Sample>)
    requires
        s.len() > 0,
        forall|i: int, j: int| 0 <= i <= j < s.len() ==> s[i].time <= s[j].time,
    ensures
        spec_max_sample_time(s) == s.last().time as int,
    decreases s.len(),
{
    if s.len() > 1 {
        lemma_max_sample_time_sorted(s.drop_last());
    }
}

/// The latest arrival tick over a batch of packets, `Tick::MAX` if the batch
/// is empty.
pub fn max_sample_time(samples: &Vec<Sample>) -> (r: Tick)
    ensures
        r as int == spec_max_sample_time(samples@),
{
    if samples.len() == 0 {
        return Tick::MAX;
    }
    let mut acc: Tick = samples[0].time;
    let mut i: usize = 1;
    while i < samples.len()
        invariant
            1 <= i <= samples@.len(),
            acc as int == spec_max_sample_time(samples@.take(i as int)),
        decreases samples@.len() - i,
    {
        assert(samples@.take(i as int + 1).drop_last() =~= samples@.take(i as int));
        if samples[i].time > acc {
            acc = samples[i].time;
        }
        i = i + 1;
    }
    assert(samples@.take(samples@.len() as int) =~= samples@);
    acc
}

} // verus!
