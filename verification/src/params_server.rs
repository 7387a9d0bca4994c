use vstd::prelude::*;
use std::collections::VecDeque;
use crate::channel::TimeFifo;
use crate::config::{SimConfig, DELAY_LIMIT, TICK_LIMIT};
use crate::packet::{Sample, Tick, spec_max_sample_time, max_sample_time, lemma_max_sample_time_sorted};
use crate::sample_count::{
    cnt_seq, cnt_fifos, cnt_time, fifos_pkts_ok, seq_pkts_ok, stamp, lemma_cnt_seq_concat,
    lemma_cnt_seq_push, lemma_cnt_seq_stamp, lemma_cnt_fifos_update, lemma_cnt_time_concat,
    lemma_cnt_time_stamp, lemma_cnt_time_zero_above,
};

verus! {

/// The longest prefix of `s` whose entries are at most `now`, removed.
pub open spec fn drop_ready_ticks(s: Seq<Tick>, now: Tick) -> Seq<Tick>
    decreases s.len(),
{
    if s.len() > 0 && s[0] <= now {
        drop_ready_ticks(s.drop_first(), now)
    } else {
        s
    }
}

/// The pending-version queue after removing every entry committed by `now`.
pub open spec fn drop_committed(q: Seq<(Tick, usize)>, now: Tick) -> Seq<(Tick, usize)>
    decreases q.len(),
{
    if q.len() > 0 && q[0].0 <= now {
        drop_committed(q.drop_first(), now)
    } else {
        q
    }
}

/// The weight version current after committing, in FIFO order, every queue
/// entry whose tick has been reached by `now`; `v0` if none has.
pub open spec fn commit_version(q: Seq<(Tick, usize)>, now: Tick, v0: usize) -> usize
    decreases q.len(),
{
    if q.len() > 0 && q[0].0 <= now {
        commit_version(q.drop_first(), now, q[0].1)
    } else {
        v0
    }
}

/// When every entry has been reached by `now`, the whole queue commits and
/// the last version becomes current.
pub proof fn lemma_commit_all(q: Seq<(Tick, usize)>, now: Tick, v0: usize)
    requires
        forall|i: int| 0 <= i < q.len() ==> (#[trigger] q[i]).0 <= now,
    ensures
        drop_committed(q, now).len() == 0,
        commit_version(q, now, v0) == (if q.len() == 0 {
            v0
        } else {
            q.last().1
        }),
    decreases q.len(),
{
    if q.len() > 0 {
        assert(forall|i: int|
            0 <= i < q.drop_first().len() ==> (#[trigger] q.drop_first()[i]).0 <= now);
        lemma_commit_all(q.drop_first(), now, q[0].1);
    }
}

/// The contents of an array of FIFOs, FIFO by FIFO.
pub open spec fn fifo_views(fs: Seq<TimeFifo>) -> Seq<Seq<Sample>> {
    fs.map_values(|f: TimeFifo| f@)
}

/// Which sample FIFOs a scan in index order serves: skip the full ones, one
/// sample each to the rest, until `budget` sends are spent.
pub open spec fn send_plan(fifos: Seq<Seq<Sample>>, i: int, budget: int, depth: int) -> Seq<int>
    decreases fifos.len() - i,
{
    if i >= fifos.len() || budget <= 0 {
        Seq::<int>::empty()
    } else if fifos[i].len() < depth {
        seq![i] + send_plan(fifos, i + 1, budget - 1, depth)
    } else {
        send_plan(fifos, i + 1, budget, depth)
    }
}

/// Which update FIFOs a scan in index order drains: one packet from each
/// whose head has arrived by `now`, at most `budget` packets in all.
pub open spec fn receive_plan(fifos: Seq<Seq<Sample>>, i: int, now: Tick, budget: int) -> Seq<int>
    decreases fifos.len() - i,
{
    if i >= fifos.len() || budget <= 0 {
        Seq::<int>::empty()
    } else if fifos[i].len() > 0 && fifos[i][0].time <= now {
        seq![i] + receive_plan(fifos, i + 1, now, budget - 1)
    } else {
        receive_plan(fifos, i + 1, now, budget)
    }
}

/// Every index a receive scan drains lies within the FIFO array.
pub proof fn lemma_receive_plan_bounds(fifos: Seq<Seq<Sample>>, i: int, now: Tick, budget: int)
    ensures
        forall|j: int|
            0 <= j < receive_plan(fifos, i, now, budget).len() ==> i
                <= #[trigger] receive_plan(fifos, i, now, budget)[j] < fifos.len(),
    decreases fifos.len() - i,
{
    let plan = receive_plan(fifos, i, now, budget);
    if i >= fifos.len() || budget <= 0 {
    } else if fifos[i].len() > 0 && fifos[i][0].time <= now {
        lemma_receive_plan_bounds(fifos, i + 1, now, budget - 1);
        let rest = receive_plan(fifos, i + 1, now, budget - 1);
        assert forall|j: int| 0 <= j < plan.len() implies i <= #[trigger] plan[j]
            < fifos.len() by {
            if j > 0 {
                assert(plan[j] == rest[j - 1]);
            }
        }
    } else {
        lemma_receive_plan_bounds(fifos, i + 1, now, budget);
        let rest = receive_plan(fifos, i + 1, now, budget);
        assert(plan == rest);
        assert forall|j: int| 0 <= j < plan.len() implies i <= #[trigger] plan[j]
            < fifos.len() by {
            assert(plan[j] == rest[j]);
        }
    }
}

proof fn lemma_contains_push(s: Seq<int>, x: int, k: int)
    ensures
        s.push(x).contains(k) == (s.contains(k) || k == x),
{
    if s.contains(k) {
        let j = choose|j: int| 0 <= j < s.len() && s[j] == k;
        assert(s.push(x)[j] == k);
    }
    if k == x {
        assert(s.push(x)[s.len() as int] == k);
    }
    if s.push(x).contains(k) && k != x && !s.contains(k) {
        let j = choose|j: int| 0 <= j < s.push(x).len() && s.push(x)[j] == k;
        if j < s.len() {
            assert(s[j] == k);
        }
    }
}

/// The worker indices of an issued batch.
pub open spec fn sent_indices(r: Seq<(usize, Sample)>) -> Seq<int> {
    r.map_values(|p: (usize, Sample)| p.0 as int)
}

/// The parameter server: issues samples while weight banks are free, drains
/// arrived gradient updates through the fold pipeline, and tracks which
/// weight version each issued sample observes.  The update log records every
/// fold in commit order; it is the simulator's sole output artifact.
pub struct ParamsServerState {
    cfg: SimConfig,
    tick: Tick,
    num_samples: usize,
    /// The id of the next sample to be sent.
    next_sample: usize,
    curr_weight_version: usize,
    /// When the banks will be ready to send another sample; earliest first.
    bank_states: VecDeque<Tick>,
    /// Weight versions to be adopted at a future tick; new entries at the back.
    weight_version_queue: VecDeque<(Tick, usize)>,
    /// When the folding unit will be ready again.
    fold_ready_at: Tick,
    /// The sequence of updates folded into the weights, in fold order.
    update_logs: Vec<Sample>,
}

impl ParamsServerState {
    pub closed spec fn cfg(&self) -> SimConfig {
        self.cfg
    }

    pub closed spec fn tick(&self) -> Tick {
        self.tick
    }

    pub closed spec fn num_samples(&self) -> usize {
        self.num_samples
    }

    pub closed spec fn next_sample(&self) -> usize {
        self.next_sample
    }

    pub closed spec fn curr_weight_version(&self) -> usize {
        self.curr_weight_version
    }

    pub closed spec fn banks(&self) -> Seq<Tick> {
        self.bank_states@
    }

    pub closed spec fn wvq(&self) -> Seq<(Tick, usize)> {
        self.weight_version_queue@
    }

    pub closed spec fn fold_ready(&self) -> Tick {
        self.fold_ready_at
    }

    pub closed spec fn log(&self) -> Seq<Sample> {
        self.update_logs@
    }

    /// The latest weight version scheduled so far: the tail of the pending
    /// queue, or the current version if nothing is pending.
    pub open spec fn spearhead(&self) -> int {
        if self.wvq().len() == 0 {
            self.curr_weight_version() as int
        } else {
            self.wvq().last().1 as int
        }
    }

    /// How many more samples the server may issue this tick: limited by the
    /// samples left to send and by the free weight banks.
    pub open spec fn send_budget(&self) -> int {
        let a = self.num_samples() - self.next_sample();
        let b = self.cfg().n_weight_banks - self.banks().len();
        if a <= b {
            a
        } else {
            b
        }
    }

    /// Invariants of the version pipeline and the log, independent of the
    /// clock: commits apply in FIFO order to monotone versions, the number of
    /// updates ever folded equals the spearhead version, log times are
    /// non-decreasing, and every pending commit tick is covered by a logged
    /// fold.
    pub open spec fn wf_versions(&self) -> bool {
        &&& forall|i: int, j: int|
            0 <= i <= j < self.wvq().len() ==> (#[trigger] self.wvq()[i]).0
                <= (#[trigger] self.wvq()[j]).0
        &&& forall|i: int, j: int|
            0 <= i <= j < self.wvq().len() ==> (#[trigger] self.wvq()[i]).1
                <= (#[trigger] self.wvq()[j]).1
        &&& forall|i: int|
            0 <= i < self.wvq().len() ==> self.curr_weight_version()
                <= (#[trigger] self.wvq()[i]).1
        &&& self.spearhead() == self.log().len()
        &&& self.curr_weight_version() <= self.log().len()
        &&& forall|i: int, j: int|
            0 <= i <= j < self.log().len() ==> (#[trigger] self.log()[i]).time
                <= (#[trigger] self.log()[j]).time
        &&& self.wvq().len() > 0 ==> self.log().len() > 0 && self.wvq().last().0
            <= self.log().last().time
    }

    /// Full well-formedness while the simulation is running: the version
    /// pipeline invariants, plus clock-relative bounds on every queued tick.
    pub open spec fn wf(&self) -> bool {
        &&& self.cfg().wf()
        &&& self.wf_versions()
        &&& self.tick() <= TICK_LIMIT
        &&& self.next_sample() <= self.num_samples()
        &&& self.banks().len() <= self.cfg().n_weight_banks
        &&& forall|i: int, j: int|
            0 <= i <= j < self.banks().len() ==> (#[trigger] self.banks()[i])
                <= (#[trigger] self.banks()[j])
        &&& forall|i: int|
            0 <= i < self.banks().len() ==> (#[trigger] self.banks()[i]) <= self.tick()
                + self.cfg().send_delay
        &&& forall|i: int|
            0 <= i < self.wvq().len() ==> (#[trigger] self.wvq()[i]).0 <= self.tick()
                + self.cfg().fold_latency
        &&& self.log().len() > 0 ==> self.log().last().time <= self.tick()
            + self.cfg().fold_latency
        &&& self.fold_ready() <= self.tick() + self.cfg().fold_ii
        &&& forall|t: int| #[trigger] cnt_time(self.log(), t) <= self.cfg().n_folders
    }

    /// Between global ticks no logged fold sits at this tick's own commit
    /// time, so one more fold opens a fresh group in the log.
    pub open spec fn fold_slot_free(&self) -> bool {
        self.log().len() > 0 ==> self.log().last().time < self.tick() + self.cfg().fold_latency
    }

    pub fn new(cfg: SimConfig, num_samples: usize) -> (r: ParamsServerState)
        requires
            cfg.wf(),
        ensures
            r.cfg() == cfg,
            r.num_samples() == num_samples,
            r.tick() == 0,
            r.next_sample() == 0,
            r.curr_weight_version() == 0,
            r.banks() == Seq::<Tick>::empty(),
            r.wvq() == Seq::<(Tick, usize)>::empty(),
            r.fold_ready() == 0,
            r.log() == Seq::<Sample>::empty(),
            r.wf(),
    {
        ParamsServerState {
            cfg,
            tick: 0,
            num_samples,
            next_sample: 0,
            curr_weight_version: 0,
            bank_states: VecDeque::new(),
            weight_version_queue: VecDeque::new(),
            fold_ready_at: 0,
            update_logs: Vec::new(),
        }
    }

    pub fn curr_tick(&self) -> (r: Tick)
        ensures
            r == self.tick(),
    {
        self.tick
    }

    pub fn get_update_logs(self) -> (r: Vec<Sample>)
        ensures
            r@ == self.log(),
    {
        self.update_logs
    }

    fn has_free_weight_banks(&self) -> (r: bool)
        ensures
            r == (self.banks().len() < self.cfg().n_weight_banks),
    {
        self.bank_states.len() < self.cfg.n_weight_banks
    }

    fn has_more_samples(&self) -> (r: bool)
        ensures
            r == (self.next_sample() < self.num_samples()),
    {
        self.next_sample < self.num_samples
    }

    fn can_send(&self) -> (r: bool)
        ensures
            r == (self.next_sample() < self.num_samples() && self.banks().len()
                < self.cfg().n_weight_banks),
    {
        self.has_more_samples() && self.has_free_weight_banks()
    }

    fn can_fold(&self) -> (r: bool)
        ensures
            r == (self.tick() >= self.fold_ready()),
    {
        self.tick >= self.fold_ready_at
    }

    pub fn finished_receiving(&self) -> (r: bool)
        ensures
            r == (self.log().len() == self.num_samples()),
    {
        self.update_logs.len() == self.num_samples
    }

    /// Pop every bank whose busy period has elapsed by the current tick.
    fn clear_free_banks(&mut self)
        requires
            old(self).wf(),
        ensures
            final(self).cfg() == old(self).cfg(),
            final(self).tick() == old(self).tick(),
            final(self).num_samples() == old(self).num_samples(),
            final(self).next_sample() == old(self).next_sample(),
            final(self).curr_weight_version() == old(self).curr_weight_version(),
            final(self).wvq() == old(self).wvq(),
            final(self).fold_ready() == old(self).fold_ready(),
            final(self).log() == old(self).log(),
            final(self).banks() == drop_ready_ticks(old(self).banks(), old(self).tick()),
            final(self).wf(),
    {
        while self.bank_states.len() > 0 && self.bank_states[0] <= self.tick
            invariant
                self.cfg() == old(self).cfg(),
                self.tick() == old(self).tick(),
                self.num_samples() == old(self).num_samples(),
                self.next_sample() == old(self).next_sample(),
                self.curr_weight_version() == old(self).curr_weight_version(),
                self.wvq() == old(self).wvq(),
                self.fold_ready() == old(self).fold_ready(),
                self.log() == old(self).log(),
                self.wf(),
                drop_ready_ticks(self.banks(), self.tick()) == drop_ready_ticks(
                    old(self).banks(),
                    old(self).tick(),
                ),
            decreases self.banks().len(),
        {
            let ghost prev = self.banks();
            self.bank_states.pop_front();
            proof {
                assert(self.banks() =~= prev.drop_first());
            }
        }
    }

    /// Adopt, in FIFO order, every pending weight version whose commit tick
    /// has been reached.
    fn update_weight_version(&mut self)
        requires
            old(self).wf_versions(),
        ensures
            final(self).cfg() == old(self).cfg(),
            final(self).tick() == old(self).tick(),
            final(self).num_samples() == old(self).num_samples(),
            final(self).next_sample() == old(self).next_sample(),
            final(self).banks() == old(self).banks(),
            final(self).fold_ready() == old(self).fold_ready(),
            final(self).log() == old(self).log(),
            final(self).wvq() == drop_committed(old(self).wvq(), old(self).tick()),
            final(self).curr_weight_version() == commit_version(
                old(self).wvq(),
                old(self).tick(),
                old(self).curr_weight_version(),
            ),
            final(self).wf_versions(),
            final(self).spearhead() == old(self).spearhead(),
    {
        while self.weight_version_queue.len() > 0 && self.weight_version_queue[0].0 <= self.tick
            invariant
                self.cfg() == old(self).cfg(),
                self.tick() == old(self).tick(),
                self.num_samples() == old(self).num_samples(),
                self.next_sample() == old(self).next_sample(),
                self.banks() == old(self).banks(),
                self.fold_ready() == old(self).fold_ready(),
                self.log() == old(self).log(),
                self.wf_versions(),
                self.spearhead() == old(self).spearhead(),
                drop_committed(self.wvq(), self.tick()) == drop_committed(
                    old(self).wvq(),
                    old(self).tick(),
                ),
                commit_version(self.wvq(), self.tick(), self.curr_weight_version())
                    == commit_version(
                    old(self).wvq(),
                    old(self).tick(),
                    old(self).curr_weight_version(),
                ),
            decreases self.wvq().len(),
        {
            let ghost prev = self.wvq();
            let head = self.weight_version_queue[0];
            self.curr_weight_version = head.1;
            self.weight_version_queue.pop_front();
            proof {
                assert(self.wvq() =~= prev.drop_first());
            }
        }
    }

    /// The latest weight version we know of in the future.
    fn spearhead_weight_version(&self) -> (r: usize)
        ensures
            r as int == self.spearhead(),
    {
        if self.weight_version_queue.len() == 0 {
            self.curr_weight_version
        } else {
            let last = self.weight_version_queue[self.weight_version_queue.len() - 1];
            last.1
        }
    }

    /// Schedule `num_updates` more folds to commit at `tick + fold_latency`.
    fn push_new_weight_version(&mut self, num_updates: usize)
        requires
            old(self).wf(),
            old(self).log().len() + num_updates <= usize::MAX,
        ensures
            final(self).cfg() == old(self).cfg(),
            final(self).tick() == old(self).tick(),
            final(self).num_samples() == old(self).num_samples(),
            final(self).next_sample() == old(self).next_sample(),
            final(self).curr_weight_version() == old(self).curr_weight_version(),
            final(self).banks() == old(self).banks(),
            final(self).fold_ready() == old(self).fold_ready(),
            final(self).log() == old(self).log(),
            final(self).wvq() == old(self).wvq().push(
                (
                    (old(self).tick() + old(self).cfg().fold_latency) as Tick,
                    (old(self).log().len() + num_updates) as usize,
                ),
            ),
    {
        proof {
            assert(old(self).tick() + old(self).cfg().fold_latency <= TICK_LIMIT + DELAY_LIMIT);
        }
        let update_at_tick = self.tick + self.cfg.fold_latency;
        let new_version = self.spearhead_weight_version() + num_updates;
        self.weight_version_queue.push_back((update_at_tick, new_version));
    }

    /// Issue the next sample: it observes the current weight version, and one
    /// bank goes busy until `tick + send_delay`.
    fn send_next_sample(&mut self) -> (s: Sample)
        requires
            old(self).wf(),
            old(self).next_sample() < old(self).num_samples(),
            old(self).banks().len() < old(self).cfg().n_weight_banks,
        ensures
            s == (Sample {
                time: (old(self).tick() + old(self).cfg().send_delay
                    + old(self).cfg().network_delay) as Tick,
                sample_id: old(self).next_sample(),
                weight_version: old(self).curr_weight_version(),
            }),
            final(self).cfg() == old(self).cfg(),
            final(self).tick() == old(self).tick(),
            final(self).num_samples() == old(self).num_samples(),
            final(self).next_sample() == old(self).next_sample() + 1,
            final(self).curr_weight_version() == old(self).curr_weight_version(),
            final(self).wvq() == old(self).wvq(),
            final(self).fold_ready() == old(self).fold_ready(),
            final(self).log() == old(self).log(),
            final(self).banks() == old(self).banks().push(
                (old(self).tick() + old(self).cfg().send_delay) as Tick,
            ),
            final(self).wf(),
    {
        proof {
            assert(old(self).tick() + old(self).cfg().send_delay + old(self).cfg().network_delay
                <= TICK_LIMIT + 2 * DELAY_LIMIT);
        }
        let arrival_time = self.tick + self.cfg.send_delay + self.cfg.network_delay;
        let sample = Sample {
            time: arrival_time,
            sample_id: self.next_sample,
            weight_version: self.curr_weight_version,
        };
        self.next_sample = self.next_sample + 1;
        let next_ready_at = self.tick + self.cfg.send_delay;
        self.bank_states.push_back(next_ready_at);
        sample
    }

    /// Scan the sample FIFOs in index order and issue one sample to each that
    /// has room, while samples and free banks remain.  Returns the issued
    /// samples paired with their worker index; the driver places them into
    /// the FIFOs after the workers have ticked.
    fn try_send_samples(&mut self, sample_txs: &Vec<TimeFifo>) -> (r: Vec<(usize, Sample)>)
        requires
            old(self).wf(),
            forall|i: int|
                0 <= i < sample_txs@.len() ==> (#[trigger] sample_txs@[i])@.len()
                    <= old(self).cfg().fifo_depth,
        ensures
            final(self).cfg() == old(self).cfg(),
            final(self).tick() == old(self).tick(),
            final(self).num_samples() == old(self).num_samples(),
            final(self).curr_weight_version() == old(self).curr_weight_version(),
            final(self).wvq() == old(self).wvq(),
            final(self).fold_ready() == old(self).fold_ready(),
            final(self).log() == old(self).log(),
            final(self).wf(),
            final(self).next_sample() == old(self).next_sample() + r@.len(),
            forall|j: int|
                0 <= j < r@.len() ==> (#[trigger] r@[j]).1 == (Sample {
                    time: (old(self).tick() + old(self).cfg().send_delay
                        + old(self).cfg().network_delay) as Tick,
                    sample_id: (old(self).next_sample() + j) as usize,
                    weight_version: old(self).curr_weight_version(),
                }),
            forall|j: int| 0 <= j < r@.len() ==> (#[trigger] r@[j]).0 < sample_txs@.len(),
            forall|j: int|
                0 <= j < r@.len() ==> sample_txs@[(#[trigger] r@[j]).0 as int]@.len()
                    < old(self).cfg().fifo_depth,
            forall|j: int, k: int| 0 <= j < k < r@.len() ==> r@[j].0 < r@[k].0,
            sent_indices(r@) == send_plan(
                fifo_views(sample_txs@),
                0,
                old(self).send_budget(),
                old(self).cfg().fifo_depth as int,
            ),
            final(self).banks() == old(self).banks() + Seq::new(
                r@.len() as nat,
                |j: int| (old(self).tick() + old(self).cfg().send_delay) as Tick,
            ),
    {
        let mut res: Vec<(usize, Sample)> = Vec::new();
        if !self.can_send() {
            proof {
                assert(sent_indices(res@) =~= send_plan(
                    fifo_views(sample_txs@),
                    0,
                    old(self).send_budget(),
                    old(self).cfg().fifo_depth as int,
                ));
                assert(self.banks() =~= old(self).banks() + Seq::new(
                    res@.len() as nat,
                    |j: int| (old(self).tick() + old(self).cfg().send_delay) as Tick,
                ));
            }
            return res;
        }
        let mut i: usize = 0;
        while i < sample_txs.len()
            invariant
                self.cfg() == old(self).cfg(),
                self.tick() == old(self).tick(),
                self.num_samples() == old(self).num_samples(),
                self.curr_weight_version() == old(self).curr_weight_version(),
                self.wvq() == old(self).wvq(),
                self.fold_ready() == old(self).fold_ready(),
                self.log() == old(self).log(),
                self.wf(),
                i <= sample_txs@.len(),
                self.next_sample() == old(self).next_sample() + res@.len(),
                self.next_sample() < self.num_samples(),
                self.banks().len() < self.cfg().n_weight_banks,
                forall|i2: int|
                    0 <= i2 < sample_txs@.len() ==> (#[trigger] sample_txs@[i2])@.len()
                        <= old(self).cfg().fifo_depth,
                forall|j: int|
                    0 <= j < res@.len() ==> (#[trigger] res@[j]).1 == (Sample {
                        time: (old(self).tick() + old(self).cfg().send_delay
                            + old(self).cfg().network_delay) as Tick,
                        sample_id: (old(self).next_sample() + j) as usize,
                        weight_version: old(self).curr_weight_version(),
                    }),
                forall|j: int| 0 <= j < res@.len() ==> (#[trigger] res@[j]).0 < i,
                forall|j: int|
                    0 <= j < res@.len() ==> sample_txs@[(#[trigger] res@[j]).0 as int]@.len()
                        < old(self).cfg().fifo_depth,
                forall|j: int, k: int| 0 <= j < k < res@.len() ==> res@[j].0 < res@[k].0,
                self.send_budget() == old(self).send_budget() - res@.len(),
                self.banks() == old(self).banks() + Seq::new(
                    res@.len() as nat,
                    |j: int| (old(self).tick() + old(self).cfg().send_delay) as Tick,
                ),
                send_plan(
                    fifo_views(sample_txs@),
                    0,
                    old(self).send_budget(),
                    old(self).cfg().fifo_depth as int,
                ) == sent_indices(res@) + send_plan(
                    fifo_views(sample_txs@),
                    i as int,
                    self.send_budget(),
                    old(self).cfg().fifo_depth as int,
                ),
            decreases sample_txs@.len() - i,
        {
            let ghost depth = old(self).cfg().fifo_depth as int;
            let ghost res_prev = res@;
            let ghost budget_here = self.send_budget();
            if sample_txs[i].len() < self.cfg.fifo_depth {
                proof {
                    assert(budget_here > 0);
                    assert(send_plan(fifo_views(sample_txs@), i as int, budget_here, depth) == seq![i as int]
                        + send_plan(fifo_views(sample_txs@), i as int + 1, budget_here - 1, depth));
                }
                let s = self.send_next_sample();
                res.push((i, s));
                proof {
                    assert(self.banks() =~= old(self).banks() + Seq::new(
                        res@.len() as nat,
                        |j: int| (old(self).tick() + old(self).cfg().send_delay) as Tick,
                    ));
                    assert(sent_indices(res@) =~= sent_indices(res_prev).push(i as int));
                    assert(sent_indices(res_prev) + (seq![i as int] + send_plan(
                        fifo_views(sample_txs@),
                        i as int + 1,
                        budget_here - 1,
                        depth,
                    )) =~= sent_indices(res@) + send_plan(
                        fifo_views(sample_txs@),
                        i as int + 1,
                        budget_here - 1,
                        depth,
                    ));
                }
                if !self.can_send() {
                    proof {
                        assert(self.send_budget() == 0);
                        assert(send_plan(fifo_views(sample_txs@), i as int + 1, 0, depth)
                            =~= Seq::<int>::empty());
                        assert(sent_indices(res@) + Seq::<int>::empty() =~= sent_indices(res@));
                    }
                    return res;
                }
            }
            i = i + 1;
        }
        proof {
            let depth = old(self).cfg().fifo_depth as int;
            assert(send_plan(fifo_views(sample_txs@), sample_txs@.len() as int, self.send_budget(), depth)
                =~= Seq::<int>::empty());
            assert(sent_indices(res@) + Seq::<int>::empty() =~= sent_indices(res@));
        }
        res
    }

    /// Append one fold's worth of updates to the log, each stamped with its
    /// commit tick, and schedule the resulting weight version.
    fn fold_gradient(&mut self, updates: Vec<Sample>)
        requires
            old(self).wf(),
            old(self).fold_slot_free(),
            old(self).tick() >= old(self).fold_ready(),
            1 <= updates@.len() <= old(self).cfg().n_folders,
            old(self).log().len() + updates@.len() <= usize::MAX,
        ensures
            final(self).cfg() == old(self).cfg(),
            final(self).tick() == old(self).tick(),
            final(self).num_samples() == old(self).num_samples(),
            final(self).next_sample() == old(self).next_sample(),
            final(self).curr_weight_version() == old(self).curr_weight_version(),
            final(self).banks() == old(self).banks(),
            final(self).log() == old(self).log() + stamp(
                updates@,
                (old(self).tick() + old(self).cfg().fold_latency) as Tick,
            ),
            final(self).wvq() == old(self).wvq().push(
                (
                    (old(self).tick() + old(self).cfg().fold_latency) as Tick,
                    (old(self).log().len() + updates@.len()) as usize,
                ),
            ),
            final(self).fold_ready() == old(self).tick() + old(self).cfg().fold_ii,
            final(self).wf(),
    {
        proof {
            assert(old(self).tick() + old(self).cfg().fold_latency <= TICK_LIMIT + DELAY_LIMIT);
            assert(old(self).tick() + old(self).cfg().fold_ii <= TICK_LIMIT + DELAY_LIMIT);
        }
        let n = updates.len();
        self.push_new_weight_version(n);
        self.fold_ready_at = self.tick + self.cfg.fold_ii;

        let stamp_time = self.tick + self.cfg.fold_latency;
        let ghost mid = *self;
        let mut k: usize = 0;
        while k < updates.len()
            invariant
                k <= updates@.len(),
                self.cfg() == mid.cfg(),
                self.tick() == mid.tick(),
                self.num_samples() == mid.num_samples(),
                self.next_sample() == mid.next_sample(),
                self.curr_weight_version() == mid.curr_weight_version(),
                self.banks() == mid.banks(),
                self.wvq() == mid.wvq(),
                self.fold_ready() == mid.fold_ready(),
                stamp_time == mid.tick() + mid.cfg().fold_latency,
                self.log() == mid.log() + stamp(updates@.take(k as int), stamp_time),
            decreases updates@.len() - k,
        {
            let mut u = updates[k];
            u.time = stamp_time;
            self.update_logs.push(u);
            proof {
                assert(updates@.take(k as int + 1).drop_last() =~= updates@.take(k as int));
                assert(stamp(updates@.take(k as int + 1), stamp_time) =~= stamp(
                    updates@.take(k as int),
                    stamp_time,
                ).push(u));
                assert(self.log() =~= mid.log() + stamp(updates@.take(k as int + 1), stamp_time));
            }
            k = k + 1;
        }
        proof {
            assert(updates@.take(updates@.len() as int) =~= updates@);
            let t = (old(self).tick() + old(self).cfg().fold_latency) as Tick;
            let news = stamp(updates@, t);
            assert(final(self).log() =~= old(self).log() + news);
            // Re-establish the version-pipeline invariants.
            let q2 = final(self).wvq();
            let q1 = old(self).wvq();
            assert(q2 == q1.push((t, (old(self).log().len() + updates@.len()) as usize)));
            assert forall|i: int, j: int| 0 <= i <= j < q2.len() implies (#[trigger] q2[i]).0
                <= (#[trigger] q2[j]).0 by {
                if j < q1.len() {
                } else {
                    if i < q1.len() {
                        assert(q1[i].0 <= old(self).tick() + old(self).cfg().fold_latency);
                    }
                }
            }
            assert forall|i: int, j: int| 0 <= i <= j < q2.len() implies (#[trigger] q2[i]).1
                <= (#[trigger] q2[j]).1 by {
                if j < q1.len() {
                } else {
                    if i < q1.len() {
                        assert(q1[i].1 <= old(self).spearhead());
                    }
                }
            }
            assert(final(self).spearhead() == final(self).log().len());
            let l2 = final(self).log();
            let l1 = old(self).log();
            assert forall|i: int, j: int| 0 <= i <= j < l2.len() implies (#[trigger] l2[i]).time
                <= (#[trigger] l2[j]).time by {
                if j < l1.len() {
                } else {
                    assert(l2[j].time == t);
                    if i < l1.len() {
                        assert(l1[i].time <= l1.last().time);
                    } else {
                        assert(l2[i].time == t);
                    }
                }
            }
            assert(l2.last().time == t);
            // One fold fills at most `n_folders` slots of a fresh commit time.
            assert forall|t2: int| #[trigger] cnt_time(l2, t2) <= old(self).cfg().n_folders by {
                lemma_cnt_time_concat(l1, news, t2);
                lemma_cnt_time_stamp(updates@, t, t2);
                if t2 == t as int {
                    assert forall|m: int| 0 <= m < l1.len() implies (#[trigger] l1[m]).time
                        < t2 by {
                        assert(l1[m].time <= l1.last().time);
                    }
                    lemma_cnt_time_zero_above(l1, t2);
                }
            }
        }
    }

    /// If the fold unit is free, pop one arrived update from each worker's
    /// FIFO in index order, at most `n_folders` in all, and fold them.
    fn try_receive_samples(&mut self, update_rxs: &mut Vec<TimeFifo>)
        requires
            old(self).wf(),
            old(self).fold_slot_free(),
            forall|i: int| 0 <= i < old(update_rxs)@.len() ==> (#[trigger] old(update_rxs)@[i]).wf(),
            fifos_pkts_ok(old(update_rxs)@, old(self).next_sample() as int),
            seq_pkts_ok(old(self).log(), old(self).next_sample() as int),
            old(self).log().len() + old(self).cfg().n_folders <= usize::MAX,
        ensures
            final(self).cfg() == old(self).cfg(),
            final(self).tick() == old(self).tick(),
            final(self).num_samples() == old(self).num_samples(),
            final(self).next_sample() == old(self).next_sample(),
            final(self).curr_weight_version() == old(self).curr_weight_version(),
            final(self).banks() == old(self).banks(),
            final(self).wf(),
            final(update_rxs)@.len() == old(update_rxs)@.len(),
            forall|i: int|
                0 <= i < final(update_rxs)@.len() ==> (#[trigger] final(update_rxs)@[i]).cap()
                    == old(update_rxs)@[i].cap() && final(update_rxs)@[i].wf(),
            forall|i: int|
                0 <= i < final(update_rxs)@.len() ==> (#[trigger] final(update_rxs)@[i])@
                    == old(update_rxs)@[i]@ || final(update_rxs)@[i]@ == old(
                    update_rxs,
                )@[i]@.drop_first(),
            forall|id: int|
                cnt_fifos(final(update_rxs)@, id) + cnt_seq(final(self).log(), id) == cnt_fifos(
                    old(update_rxs)@,
                    id,
                ) + cnt_seq(old(self).log(), id),
            seq_pkts_ok(final(self).log(), old(self).next_sample() as int),
            fifos_pkts_ok(final(update_rxs)@, old(self).next_sample() as int),
            old(self).tick() >= old(self).fold_ready() ==> ({
                let plan = receive_plan(
                    fifo_views(old(update_rxs)@),
                    0,
                    old(self).tick(),
                    old(self).cfg().n_folders as int,
                );
                let commit_t = (old(self).tick() + old(self).cfg().fold_latency) as Tick;
                &&& forall|k: int|
                    0 <= k < final(update_rxs)@.len() ==> (#[trigger] final(update_rxs)@[k])@
                        == (if plan.contains(k) {
                        old(update_rxs)@[k]@.drop_first()
                    } else {
                        old(update_rxs)@[k]@
                    })
                &&& plan.len() > 0 ==> final(self).log() == old(self).log() + stamp(
                    plan.map_values(|k: int| old(update_rxs)@[k]@[0]),
                    commit_t,
                ) && final(self).wvq() == old(self).wvq().push(
                    (commit_t, (old(self).log().len() + plan.len()) as usize),
                ) && final(self).fold_ready() == old(self).tick() + old(self).cfg().fold_ii
                &&& plan.len() == 0 ==> final(self).log() == old(self).log() && final(self).wvq()
                    == old(self).wvq() && final(self).fold_ready() == old(self).fold_ready()
            }),
            old(self).tick() < old(self).fold_ready() ==> final(self).log() == old(self).log()
                && final(self).wvq() == old(self).wvq() && final(self).fold_ready() == old(
                self,
            ).fold_ready() && final(update_rxs)@ == old(update_rxs)@,
    {
        if !self.can_fold() {
            return;
        }
        let now = self.tick;
        let n_folders = self.cfg.n_folders;
        let ghost snap = *self;
        let mut updates: Vec<Sample> = Vec::new();
        let ghost mut popped: Seq<int> = Seq::<int>::empty();
        proof {
            assert(popped.map_values(|k: int| old(update_rxs)@[k]@[0]) =~= Seq::<
                Sample,
            >::empty());
            assert(popped + receive_plan(fifo_views(old(update_rxs)@), 0, now, n_folders as int)
                =~= receive_plan(fifo_views(old(update_rxs)@), 0, now, n_folders as int));
        }
        let mut i: usize = 0;
        while i < update_rxs.len()
            invariant
                *self == snap,
                snap == *old(self),
                old(self).wf(),
                now == old(self).tick(),
                n_folders == old(self).cfg().n_folders,
                i <= update_rxs@.len(),
                update_rxs@.len() == old(update_rxs)@.len(),
                updates@.len() <= n_folders,
                popped.len() == updates@.len(),
                forall|j: int| 0 <= j < popped.len() ==> 0 <= #[trigger] popped[j] < i,
                updates@ == popped.map_values(|k: int| old(update_rxs)@[k]@[0]),
                receive_plan(fifo_views(old(update_rxs)@), 0, now, n_folders as int) == popped + receive_plan(
                    fifo_views(old(update_rxs)@),
                    i as int,
                    now,
                    n_folders as int - updates@.len(),
                ),
                forall|k: int|
                    0 <= k < update_rxs@.len() ==> (#[trigger] update_rxs@[k])@ == (if popped.contains(
                        k,
                    ) {
                        old(update_rxs)@[k]@.drop_first()
                    } else {
                        old(update_rxs)@[k]@
                    }),
                forall|k: int|
                    0 <= k < update_rxs@.len() ==> (#[trigger] update_rxs@[k]).cap() == old(
                        update_rxs,
                    )@[k].cap() && update_rxs@[k].wf(),
                forall|k: int|
                    0 <= k < update_rxs@.len() ==> (#[trigger] update_rxs@[k])@ == old(
                        update_rxs,
                    )@[k]@ || update_rxs@[k]@ == old(update_rxs)@[k]@.drop_first(),
                forall|k: int|
                    i <= k < update_rxs@.len() ==> (#[trigger] update_rxs@[k])@ == old(
                        update_rxs,
                    )@[k]@,
                forall|id: int|
                    cnt_fifos(update_rxs@, id) + cnt_seq(updates@, id) == cnt_fifos(
                        old(update_rxs)@,
                        id,
                    ),
                seq_pkts_ok(updates@, old(self).next_sample() as int),
                fifos_pkts_ok(update_rxs@, old(self).next_sample() as int),
            decreases update_rxs@.len() - i,
        {
            if updates.len() < n_folders {
                let ghost fs_prev = update_rxs@;
                let ghost ups_prev = updates@;
                proof {
                    if popped.contains(i as int) {
                        let j = choose|j: int| 0 <= j < popped.len() && popped[j] == i as int;
                        assert(false);
                    }
                    assert(fs_prev[i as int]@ == old(update_rxs)@[i as int]@);
                }
                let fifo = &mut update_rxs[i];
                if fifo.can_pop(now) {
                    let p = fifo.pop_head();
                    updates.push(p);
                    proof {
                        let b = n_folders as int - ups_prev.len();
                        assert(b > 0);
                        assert(old(update_rxs)@[i as int]@.len() > 0 && old(
                            update_rxs,
                        )@[i as int]@[0].time <= now);
                        assert(receive_plan(fifo_views(old(update_rxs)@), i as int, now, b) == seq![i as int]
                            + receive_plan(fifo_views(old(update_rxs)@), i as int + 1, now, b - 1));
                        let popped_prev = popped;
                        popped = popped.push(i as int);
                        assert(popped_prev + (seq![i as int] + receive_plan(
                            fifo_views(old(update_rxs)@),
                            i as int + 1,
                            now,
                            b - 1,
                        )) =~= popped + receive_plan(fifo_views(old(update_rxs)@), i as int + 1, now, b - 1));
                        assert(p == old(update_rxs)@[i as int]@[0]);
                        assert(updates@ =~= popped.map_values(
                            |k: int| old(update_rxs)@[k]@[0],
                        ));
                        assert(update_rxs@ =~= fs_prev.update(i as int, *final(fifo)));
                        assert forall|k: int|
                            0 <= k < update_rxs@.len() implies (#[trigger] update_rxs@[k])@ == (
                        if popped.contains(k) {
                            old(update_rxs)@[k]@.drop_first()
                        } else {
                            old(update_rxs)@[k]@
                        }) by {
                            lemma_contains_push(popped_prev, i as int, k);
                            if k == i as int {
                                assert(update_rxs@[k]@ == fs_prev[k]@.drop_first());
                            } else {
                                assert(update_rxs@[k]@ == fs_prev[k]@);
                            }
                        }
                        assert(update_rxs@ =~= fs_prev.update(i as int, *final(fifo)));
                        assert forall|id: int|
                            cnt_fifos(update_rxs@, id) + cnt_seq(updates@, id) == cnt_fifos(
                                old(update_rxs)@,
                                id,
                            ) by {
                            lemma_cnt_fifos_update(fs_prev, i as int, *final(fifo), id);
                            lemma_cnt_seq_push(ups_prev, p, id);
                        }
                        assert(seq_pkts_ok(fs_prev[i as int]@, old(self).next_sample() as int));
                        assert(p == fs_prev[i as int]@[0]);
                        assert forall|k: int|
                            0 <= k < updates@.len() implies crate::sample_count::pkt_ok(
                            #[trigger] updates@[k],
                            old(self).next_sample() as int,
                        ) by {
                            if k < ups_prev.len() {
                            } else {
                                assert(updates@[k] == p);
                            }
                        }
                        assert forall|k: int|
                            0 <= k < update_rxs@.len() implies seq_pkts_ok(
                            (#[trigger] update_rxs@[k])@,
                            old(self).next_sample() as int,
                        ) by {
                            if k == i as int {
                                assert forall|m: int|
                                    0 <= m < update_rxs@[k]@.len() implies crate::sample_count::pkt_ok(
                                    #[trigger] update_rxs@[k]@[m],
                                    old(self).next_sample() as int,
                                ) by {
                                    assert(update_rxs@[k]@[m] == fs_prev[k]@[m + 1]);
                                }
                            }
                        }
                    }
                } else {
                    proof {
                        assert(update_rxs@ =~= fs_prev.update(i as int, *final(fifo)));
                        assert(update_rxs@ =~= fs_prev);
                        let b = n_folders as int - ups_prev.len();
                        assert(b > 0);
                        assert(!(old(update_rxs)@[i as int]@.len() > 0 && old(
                            update_rxs,
                        )@[i as int]@[0].time <= now));
                        assert(receive_plan(fifo_views(old(update_rxs)@), i as int, now, b) == receive_plan(
                            fifo_views(old(update_rxs)@),
                            i as int + 1,
                            now,
                            b,
                        ));
                    }
                }
            }
            i = i + 1;
        }
        proof {
            assert(receive_plan(
                fifo_views(old(update_rxs)@),
                update_rxs@.len() as int,
                now,
                n_folders as int - updates@.len(),
            ) =~= Seq::<int>::empty());
            assert(popped + Seq::<int>::empty() =~= popped);
            assert(receive_plan(fifo_views(old(update_rxs)@), 0, now, n_folders as int) == popped);
        }
        if updates.len() > 0 {
            let ghost ups = updates@;
            let ghost pre_fold_log = self.log();
            self.fold_gradient(updates);
            proof {
                let t = (snap.tick() + snap.cfg().fold_latency) as Tick;
                assert(final(self).log() == pre_fold_log + stamp(ups, t));
                let plan = receive_plan(
                    fifo_views(old(update_rxs)@),
                    0,
                    old(self).tick(),
                    old(self).cfg().n_folders as int,
                );
                assert(plan == popped);
                assert(ups == plan.map_values(|k: int| old(update_rxs)@[k]@[0]));
                assert forall|id: int|
                    cnt_fifos(final(update_rxs)@, id) + cnt_seq(final(self).log(), id) == cnt_fifos(
                        old(update_rxs)@,
                        id,
                    ) + cnt_seq(old(self).log(), id) by {
                    lemma_cnt_seq_concat(pre_fold_log, stamp(ups, t), id);
                    lemma_cnt_seq_stamp(ups, t, id);
                }
                assert forall|k: int|
                    0 <= k < final(self).log().len() implies crate::sample_count::pkt_ok(
                    #[trigger] final(self).log()[k],
                    old(self).next_sample() as int,
                ) by {
                    if k < pre_fold_log.len() {
                    } else {
                        let m = k - pre_fold_log.len();
                        assert(final(self).log()[k] == stamp(ups, t)[m]);
                        assert(crate::sample_count::pkt_ok(ups[m], old(self).next_sample() as int));
                    }
                }
            }
        }
    }

    /// After the last update is received: advance the clock past the final
    /// commit, drain the version queue, and observe that exactly
    /// `num_samples` folds have committed.
    pub fn cleanup(&mut self)
        requires
            old(self).wf_versions(),
            old(self).log().len() == old(self).num_samples(),
        ensures
            final(self).num_samples() == old(self).num_samples(),
            final(self).log() == old(self).log(),
            final(self).tick() as int == spec_max_sample_time(old(self).log()),
            final(self).wvq().len() == 0,
            final(self).curr_weight_version() == old(self).num_samples(),
    {
        self.tick = max_sample_time(&self.update_logs);
        proof {
            if self.wvq().len() > 0 {
                lemma_max_sample_time_sorted(self.log());
                assert forall|i: int| 0 <= i < self.wvq().len() implies (#[trigger] self.wvq()[i]).0
                    <= self.tick() by {
                    assert(self.wvq()[i].0 <= self.wvq().last().0);
                }
            }
            lemma_commit_all(self.wvq(), self.tick(), self.curr_weight_version());
        }
        self.update_weight_version();
    }

    /// One global tick of the server: free banks, commit pending versions,
    /// issue samples, fold arrived updates, advance the clock.
    pub fn tick_server(&mut self, sample_txs: &Vec<TimeFifo>, update_rxs: &mut Vec<TimeFifo>) -> (r:
        Vec<(usize, Sample)>)
        requires
            old(self).wf(),
            old(self).fold_slot_free(),
            old(self).tick() < TICK_LIMIT,
            forall|i: int|
                0 <= i < sample_txs@.len() ==> (#[trigger] sample_txs@[i])@.len()
                    <= old(self).cfg().fifo_depth,
            forall|i: int| 0 <= i < old(update_rxs)@.len() ==> (#[trigger] old(update_rxs)@[i]).wf(),
            fifos_pkts_ok(old(update_rxs)@, old(self).next_sample() as int),
            seq_pkts_ok(old(self).log(), old(self).next_sample() as int),
            old(self).log().len() + old(self).cfg().n_folders <= usize::MAX,
        ensures
            final(self).cfg() == old(self).cfg(),
            final(self).num_samples() == old(self).num_samples(),
            final(self).tick() == old(self).tick() + 1,
            final(self).wf(),
            final(self).fold_slot_free(),
            final(self).next_sample() == old(self).next_sample() + r@.len(),
            final(update_rxs)@.len() == old(update_rxs)@.len(),
            forall|i: int|
                0 <= i < final(update_rxs)@.len() ==> (#[trigger] final(update_rxs)@[i]).cap()
                    == old(update_rxs)@[i].cap() && final(update_rxs)@[i].wf(),
            forall|id: int|
                cnt_fifos(final(update_rxs)@, id) + cnt_seq(final(self).log(), id) == cnt_fifos(
                    old(update_rxs)@,
                    id,
                ) + cnt_seq(old(self).log(), id),
            seq_pkts_ok(final(self).log(), final(self).next_sample() as int),
            fifos_pkts_ok(final(update_rxs)@, final(self).next_sample() as int),
            forall|j: int|
                0 <= j < r@.len() ==> (#[trigger] r@[j]).1.sample_id == old(self).next_sample() + j,
            forall|j: int|
                0 <= j < r@.len() ==> (#[trigger] r@[j]).1.weight_version <= old(self).log().len(),
            forall|j: int| 0 <= j < r@.len() ==> (#[trigger] r@[j]).0 < sample_txs@.len(),
            forall|j: int|
                0 <= j < r@.len() ==> sample_txs@[(#[trigger] r@[j]).0 as int]@.len()
                    < old(self).cfg().fifo_depth,
            forall|j: int, k: int| 0 <= j < k < r@.len() ==> r@[j].0 < r@[k].0,
            // The whole tick is a function of the starting state: banks free
            // and versions commit by the clock, the send scan serves exactly
            // `send_plan`, and the fold drains exactly `receive_plan`.
            ({
                let t = old(self).tick();
                let cfgv = old(self).cfg();
                let banks1 = drop_ready_ticks(old(self).banks(), t);
                let cwv1 = commit_version(old(self).wvq(), t, old(self).curr_weight_version());
                let wvq1 = drop_committed(old(self).wvq(), t);
                let a = old(self).num_samples() - old(self).next_sample();
                let bb = cfgv.n_weight_banks - banks1.len();
                let budget1 = if a <= bb {
                    a
                } else {
                    bb
                };
                let plan_s = send_plan(fifo_views(sample_txs@), 0, budget1, cfgv.fifo_depth as int);
                let can_f = t >= old(self).fold_ready();
                let plan_r = receive_plan(fifo_views(old(update_rxs)@), 0, t, cfgv.n_folders as int);
                let commit_t = (t + cfgv.fold_latency) as Tick;
                &&& sent_indices(r@) == plan_s
                &&& forall|j: int|
                    0 <= j < r@.len() ==> (#[trigger] r@[j]).1 == (Sample {
                        time: (t + cfgv.send_delay + cfgv.network_delay) as Tick,
                        sample_id: (old(self).next_sample() + j) as usize,
                        weight_version: cwv1,
                    })
                &&& final(self).curr_weight_version() == cwv1
                &&& final(self).banks() == banks1 + Seq::new(
                    plan_s.len() as nat,
                    |j: int| (t + cfgv.send_delay) as Tick,
                )
                &&& can_f ==> {
                    &&& forall|k: int|
                        0 <= k < final(update_rxs)@.len() ==> (#[trigger] final(update_rxs)@[k])@
                            == (if plan_r.contains(k) {
                            old(update_rxs)@[k]@.drop_first()
                        } else {
                            old(update_rxs)@[k]@
                        })
                    &&& plan_r.len() > 0 ==> final(self).log() == old(self).log() + stamp(
                        plan_r.map_values(|k: int| old(update_rxs)@[k]@[0]),
                        commit_t,
                    ) && final(self).wvq() == wvq1.push(
                        (commit_t, (old(self).log().len() + plan_r.len()) as usize),
                    ) && final(self).fold_ready() == t + cfgv.fold_ii
                    &&& plan_r.len() == 0 ==> final(self).log() == old(self).log()
                        && final(self).wvq() == wvq1 && final(self).fold_ready() == old(
                        self,
                    ).fold_ready()
                }
                &&& !can_f ==> final(update_rxs)@ == old(update_rxs)@ && final(self).log() == old(
                    self,
                ).log() && final(self).wvq() == wvq1 && final(self).fold_ready() == old(
                    self,
                ).fold_ready()
            }),
    {
        self.clear_free_banks();
        self.update_weight_version();
        proof {
            // The clock has not moved, so the full invariant is restored.
            assert(final(self).wf() || self.wf());
        }
        let samples = self.try_send_samples(sample_txs);
        proof {
            assert forall|j: int| 0 <= j < samples@.len() implies (#[trigger] samples@[j]).1.weight_version
                <= old(self).log().len() by {
                assert(samples@[j].1.weight_version == self.curr_weight_version());
            }
        }
        self.try_receive_samples(update_rxs);
        self.tick = self.tick + 1;
        proof {
            assert forall|i: int, j: int|
                0 <= i <= j < final(self).banks().len() implies (#[trigger] final(self).banks()[i])
                <= (#[trigger] final(self).banks()[j]) by {}
        }
        samples
    }
}

} // verus!
