use vstd::prelude::*;
use crate::channel::TimeFifo;
use crate::config::{SimConfig, TICK_LIMIT};
use crate::packet::{Sample, Tick, spec_max_sample_time};
use crate::params_server::{
    ParamsServerState, commit_version, drop_committed, drop_ready_ticks, fifo_views,
    lemma_receive_plan_bounds, receive_plan, send_plan, sent_indices,
};
use crate::sample_count::{
    cnt_seq, cnt_fifos, cnt_pairs, cnt_time, fifos_pkts_ok, seq_pkts_ok, pkt_ok, lemma_cnt_fifos_push,
    lemma_cnt_fifos_update, lemma_cnt_seq_push, lemma_cnt_pairs_consecutive,
    lemma_bounded_distinct_len, lemma_cnt_seq_nonneg, lemma_cnt_fifos_nonneg,
    lemma_cnt_le_one_distinct, lemma_sum_cnt_len, lemma_sum_cnt_full, stamp,
};
use crate::worker::WorkerState;

verus! {

/// A snapshot of the whole simulated system between global ticks, down to
/// raw sequences: the mathematical state the tick loop advances.
#[verifier::ext_equal]
pub ghost struct SimSnapshot {
    pub tick: Tick,
    pub num_samples: usize,
    pub next_sample: usize,
    pub curr_weight_version: usize,
    pub banks: Seq<Tick>,
    pub wvq: Seq<(Tick, usize)>,
    pub fold_ready: Tick,
    pub log: Seq<Sample>,
    /// Per worker: its clock and the tick its pipeline reopens.
    pub workers: Seq<(Tick, Tick)>,
    pub sfs: Seq<Seq<Sample>>,
    pub ufs: Seq<Seq<Sample>>,
}

/// The snapshot a concrete driver state denotes.
pub open spec fn snapshot_of(
    server: ParamsServerState,
    workers: Seq<WorkerState>,
    sfs: Seq<TimeFifo>,
    ufs: Seq<TimeFifo>,
) -> SimSnapshot {
    SimSnapshot {
        tick: server.tick(),
        num_samples: server.num_samples(),
        next_sample: server.next_sample(),
        curr_weight_version: server.curr_weight_version(),
        banks: server.banks(),
        wvq: server.wvq(),
        fold_ready: server.fold_ready(),
        log: server.log(),
        workers: workers.map_values(|w: WorkerState| (w.tick(), w.next_ready())),
        sfs: fifo_views(sfs),
        ufs: fifo_views(ufs),
    }
}

/// The freshly initialized system.
pub open spec fn spec_init(cfg: SimConfig, num_samples: usize) -> SimSnapshot {
    SimSnapshot {
        tick: 0,
        num_samples,
        next_sample: 0,
        curr_weight_version: 0,
        banks: Seq::<Tick>::empty(),
        wvq: Seq::<(Tick, usize)>::empty(),
        fold_ready: 0,
        log: Seq::<Sample>::empty(),
        workers: Seq::new(cfg.n_workers as nat, |k: int| (0 as Tick, 0 as Tick)),
        sfs: Seq::new(cfg.n_workers as nat, |k: int| Seq::<Sample>::empty()),
        ufs: Seq::new(cfg.n_workers as nat, |k: int| Seq::<Sample>::empty()),
    }
}

/// Whether a worker with pipeline-reopen tick `nr` fires at tick `t`, given
/// its sample FIFO and its (already drained) update FIFO.
pub open spec fn worker_fires(
    cfg: SimConfig,
    t: Tick,
    nr: Tick,
    sf: Seq<Sample>,
    uf: Seq<Sample>,
) -> bool {
    &&& t >= nr
    &&& uf.len() < cfg.fifo_depth
    &&& sf.len() > 0
    &&& sf[0].time <= t
}

/// Place an issued batch into the sample FIFOs, in order.
pub open spec fn push_batch(
    sfs: Seq<Seq<Sample>>,
    pairs: Seq<(usize, Sample)>,
    j: int,
) -> Seq<Seq<Sample>>
    decreases pairs.len() - j,
{
    if j >= pairs.len() {
        sfs
    } else {
        push_batch(
            sfs.update(pairs[j].0 as int, sfs[pairs[j].0 as int].push(pairs[j].1)),
            pairs,
            j + 1,
        )
    }
}

/// One global tick of the whole system, as a mathematical function: the
/// server frees banks, commits versions, issues `send_plan` and folds
/// `receive_plan`; then every worker ticks; then the issued samples enter
/// the FIFOs.
pub open spec fn spec_tick(cfg: SimConfig, m: SimSnapshot) -> SimSnapshot {
    let t = m.tick;
    let banks1 = drop_ready_ticks(m.banks, t);
    let cwv1 = commit_version(m.wvq, t, m.curr_weight_version);
    let wvq1 = drop_committed(m.wvq, t);
    let a = m.num_samples - m.next_sample;
    let bb = cfg.n_weight_banks - banks1.len();
    let budget1 = if a <= bb {
        a
    } else {
        bb
    };
    let plan_s = send_plan(m.sfs, 0, budget1, cfg.fifo_depth as int);
    let issued = Seq::new(
        plan_s.len(),
        |j: int|
            (
                plan_s[j] as usize,
                Sample {
                    time: (t + cfg.send_delay + cfg.network_delay) as Tick,
                    sample_id: (m.next_sample + j) as usize,
                    weight_version: cwv1,
                },
            ),
    );
    let can_f = t >= m.fold_ready;
    let plan_r = receive_plan(m.ufs, 0, t, cfg.n_folders as int);
    let commit_t = (t + cfg.fold_latency) as Tick;
    let did_fold = can_f && plan_r.len() > 0;
    let log2 = if did_fold {
        m.log + stamp(plan_r.map_values(|k: int| m.ufs[k][0]), commit_t)
    } else {
        m.log
    };
    let wvq2 = if did_fold {
        wvq1.push((commit_t, (m.log.len() + plan_r.len()) as usize))
    } else {
        wvq1
    };
    let fr2 = if did_fold {
        (t + cfg.fold_ii) as Tick
    } else {
        m.fold_ready
    };
    let ufs2 = if can_f {
        Seq::new(
            m.ufs.len(),
            |k: int|
                if plan_r.contains(k) {
                    m.ufs[k].drop_first()
                } else {
                    m.ufs[k]
                },
        )
    } else {
        m.ufs
    };
    let sfs3 = Seq::new(
        m.sfs.len(),
        |k: int|
            if worker_fires(cfg, t, m.workers[k].1, m.sfs[k], ufs2[k]) {
                m.sfs[k].drop_first()
            } else {
                m.sfs[k]
            },
    );
    let ufs3 = Seq::new(
        m.ufs.len(),
        |k: int|
            if worker_fires(cfg, t, m.workers[k].1, m.sfs[k], ufs2[k]) {
                ufs2[k].push(WorkerState::emitted(cfg, t, m.sfs[k][0]))
            } else {
                ufs2[k]
            },
    );
    let workers3 = Seq::new(
        m.workers.len(),
        |k: int|
            (
                (t + 1) as Tick,
                if worker_fires(cfg, t, m.workers[k].1, m.sfs[k], ufs2[k]) {
                    (t + cfg.gradient_ii) as Tick
                } else {
                    m.workers[k].1
                },
            ),
    );
    SimSnapshot {
        tick: (t + 1) as Tick,
        num_samples: m.num_samples,
        next_sample: (m.next_sample + plan_s.len()) as usize,
        curr_weight_version: cwv1,
        banks: banks1 + Seq::new(plan_s.len(), |j: int| (t + cfg.send_delay) as Tick),
        wvq: wvq2,
        fold_ready: fr2,
        log: log2,
        workers: workers3,
        sfs: push_batch(sfs3, issued, 0),
        ufs: ufs3,
    }
}

/// The observable result of running the system from `m` to completion: the
/// final clock and the update log, or nothing if the clock would hit
/// `TICK_LIMIT` first.  `run_simulation` returns exactly this value, so two
/// runs with equal parameters return byte-identical results.
pub open spec fn spec_run(cfg: SimConfig, m: SimSnapshot) -> Option<(Tick, Seq<Sample>)>
    decreases TICK_LIMIT - m.tick,
{
    if m.log.len() == m.num_samples {
        Some((spec_max_sample_time(m.log) as Tick, m.log))
    } else if m.tick >= TICK_LIMIT {
        None
    } else {
        spec_run(cfg, spec_tick(cfg, m))
    }
}

/// The state the driver maintains between global ticks: a well-formed server
/// whose configuration every worker shares, clocks in lockstep, FIFOs within
/// capacity, every packet in flight carrying an issued id and a version no
/// newer than its id, and — the heart of the simulation — every issued id
/// sitting in exactly one place: some sample FIFO, some update FIFO, or the
/// update log.
pub open spec fn sim_inv(
    server: ParamsServerState,
    workers: Seq<WorkerState>,
    sfs: Seq<TimeFifo>,
    ufs: Seq<TimeFifo>,
    cfg: SimConfig,
    num_samples: usize,
) -> bool {
    let next = server.next_sample() as int;
    &&& server.wf()
    &&& server.fold_slot_free()
    &&& server.cfg() == cfg
    &&& server.num_samples() == num_samples
    &&& workers.len() == cfg.n_workers
    &&& sfs.len() == cfg.n_workers
    &&& ufs.len() == cfg.n_workers
    &&& forall|i: int| 0 <= i < workers.len() ==> (#[trigger] workers[i]).cfg() == cfg
    &&& forall|i: int| 0 <= i < workers.len() ==> (#[trigger] workers[i]).wf()
    &&& forall|i: int| 0 <= i < workers.len() ==> (#[trigger] workers[i]).tick() == server.tick()
    &&& forall|i: int|
        0 <= i < sfs.len() ==> (#[trigger] sfs[i]).wf() && sfs[i].cap() == cfg.fifo_depth
    &&& forall|i: int|
        0 <= i < ufs.len() ==> (#[trigger] ufs[i]).wf() && ufs[i].cap() == cfg.fifo_depth
    &&& fifos_pkts_ok(sfs, next)
    &&& fifos_pkts_ok(ufs, next)
    &&& seq_pkts_ok(server.log(), next)
    &&& forall|id: int|
        #[trigger] cnt_fifos(sfs, id) + cnt_fifos(ufs, id) + cnt_seq(server.log(), id) == if 0
            <= id < next {
            1int
        } else {
            0int
        }
    &&& server.log().len() <= next
}

/// Every id counted by the log is counted at most once anywhere, so at most
/// once in the log.
proof fn lemma_inv_log_counts(
    server: ParamsServerState,
    workers: Seq<WorkerState>,
    sfs: Seq<TimeFifo>,
    ufs: Seq<TimeFifo>,
    cfg: SimConfig,
    num_samples: usize,
)
    requires
        sim_inv(server, workers, sfs, ufs, cfg, num_samples),
    ensures
        forall|id: int| cnt_seq(server.log(), id) <= 1,
{
    assert forall|id: int| cnt_seq(server.log(), id) <= 1 by {
        lemma_cnt_fifos_nonneg(sfs, id);
        lemma_cnt_fifos_nonneg(ufs, id);
        lemma_cnt_seq_nonneg(server.log(), id);
    }
}

/// Run the tick-accurate schedule simulation: one parameter server, `cfg.n_workers`
/// workers, and a pair of bounded FIFOs per worker.  Within a global tick the
/// server moves first, then every worker; samples issued this tick enter the
/// FIFOs last, so nothing observes a packet on the tick it was sent.
///
/// Returns the cycle count and the update log, or `None` in the (practically
/// unreachable) case that the clock hits `TICK_LIMIT` before the last update
/// is received.  On success the log is a permutation of all `num_samples`
/// ids, each entry observed a weight version no newer than its own id, commit
/// times are non-decreasing, and the cycle count is the last commit time.
pub fn run_simulation(cfg: SimConfig, num_samples: usize) -> (r: Option<(Tick, Vec<Sample>)>)
    requires
        cfg.wf(),
        num_samples + cfg.n_folders <= usize::MAX,
    ensures
        match r {
            Some(out) => {
                &&& out.1@.len() == num_samples
                &&& forall|i: int|
                    0 <= i < out.1@.len() ==> (#[trigger] out.1@[i]).sample_id < num_samples
                &&& forall|i: int|
                    0 <= i < out.1@.len() ==> (#[trigger] out.1@[i]).weight_version
                        <= out.1@[i].sample_id
                &&& forall|i: int, j: int|
                    0 <= i < j < out.1@.len() ==> out.1@[i].sample_id != out.1@[j].sample_id
                &&& forall|id: int| 0 <= id < num_samples ==> cnt_seq(out.1@, id) == 1
                &&& forall|i: int, j: int|
                    0 <= i <= j < out.1@.len() ==> out.1@[i].time <= out.1@[j].time
                &&& forall|t: int| #[trigger] cnt_time(out.1@, t) <= cfg.n_folders
                &&& out.0 as int == spec_max_sample_time(out.1@)
                &&& num_samples > 0 ==> out.0 == out.1@.last().time
                &&& num_samples == 0 ==> out.0 == u64::MAX
            },
            None => true,
        },
        num_samples == 0 ==> r is Some,
        // The run is a function of its parameters: what comes back is exactly
        // `spec_run` of the initial system, so equal parameters give equal
        // cycle counts and byte-identical logs.
        ({
            let sr = spec_run(cfg, spec_init(cfg, num_samples));
            match r {
                Some(out) => sr == Some((out.0, out.1@)),
                None => sr is None,
            }
        }),
{
    let mut params_server = ParamsServerState::new(cfg, num_samples);
    let mut workers: Vec<WorkerState> = Vec::new();
    let mut sample_chans: Vec<TimeFifo> = Vec::new();
    let mut update_chans: Vec<TimeFifo> = Vec::new();
    let mut w: usize = 0;
    while w < cfg.n_workers
        invariant
            cfg.wf(),
            w <= cfg.n_workers,
            workers@.len() == w,
            sample_chans@.len() == w,
            update_chans@.len() == w,
            forall|i: int|
                0 <= i < w ==> (#[trigger] workers@[i]).cfg() == cfg && workers@[i].wf()
                    && workers@[i].tick() == 0 && workers@[i].next_ready() == 0,
            forall|i: int|
                0 <= i < w ==> (#[trigger] sample_chans@[i]).wf() && sample_chans@[i].cap()
                    == cfg.fifo_depth && sample_chans@[i]@.len() == 0,
            forall|i: int|
                0 <= i < w ==> (#[trigger] update_chans@[i]).wf() && update_chans@[i].cap()
                    == cfg.fifo_depth && update_chans@[i]@.len() == 0,
            forall|id: int| #[trigger] cnt_fifos(sample_chans@, id) == 0,
            forall|id: int| #[trigger] cnt_fifos(update_chans@, id) == 0,
        decreases cfg.n_workers - w,
    {
        let ghost sfs_prev = sample_chans@;
        let ghost ufs_prev = update_chans@;
        workers.push(WorkerState::new(cfg));
        let sf = TimeFifo::new(cfg.fifo_depth);
        let uf = TimeFifo::new(cfg.fifo_depth);
        proof {
            assert forall|id: int| #[trigger] cnt_fifos(sfs_prev.push(sf), id) == 0 by {
                lemma_cnt_fifos_push(sfs_prev, sf, id);
            }
            assert forall|id: int| #[trigger] cnt_fifos(ufs_prev.push(uf), id) == 0 by {
                lemma_cnt_fifos_push(ufs_prev, uf, id);
            }
        }
        sample_chans.push(sf);
        update_chans.push(uf);
        w = w + 1;
    }
    proof {
        let m = snapshot_of(params_server, workers@, sample_chans@, update_chans@);
        let m0 = spec_init(cfg, num_samples);
        assert(m.workers =~= m0.workers);
        assert forall|k: int| 0 <= k < cfg.n_workers implies #[trigger] m.sfs[k] =~= m0.sfs[k] by {
            assert(sample_chans@[k]@.len() == 0);
        }
        assert forall|k: int| 0 <= k < cfg.n_workers implies #[trigger] m.ufs[k] =~= m0.ufs[k] by {
            assert(update_chans@[k]@.len() == 0);
        }
        assert(m.sfs =~~= m0.sfs);
        assert(m.ufs =~~= m0.ufs);
        assert(m =~~= m0);
    }

    while !params_server.finished_receiving()
        invariant
            cfg.wf(),
            num_samples + cfg.n_folders <= usize::MAX,
            sim_inv(params_server, workers@, sample_chans@, update_chans@, cfg, num_samples),
            spec_run(cfg, spec_init(cfg, num_samples)) == spec_run(
                cfg,
                snapshot_of(params_server, workers@, sample_chans@, update_chans@),
            ),
        decreases TICK_LIMIT - params_server.tick(),
    {
        if params_server.curr_tick() >= TICK_LIMIT {
            proof {
                assert(params_server.log().len() <= num_samples);
                assert(spec_run(
                    cfg,
                    snapshot_of(params_server, workers@, sample_chans@, update_chans@),
                ) is None);
            }
            return None;
        }
        let ghost m0 = snapshot_of(params_server, workers@, sample_chans@, update_chans@);
        let ghost srv0 = params_server;
        let ghost sfs0 = sample_chans@;
        let ghost ufs0 = update_chans@;
        let samples = params_server.tick_server(&sample_chans, &mut update_chans);
        let ghost srv1 = params_server;
        let ghost next0 = srv0.next_sample() as int;
        let ghost next1 = srv1.next_sample() as int;
        proof {
            // Conservation, with the returned batch accounted separately.
            assert forall|id: int|
                cnt_fifos(sample_chans@, id) + cnt_fifos(update_chans@, id) + cnt_seq(
                    srv1.log(),
                    id,
                ) + cnt_pairs(samples@, id) == (if 0 <= id < next1 {
                    1int
                } else {
                    0int
                }) by {
                lemma_cnt_pairs_consecutive(samples@, next0, id);
            }
            assert forall|j: int| 0 <= j < samples@.len() implies pkt_ok(
                (#[trigger] samples@[j]).1,
                next1,
            ) by {
                assert(samples@[j].1.sample_id == next0 + j);
                assert(samples@[j].1.weight_version <= srv0.log().len());
                assert(srv0.log().len() <= next0);
            }
            assert(fifos_pkts_ok(sample_chans@, next1));
        }

        let ghost t0 = srv0.tick();
        let ghost sfs_mid = fifo_views(sample_chans@);
        let ghost ufs_mid = fifo_views(update_chans@);
        let ghost ws_mid = workers@;
        let mut i: usize = 0;
        while i < workers.len()
            invariant
                cfg.wf(),
                i <= workers@.len(),
                params_server == srv1,
                workers@.len() == cfg.n_workers,
                sample_chans@.len() == cfg.n_workers,
                update_chans@.len() == cfg.n_workers,
                srv1.tick() == t0 + 1,
                t0 < TICK_LIMIT,
                next1 == srv1.next_sample() as int,
                ws_mid.len() == cfg.n_workers,
                sfs_mid.len() == cfg.n_workers,
                ufs_mid.len() == cfg.n_workers,
                forall|k: int| i <= k < cfg.n_workers ==> (#[trigger] workers@[k]) == ws_mid[k],
                forall|k: int|
                    i <= k < cfg.n_workers ==> (#[trigger] sample_chans@[k])@ == sfs_mid[k],
                forall|k: int|
                    i <= k < cfg.n_workers ==> (#[trigger] update_chans@[k])@ == ufs_mid[k],
                forall|k: int|
                    0 <= k < i ==> (#[trigger] sample_chans@[k])@ == (if worker_fires(
                        cfg,
                        t0,
                        ws_mid[k].next_ready(),
                        sfs_mid[k],
                        ufs_mid[k],
                    ) {
                        sfs_mid[k].drop_first()
                    } else {
                        sfs_mid[k]
                    }),
                forall|k: int|
                    0 <= k < i ==> (#[trigger] update_chans@[k])@ == (if worker_fires(
                        cfg,
                        t0,
                        ws_mid[k].next_ready(),
                        sfs_mid[k],
                        ufs_mid[k],
                    ) {
                        ufs_mid[k].push(WorkerState::emitted(cfg, t0, sfs_mid[k][0]))
                    } else {
                        ufs_mid[k]
                    }),
                forall|k: int|
                    0 <= k < i ==> (#[trigger] workers@[k]).next_ready() == (if worker_fires(
                        cfg,
                        t0,
                        ws_mid[k].next_ready(),
                        sfs_mid[k],
                        ufs_mid[k],
                    ) {
                        (t0 + cfg.gradient_ii) as Tick
                    } else {
                        ws_mid[k].next_ready()
                    }),
                forall|k: int| 0 <= k < workers@.len() ==> (#[trigger] workers@[k]).cfg() == cfg,
                forall|k: int| 0 <= k < workers@.len() ==> (#[trigger] workers@[k]).wf(),
                forall|k: int|
                    0 <= k < workers@.len() ==> (#[trigger] workers@[k]).tick() == if k < i {
                        (t0 + 1) as Tick
                    } else {
                        t0
                    },
                forall|k: int|
                    0 <= k < sample_chans@.len() ==> (#[trigger] sample_chans@[k]).wf()
                        && sample_chans@[k].cap() == cfg.fifo_depth,
                forall|k: int|
                    0 <= k < update_chans@.len() ==> (#[trigger] update_chans@[k]).wf()
                        && update_chans@[k].cap() == cfg.fifo_depth,
                fifos_pkts_ok(sample_chans@, next1),
                fifos_pkts_ok(update_chans@, next1),
                forall|id: int|
                    cnt_fifos(sample_chans@, id) + cnt_fifos(update_chans@, id) + cnt_seq(
                        srv1.log(),
                        id,
                    ) + cnt_pairs(samples@, id) == (if 0 <= id < next1 {
                        1int
                    } else {
                        0int
                    }),
                forall|j: int|
                    0 <= j < samples@.len() ==> sample_chans@[(#[trigger] samples@[j]).0 as int]@.len()
                        < cfg.fifo_depth,
                forall|j: int| 0 <= j < samples@.len() ==> (#[trigger] samples@[j]).0 < cfg.n_workers,
                forall|j: int| 0 <= j < samples@.len() ==> pkt_ok((#[trigger] samples@[j]).1, next1),
                forall|j: int, k: int| 0 <= j < k < samples@.len() ==> samples@[j].0 < samples@[k].0,
            decreases workers@.len() - i,
        {
            let ghost wsp = workers@;
            let ghost sfsp = sample_chans@;
            let ghost ufsp = update_chans@;
            let wk = &mut workers[i];
            let sf = &mut sample_chans[i];
            let uf = &mut update_chans[i];
            let ghost wk0 = *wk;
            let ghost sf0 = *sf;
            let ghost uf0 = *uf;
            wk.tick_worker(sf, uf);
            proof {
                assert(workers@ =~= wsp.update(i as int, *final(wk)));
                assert(sample_chans@ =~= sfsp.update(i as int, *final(sf)));
                assert(update_chans@ =~= ufsp.update(i as int, *final(uf)));
                assert(wk0 == ws_mid[i as int] && sf0@ == sfs_mid[i as int] && uf0@
                    == ufs_mid[i as int]);
                assert(wk0.fires(sf0, uf0) == worker_fires(
                    cfg,
                    t0,
                    ws_mid[i as int].next_ready(),
                    sfs_mid[i as int],
                    ufs_mid[i as int],
                ));
                if wk0.fires(sf0, uf0) {
                    let head = sf0@[0];
                    let emitted = WorkerState::emitted(cfg, wk0.tick(), head);
                    assert forall|id: int|
                        cnt_fifos(sample_chans@, id) + cnt_fifos(update_chans@, id) + cnt_seq(
                            srv1.log(),
                            id,
                        ) + cnt_pairs(samples@, id) == (if 0 <= id < next1 {
                            1int
                        } else {
                            0int
                        }) by {
                        lemma_cnt_fifos_update(sfsp, i as int, *final(sf), id);
                        lemma_cnt_fifos_update(ufsp, i as int, *final(uf), id);
                        lemma_cnt_seq_push(uf0@, emitted, id);
                        assert(cnt_seq(sf0@, id) == (if head.sample_id == id {
                            1int
                        } else {
                            0int
                        }) + cnt_seq(sf0@.drop_first(), id));
                    }
                    assert(seq_pkts_ok(sf0@, next1));
                    assert(pkt_ok(head, next1));
                    assert forall|k: int|
                        0 <= k < sample_chans@.len() implies seq_pkts_ok(
                        (#[trigger] sample_chans@[k])@,
                        next1,
                    ) by {
                        if k == i as int {
                            assert forall|m: int|
                                0 <= m < sample_chans@[k]@.len() implies pkt_ok(
                                #[trigger] sample_chans@[k]@[m],
                                next1,
                            ) by {
                                assert(sample_chans@[k]@[m] == sf0@[m + 1]);
                            }
                        }
                    }
                    assert forall|k: int|
                        0 <= k < update_chans@.len() implies seq_pkts_ok(
                        (#[trigger] update_chans@[k])@,
                        next1,
                    ) by {
                        if k == i as int {
                            assert forall|m: int|
                                0 <= m < update_chans@[k]@.len() implies pkt_ok(
                                #[trigger] update_chans@[k]@[m],
                                next1,
                            ) by {
                                if m < uf0@.len() {
                                    assert(update_chans@[k]@[m] == uf0@[m]);
                                } else {
                                    assert(update_chans@[k]@[m] == emitted);
                                }
                            }
                        }
                    }
                } else {
                    assert forall|id: int|
                        cnt_fifos(sample_chans@, id) + cnt_fifos(update_chans@, id) + cnt_seq(
                            srv1.log(),
                            id,
                        ) + cnt_pairs(samples@, id) == (if 0 <= id < next1 {
                            1int
                        } else {
                            0int
                        }) by {
                        lemma_cnt_fifos_update(sfsp, i as int, *final(sf), id);
                        lemma_cnt_fifos_update(ufsp, i as int, *final(uf), id);
                    }
                    assert forall|k: int|
                        0 <= k < sample_chans@.len() implies seq_pkts_ok(
                        (#[trigger] sample_chans@[k])@,
                        next1,
                    ) by {
                        if k == i as int {
                            assert(sample_chans@[k]@ == sf0@);
                        }
                    }
                    assert forall|k: int|
                        0 <= k < update_chans@.len() implies seq_pkts_ok(
                        (#[trigger] update_chans@[k])@,
                        next1,
                    ) by {
                        if k == i as int {
                            assert(update_chans@[k]@ == uf0@);
                        }
                    }
                }
            }
            i = i + 1;
        }

        let ghost ws2 = workers@;
        let ghost sfs3v = fifo_views(sample_chans@);
        let ghost ufs3v = fifo_views(update_chans@);
        proof {
            assert(samples@.skip(0) =~= samples@);
        }
        let mut j: usize = 0;
        while j < samples.len()
            invariant
                cfg.wf(),
                j <= samples@.len(),
                params_server == srv1,
                workers@ == ws2,
                fifo_views(update_chans@) == ufs3v,
                push_batch(sfs3v, samples@, 0) == push_batch(
                    fifo_views(sample_chans@),
                    samples@,
                    j as int,
                ),
                workers@.len() == cfg.n_workers,
                sample_chans@.len() == cfg.n_workers,
                update_chans@.len() == cfg.n_workers,
                next1 == srv1.next_sample() as int,
                forall|k: int|
                    0 <= k < sample_chans@.len() ==> (#[trigger] sample_chans@[k]).wf()
                        && sample_chans@[k].cap() == cfg.fifo_depth,
                forall|k: int|
                    0 <= k < update_chans@.len() ==> (#[trigger] update_chans@[k]).wf()
                        && update_chans@[k].cap() == cfg.fifo_depth,
                fifos_pkts_ok(sample_chans@, next1),
                fifos_pkts_ok(update_chans@, next1),
                forall|id: int|
                    cnt_fifos(sample_chans@, id) + cnt_fifos(update_chans@, id) + cnt_seq(
                        srv1.log(),
                        id,
                    ) + cnt_pairs(samples@.skip(j as int), id) == (if 0 <= id < next1 {
                        1int
                    } else {
                        0int
                    }),
                forall|j2: int|
                    j <= j2 < samples@.len() ==> sample_chans@[(#[trigger] samples@[j2]).0 as int]@.len()
                        < cfg.fifo_depth,
                forall|j2: int|
                    0 <= j2 < samples@.len() ==> (#[trigger] samples@[j2]).0 < cfg.n_workers,
                forall|j2: int|
                    0 <= j2 < samples@.len() ==> pkt_ok((#[trigger] samples@[j2]).1, next1),
                forall|j2: int, k: int|
                    0 <= j2 < k < samples@.len() ==> samples@[j2].0 < samples@[k].0,
            decreases samples@.len() - j,
        {
            let ghost sfsp = sample_chans@;
            let pr = samples[j];
            let dest = pr.0;
            let sf = &mut sample_chans[dest];
            let ghost sf0 = *sf;
            sf.push_back(pr.1);
            proof {
                assert(sample_chans@ =~= sfsp.update(dest as int, *final(sf)));
                let vprev = fifo_views(sfsp);
                assert(vprev[dest as int] == sf0@);
                assert(fifo_views(sample_chans@) =~= vprev.update(dest as int, sf0@.push(pr.1)));
                assert(fifo_views(update_chans@) =~= ufs3v);
                assert(push_batch(vprev, samples@, j as int) == push_batch(
                    fifo_views(sample_chans@),
                    samples@,
                    j as int + 1,
                ));
                assert forall|id: int|
                    cnt_fifos(sample_chans@, id) + cnt_fifos(update_chans@, id) + cnt_seq(
                        srv1.log(),
                        id,
                    ) + cnt_pairs(samples@.skip(j as int + 1), id) == (if 0 <= id < next1 {
                        1int
                    } else {
                        0int
                    }) by {
                    lemma_cnt_fifos_update(sfsp, dest as int, *final(sf), id);
                    lemma_cnt_seq_push(sf0@, pr.1, id);
                    assert(samples@.skip(j as int).drop_first() =~= samples@.skip(j as int + 1));
                    assert(cnt_pairs(samples@.skip(j as int), id) == (if samples@[j as int].1.sample_id
                        == id {
                        1int
                    } else {
                        0int
                    }) + cnt_pairs(samples@.skip(j as int + 1), id));
                }
                assert forall|k: int|
                    0 <= k < sample_chans@.len() implies seq_pkts_ok(
                    (#[trigger] sample_chans@[k])@,
                    next1,
                ) by {
                    if k == dest as int {
                        assert forall|m: int|
                            0 <= m < sample_chans@[k]@.len() implies pkt_ok(
                            #[trigger] sample_chans@[k]@[m],
                            next1,
                        ) by {
                            if m < sf0@.len() {
                                assert(sample_chans@[k]@[m] == sf0@[m]);
                            } else {
                                assert(sample_chans@[k]@[m] == pr.1);
                            }
                        }
                    }
                }
                assert forall|j2: int|
                    j + 1 <= j2 < samples@.len() implies sample_chans@[(#[trigger] samples@[j2]).0 as int]@.len()
                    < cfg.fifo_depth by {
                    assert(samples@[j as int].0 < samples@[j2].0);
                }
            }
            j = j + 1;
        }

        proof {
            assert(samples@.skip(samples@.len() as int) =~= Seq::<(usize, Sample)>::empty());
            assert forall|id: int|
                #[trigger] cnt_fifos(sample_chans@, id) + cnt_fifos(update_chans@, id) + cnt_seq(
                    params_server.log(),
                    id,
                ) == (if 0 <= id < next1 {
                    1int
                } else {
                    0int
                }) by {
                assert(cnt_pairs(samples@.skip(samples@.len() as int), id) == 0);
            }
            // The log never outgrows the issued ids.
            assert forall|id: int| cnt_seq(params_server.log(), id) <= 1 by {
                lemma_cnt_fifos_nonneg(sample_chans@, id);
                lemma_cnt_fifos_nonneg(update_chans@, id);
                lemma_cnt_seq_nonneg(params_server.log(), id);
            }
            lemma_bounded_distinct_len(params_server.log(), next1);
            assert(sim_inv(
                params_server,
                workers@,
                sample_chans@,
                update_chans@,
                cfg,
                num_samples,
            ));
            // The concrete step is exactly one `spec_tick` of the snapshot.
            let mspec = spec_tick(cfg, m0);
            let t = m0.tick;
            let banks1 = drop_ready_ticks(m0.banks, t);
            let cwv1 = commit_version(m0.wvq, t, m0.curr_weight_version);
            let wvq1 = drop_committed(m0.wvq, t);
            let a = m0.num_samples - m0.next_sample;
            let bb = cfg.n_weight_banks - banks1.len();
            let budget1 = if a <= bb {
                a
            } else {
                bb
            };
            let plan_s = send_plan(m0.sfs, 0, budget1, cfg.fifo_depth as int);
            let can_f = t >= m0.fold_ready;
            let plan_r = receive_plan(m0.ufs, 0, t, cfg.n_folders as int);
            let ufs2 = if can_f {
                Seq::new(
                    m0.ufs.len(),
                    |k: int|
                        if plan_r.contains(k) {
                            m0.ufs[k].drop_first()
                        } else {
                            m0.ufs[k]
                        },
                )
            } else {
                m0.ufs
            };
            assert(m0.sfs == fifo_views(sfs0));
            assert(m0.ufs == fifo_views(ufs0));
            assert(sent_indices(samples@) == plan_s);
            assert(samples@.len() == plan_s.len());
            assert(ufs_mid =~= ufs2);
            assert(sfs_mid =~= m0.sfs);
            assert(push_batch(fifo_views(sample_chans@), samples@, samples@.len() as int)
                == fifo_views(sample_chans@));
            let mnew = snapshot_of(params_server, workers@, sample_chans@, update_chans@);
            assert(mnew.tick == mspec.tick);
            assert(mnew.next_sample == mspec.next_sample);
            assert(mnew.curr_weight_version == mspec.curr_weight_version);
            assert(mnew.banks =~= mspec.banks);
            assert(mnew.wvq =~= mspec.wvq);
            assert(mnew.fold_ready == mspec.fold_ready);
            if can_f && plan_r.len() > 0 {
                let commit_t = (t + cfg.fold_latency) as Tick;
                let heads = plan_r.map_values(|k: int| m0.ufs[k][0]);
                assert(mspec.log == m0.log + stamp(heads, commit_t));
                assert(mnew.log.len() == m0.log.len() + plan_r.len());
                lemma_receive_plan_bounds(m0.ufs, 0, t, cfg.n_folders as int);
                assert forall|idx: int| 0 <= idx < mnew.log.len() implies mnew.log[idx]
                    == mspec.log[idx] by {
                    if idx >= m0.log.len() {
                        let e = idx - m0.log.len();
                        assert(0 <= plan_r[e] < m0.ufs.len());
                        assert(m0.ufs[plan_r[e]] == ufs0[plan_r[e]]@);
                    }
                }
                assert(mnew.log =~= mspec.log);
            } else {
                assert(mnew.log == m0.log);
                assert(mspec.log == m0.log);
            }
            assert(mnew.log =~= mspec.log);
            assert forall|k: int|
                0 <= k < cfg.n_workers implies worker_fires(
                cfg,
                t0,
                ws_mid[k].next_ready(),
                sfs_mid[k],
                ufs_mid[k],
            ) == worker_fires(cfg, t, m0.workers[k].1, m0.sfs[k], ufs2[k]) by {
                assert(m0.workers[k].1 == ws_mid[k].next_ready());
                assert(m0.sfs[k] == sfs_mid[k]);
                assert(ufs2[k] == ufs_mid[k]);
            }
            assert(mnew.workers =~= mspec.workers);
            assert(mnew.ufs =~= mspec.ufs);
            let issued = Seq::new(
                plan_s.len(),
                |j2: int|
                    (
                        plan_s[j2] as usize,
                        Sample {
                            time: (t + cfg.send_delay + cfg.network_delay) as Tick,
                            sample_id: (m0.next_sample + j2) as usize,
                            weight_version: cwv1,
                        },
                    ),
            );
            assert forall|j2: int| 0 <= j2 < samples@.len() implies (#[trigger] samples@[j2])
                == issued[j2] by {
                assert(sent_indices(samples@)[j2] == samples@[j2].0 as int);
            }
            assert(samples@ =~= issued);
            let sfs3 = Seq::new(
                m0.sfs.len(),
                |k: int|
                    if worker_fires(cfg, t, m0.workers[k].1, m0.sfs[k], ufs2[k]) {
                        m0.sfs[k].drop_first()
                    } else {
                        m0.sfs[k]
                    },
            );
            assert(sfs3v =~= sfs3);
            assert(mnew.sfs == push_batch(sfs3v, samples@, 0));
            assert(mnew.sfs == mspec.sfs);
            assert(mnew =~= mspec);
            assert(m0.log.len() != m0.num_samples && m0.tick < TICK_LIMIT);
            assert(spec_run(cfg, m0) == spec_run(cfg, mnew));
        }
    }

    proof {
        lemma_inv_log_counts(
            params_server,
            workers@,
            sample_chans@,
            update_chans@,
            cfg,
            num_samples,
        );
    }
    let ghost pre = params_server;
    let ghost mfin = snapshot_of(params_server, workers@, sample_chans@, update_chans@);
    proof {
        if pre.log().len() > 0 {
            crate::packet::lemma_max_sample_time_sorted(pre.log());
        }
        assert(0 <= spec_max_sample_time(pre.log()) <= u64::MAX);
        assert(spec_run(cfg, mfin) == Some(
            (spec_max_sample_time(pre.log()) as Tick, pre.log()),
        ));
    }
    params_server.cleanup();
    proof {
        let log = params_server.log();
        assert(log == pre.log());
        assert(log.len() == num_samples);
        assert(seq_pkts_ok(log, pre.next_sample() as int));
        assert forall|i: int| 0 <= i < log.len() implies (#[trigger] log[i]).sample_id
            < num_samples by {
            assert(pkt_ok(log[i], pre.next_sample() as int));
        }
        lemma_cnt_le_one_distinct(log);
        lemma_sum_cnt_len(log, num_samples as int);
        lemma_sum_cnt_full(log, num_samples as int);
        if log.len() > 0 {
            crate::packet::lemma_max_sample_time_sorted(log);
        }
    }
    let cycle_count = params_server.curr_tick();
    let logs = params_server.get_update_logs();
    Some((cycle_count, logs))
}

} // verus!
