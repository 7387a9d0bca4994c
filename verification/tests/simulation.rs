use hogmild::config::SimConfig;
use hogmild::packet::{HasTime, Sample};
use hogmild::schedule_simulation::run_simulation;
use hogmild::channel::TimeFifo;

fn default_cfg() -> SimConfig {
    SimConfig {
        n_weight_banks: 8,
        n_workers: 8,
        n_folders: 8,
        fifo_depth: 8,
        send_delay: 4,
        network_delay: 8,
        receive_delay: 4,
        gradient_ii: 8,
        gradient_latency: 32,
        fold_ii: 8,
        fold_latency: 32,
    }
}

fn minimal_cfg() -> SimConfig {
    SimConfig {
        n_weight_banks: 1,
        n_workers: 1,
        n_folders: 1,
        fifo_depth: 1,
        send_delay: 0,
        network_delay: 0,
        receive_delay: 0,
        gradient_ii: 1,
        gradient_latency: 0,
        fold_ii: 1,
        fold_latency: 0,
    }
}

fn ids(log: &[Sample]) -> Vec<usize> {
    log.iter().map(|s| s.sample_id).collect()
}

fn versions(log: &[Sample]) -> Vec<usize> {
    log.iter().map(|s| s.weight_version).collect()
}

fn times(log: &[Sample]) -> Vec<u64> {
    log.iter().map(|s| s.time).collect()
}

fn check_log_invariants(log: &[Sample], num_samples: usize) {
    assert_eq!(log.len(), num_samples);
    let mut seen = vec![false; num_samples];
    for s in log {
        assert!(s.sample_id < num_samples);
        assert!(!seen[s.sample_id], "sample id repeated");
        seen[s.sample_id] = true;
        assert!(s.weight_version <= s.sample_id);
    }
    assert!(seen.iter().all(|&b| b));
    for w in log.windows(2) {
        assert!(w[0].time <= w[1].time);
    }
}

#[test]
fn test_e1_minimal_pipeline() {
    let (cycles, log) = run_simulation(minimal_cfg(), 4).unwrap();
    assert_eq!(ids(&log), vec![0, 1, 2, 3]);
    assert_eq!(versions(&log), vec![0, 0, 1, 2]);
    assert_eq!(times(&log), vec![2, 4, 6, 8]);
    assert_eq!(cycles, 8);
}

#[test]
fn test_e2_deeper_gradient_pipeline() {
    let mut cfg = minimal_cfg();
    cfg.gradient_latency = 2;
    let (cycles, log) = run_simulation(cfg, 4).unwrap();
    assert_eq!(ids(&log), vec![0, 1, 2, 3]);
    for s in &log {
        assert!(s.weight_version <= s.sample_id);
    }
    assert_eq!(versions(&log), vec![0, 0, 1, 2]);
    assert_eq!(times(&log), vec![3, 5, 7, 9]);
    assert_eq!(cycles, 9);
}

#[test]
fn test_e3_two_workers() {
    let cfg = SimConfig {
        n_weight_banks: 2,
        n_workers: 2,
        n_folders: 2,
        fifo_depth: 2,
        send_delay: 1,
        network_delay: 1,
        receive_delay: 1,
        gradient_ii: 1,
        gradient_latency: 1,
        fold_ii: 1,
        fold_latency: 1,
    };
    let (cycles, log) = run_simulation(cfg, 8).unwrap();
    check_log_invariants(&log, 8);
    assert!(log.iter().all(|s| s.weight_version <= 7));
    assert_eq!(cycles, 10);
}

#[test]
fn test_round_trip_single_sample() {
    let cfg = default_cfg();
    let (cycles, log) = run_simulation(cfg, 1).unwrap();
    assert_eq!(log.len(), 1);
    assert_eq!(log[0].sample_id, 0);
    assert_eq!(log[0].weight_version, 0);
    // send + network to the worker, gradient latency, network + send back,
    // then fold latency: 4 + 8 + 32 + 8 + 4 + 32.
    assert_eq!(cycles, 88);
    assert_eq!(log[0].time, 88);
}

#[test]
fn test_zero_samples() {
    let (cycles, log) = run_simulation(default_cfg(), 0).unwrap();
    assert!(log.is_empty());
    assert_eq!(cycles, u64::MAX);
}

#[test]
fn test_update_log_invariants_default_config() {
    let cfg = default_cfg();
    let (_, log) = run_simulation(cfg, 128).unwrap();
    check_log_invariants(&log, 128);
    // Entries sharing one commit time belong to one fold event, which can
    // incorporate at most n_folders updates.
    let mut i = 0;
    while i < log.len() {
        let mut j = i;
        while j < log.len() && log[j].time == log[i].time {
            j += 1;
        }
        assert!(j - i <= cfg.n_folders);
        i = j;
    }
}

#[test]
fn test_determinism() {
    let cfg = default_cfg();
    let (c1, l1) = run_simulation(cfg, 64).unwrap();
    let (c2, l2) = run_simulation(cfg, 64).unwrap();
    assert_eq!(c1, c2);
    assert_eq!(l1, l2);
}

#[test]
fn test_scaling_more_workers_not_slower() {
    let mut cfg = default_cfg();
    cfg.n_workers = 1;
    let (c1, _) = run_simulation(cfg, 32).unwrap();
    cfg.n_workers = 4;
    let (c4, _) = run_simulation(cfg, 32).unwrap();
    assert!(c4 <= c1);
}

#[test]
fn test_scaling_deeper_fifo_not_slower() {
    let mut cfg = default_cfg();
    cfg.fifo_depth = 1;
    let (c1, _) = run_simulation(cfg, 32).unwrap();
    cfg.fifo_depth = 4;
    let (c4, _) = run_simulation(cfg, 32).unwrap();
    assert!(c4 <= c1);
}

#[test]
fn test_scaling_gradient_latency_not_faster() {
    let mut cfg = default_cfg();
    cfg.gradient_latency = 2;
    let (c2, _) = run_simulation(cfg, 32).unwrap();
    cfg.gradient_latency = 8;
    let (c8, _) = run_simulation(cfg, 32).unwrap();
    assert!(c2 <= c8);
}

#[test]
fn test_channels() {
    let mut fifo = TimeFifo::new(2);
    assert_eq!(fifo.len(), 0);
    assert!(fifo.has_room());
    assert!(!fifo.can_pop(100));

    fifo.push_back(Sample { time: 5, sample_id: 0, weight_version: 0 });
    fifo.push_back(Sample { time: 7, sample_id: 1, weight_version: 0 });
    assert_eq!(fifo.len(), 2);
    assert!(!fifo.has_room());

    // The head is not observable before its arrival tick.
    assert!(!fifo.can_pop(4));
    assert!(fifo.can_pop(5));
    let head = fifo.pop_head();
    assert_eq!(head.sample_id, 0);
    // FIFO order: the second packet is now the head.
    assert_eq!(fifo.peek_head().sample_id, 1);
    assert!(fifo.has_room());
}

#[test]
fn test_has_time() {
    let mut s = Sample { time: 3, sample_id: 9, weight_version: 1 };
    assert_eq!(s.time(), 3);
    s.add_time(4);
    assert_eq!(s.time(), 7);
    let mut t: u64 = 10;
    t.add_time(5);
    assert_eq!(t.time(), 15);
}
