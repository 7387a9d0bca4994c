use hogmild::packet::Sample;
use hogmild::replay::version_runs;
use hogmild::schedule_simulation::run_simulation;
use hogmild::config::SimConfig;

fn log_with_versions(vs: &[usize]) -> Vec<Sample> {
    vs.iter()
        .enumerate()
        .map(|(i, &v)| Sample { time: i as u64, sample_id: i, weight_version: v })
        .collect()
}

#[test]
fn test_version_runs_grouping() {
    let log = log_with_versions(&[0, 0, 1, 1, 1, 2]);
    assert_eq!(version_runs(&log), vec![(0, 2), (2, 5), (5, 6)]);
}

#[test]
fn test_version_runs_empty() {
    let log: Vec<Sample> = Vec::new();
    assert_eq!(version_runs(&log), Vec::<(usize, usize)>::new());
}

#[test]
fn test_version_runs_single_run() {
    let log = log_with_versions(&[3, 3, 3]);
    assert_eq!(version_runs(&log), vec![(0, 3)]);
}

#[test]
fn test_version_runs_alternating() {
    let log = log_with_versions(&[0, 1, 0, 1]);
    assert_eq!(version_runs(&log), vec![(0, 1), (1, 2), (2, 3), (3, 4)]);
}

#[test]
fn test_version_runs_on_simulated_log() {
    let cfg = SimConfig {
        n_weight_banks: 1,
        n_workers: 1,
        n_folders: 1,
        fifo_depth: 1,
        send_delay: 0,
        network_delay: 0,
        receive_delay: 0,
        gradient_ii: 1,
        gradient_latency: 0,
        fold_ii: 1,
        fold_latency: 0,
    };
    let (_, log) = run_simulation(cfg, 4).unwrap();
    // Observed versions are [0, 0, 1, 2].
    assert_eq!(version_runs(&log), vec![(0, 2), (2, 3), (3, 4)]);
}
