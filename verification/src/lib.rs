//! Cycle-accurate schedule simulation for asynchronous (Hogwild-style) SGD
//! on a pipelined parameter server, plus the data structures a
//! staleness-aware replay trainer consumes.
//!
//! The simulator is a deterministic tick loop over one parameter server,
//! a worker array, and bounded time-stamped FIFOs; it emits the update log:
//! the order in which gradient updates commit, each with the weight version
//! its sample observed.  Its driver, [`schedule_simulation::run_simulation`],
//! is verified to return a log that holds every sample id exactly once, in
//! non-decreasing commit-time order, with no entry observing a version newer
//! than its own id — and to return exactly the value of a mathematical tick
//! function of its parameters, so the simulation is deterministic by
//! construction.

pub mod config;
pub mod packet;
pub mod channel;
pub mod sample_count;
pub mod worker;
pub mod params_server;
pub mod schedule_simulation;
pub mod replay;
pub mod coord_list;
pub mod hash_map_spmat;
pub mod data_loader;
