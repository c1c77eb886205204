//! Deterministic simulation of a small cluster: the seeded network, the
//! windowed sequencer, the event log with its replay, the workload fuzzer,
//! and the Chord and Raft oracles that judge what the logs show.

pub mod abi;
pub mod alias_laws;
pub mod amap;
pub mod broker;
pub mod broker_step_laws;
pub mod bytes;
pub mod canon_laws;
pub mod chord;
pub mod chord_agree_laws;
pub mod chord_check_laws;
pub mod chord_laws;
pub mod chord_model;
pub mod chord_model_laws;
pub mod chord_oracle;
pub mod chord_oracle_laws;
pub mod chord_report;
pub mod chord_step_laws;
pub mod cli;
pub mod cluster;
pub mod command_laws;
pub mod complaint_laws;
pub mod config;
pub mod config_laws;
pub mod core_laws;
pub mod core_step_laws;
pub mod delivery_laws;
pub mod env_laws;
pub mod execution_laws;
pub mod failure_laws;
pub mod fault;
pub mod file_laws;
pub mod fuzz;
pub mod fuzz_cmd;
pub mod fuzz_config;
pub mod fuzz_laws;
pub mod fuzz_report_laws;
pub mod hash;
pub mod input;
pub mod input_laws;
pub mod interleaving_laws;
pub mod json;
pub mod key_laws;
pub mod log;
pub mod minimal_laws;
pub mod monitor;
pub mod net_laws;
pub mod netcore;
pub mod option_laws;
pub mod orchestrator;
pub mod order_laws;
pub mod pare_laws;
pub mod raft;
pub mod raft_laws;
pub mod raft_model;
pub mod raft_oracle;
pub mod raft_oracle_laws;
pub mod raft_report;
pub mod raft_step_laws;
pub mod recorder;
pub mod recording_laws;
pub mod replay;
pub mod replay_cmd;
pub mod replay_step_laws;
pub mod reply_laws;
pub mod report;
pub mod report_laws;
pub mod reproducer_laws;
pub mod ring_rule_laws;
pub mod round;
pub mod rule_laws;
pub mod run;
pub mod run_cmd;
pub mod run_laws;
pub mod scenario;
pub mod scenario_laws;
pub mod sequencer_laws;
pub mod shrink;
pub mod shrink_laws;
pub mod snapshot_laws;
pub mod supervise_laws;
pub mod telling_laws;
pub mod text;
pub mod text_laws;
pub mod timeline_laws;
pub mod verdict_laws;
pub mod verdict_text_laws;
pub mod window;
pub mod window_laws;
pub mod wire;
pub mod wire_laws;
pub mod workload;
pub mod workload_laws;

use vstd::prelude::*;

verus! {

/// The version of this library.
pub const VERSION: &'static str = "0.1.0";

/// The version of this library.
#[must_use]
pub fn version() -> (s: &'static str)
    ensures
        s@ == VERSION@,
{
    VERSION
}

} // verus!
