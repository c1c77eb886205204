//! The options of a run on one host, without a recording.

use vstd::prelude::*;

use crate::abi::Strategy;
use crate::cli;
use crate::run_cmd;
use crate::run_cmd::{read_options, DraftView};

verus! {

/// How the program is used.
pub const RUN_USAGE: &'static str = "Usage: weft run --seed <N> [OPTIONS] -- <program> [args...]

Launch <program> with deterministic time, randomness, and thread scheduling.

Options:
  --seed <N>          Run seed, decimal or 0x-hex u64 (required)
  --strategy <S>      Scheduler interleaving strategy: 'random' (default) or
                      'rr' (round-robin with perturbation)
  --no-sched          Disable deterministic thread scheduling (time and
                      randomness stay deterministic; OS schedules threads)
  --net <SPEC>        Simulate the network through a seeded broker. SPEC is
                      comma-separated clauses: latency=fixed:N|uniform:LO-HI|
                      exp:MEAN (ns), loss=P, bw=BYTES_PER_SEC,
                      partition=0+1|2 (an empty SPEC is a reliable network)
  --nodes <N>         With --net: launch N instances of the program, node ids
                      0..N-1 (default 1)
  --trace, --verbose  Log every intercepted call to stderr
  --stats             Print scheduler statistics at exit
  --shim <PATH>       Path to libweft_shim.so (default: WEFT_SHIM env,
                      then next to the weft binary)
  -h, --help          Print this help";

/// The options of a run.
pub struct RunOpts {
    pub seed: u64,
    pub trace: bool,
    pub stats: bool,
    pub no_sched: bool,
    pub strategy: Strategy,
    /// The network conditions; given, even empty, they engage the broker.
    pub net: Option<String>,
    pub nodes: u32,
    pub shim: Option<Vec<u8>>,
    pub program: Vec<Vec<u8>>,
}

impl View for RunOpts {
    type V = DraftView;

    open spec fn view(&self) -> DraftView {
        DraftView {
            seed: Some(self.seed),
            trace: self.trace,
            stats: self.stats,
            no_sched: self.no_sched,
            strategy: self.strategy,
            net: run_cmd::text_view(self.net),
            nodes: self.nodes,
            shim: run_cmd::raw_view(self.shim),
            program: cli::raw_views(self.program@),
            ..run_cmd::no_options()
        }
    }
}

/// Read the arguments of a run on one host. `rows` holds, for each argument
/// taken as a network-condition text, the readings of its loss values.
pub fn parse_args(args: &Vec<Vec<u8>>, rows: &Vec<Vec<Option<u64>>>) -> (r: Result<RunOpts, String>)
    requires
        cli::readings_fit(cli::raw_views(args@), rows@),
    ensures
        ({
            let p = run_cmd::options_of(cli::raw_views(args@), rows@, false);
            match r {
                Ok(o) => p == Ok::<DraftView, Seq<char>>(o@),
                Err(e) => p == Err::<DraftView, Seq<char>>(e@),
            }
        }),
{
    match read_options(args, rows, false) {
        Err(e) => Err(e),
        Ok((seed, d)) => {
            proof {
                run_cmd::lemma_parsed(
                    cli::raw_views(args@),
                    rows@,
                    0,
                    run_cmd::no_options(),
                    false,
                );
            }
            Ok(
                RunOpts {
                    seed,
                    trace: d.trace,
                    stats: d.stats,
                    no_sched: d.no_sched,
                    strategy: d.strategy,
                    net: d.net,
                    nodes: d.nodes,
                    shim: d.shim,
                    program: d.program,
                },
            )
        },
    }
}

} // verus!
