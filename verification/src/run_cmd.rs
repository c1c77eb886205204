//! The options of a run: what the command line says, and whether it makes
//! sense.

use vstd::prelude::*;

use crate::abi;
use crate::abi::{parse_seed, Strategy};
use crate::cli;
use crate::cli::{copy_raw, lossy, read_arg, rest_of};
use crate::config;
use crate::config::parse;
use crate::text;
use crate::text::{
    chars_of, copy_text, push_dec, push_text, quoted, read_uint, same_text, split_once_chars,
};

verus! {

/// How the program is used.
pub const RUN_USAGE: &'static str = "Usage: weft run --seed <N> [OPTIONS] -- <program> [args...]

Launch <program> with deterministic time, randomness, and thread scheduling.

Options:
  --seed <N>          Run seed, decimal or 0x-hex u64 (required)
  --strategy <S>      Scheduler interleaving strategy: 'random' (default) or
                      'rr' (round-robin with perturbation)
  --no-sched          Disable deterministic thread scheduling (time and
                      randomness stay deterministic; OS schedules threads)
  --net <SPEC>        Simulate the network through a seeded broker. SPEC is
                      comma-separated clauses: latency=fixed:N|uniform:LO-HI|
                      exp:MEAN (ns), loss=P, bw=BYTES_PER_SEC,
                      partition=0+1|2 (an empty SPEC is a reliable network)
  --nodes <N>         With --net: launch N instances of the program, node ids
                      0..N-1 (default 1)
  --window <NS>       With --net: run the windowed multi-host sequencer with a
                      window width of NS nanoseconds, making cross-process
                      delivery order a pure function of the seed (default: off,
                      single-host arrival-routed broker)
  --record <LOG>      With --net: record every broker operation to <LOG> for
                      later `weft replay`; a .gz path is gzip-compressed
                      (see docs/recording-format.md)
  --watchdog <SECS>   With --net: abort and discard the run if the broker
                      makes no progress for SECS seconds (a deadlock or a
                      guest wedged in uninstrumented compute); 0 = off
  --window-ops <N>    With --window: discard the run if one node buffers
                      more than N sends inside a single window (backpressure
                      against a send-spamming guest); 0 = unbounded
  --listen <IP:PORT>  With --net: host the broker on TCP instead of a Unix
                      socket so nodes on other hosts can join (--broker there)
  --broker <IP:PORT>  Join a broker another `weft run --listen` is hosting,
                      instead of hosting one (the remote half of a multi-host
                      run; --record stays on the hosting side)
  --spawn <LO-HI>     Node ids to launch locally, inclusive (default 0-N-1);
                      with --listen/--broker each host launches its share and
                      no window seals until all --nodes ids have joined
  --host-id <N>       This host's id in a multi-host run (default 0): the
                      second tier of the windowed ordering key, keeping
                      hosts totally ordered even if node numbering overlaps
  --trace, --verbose  Log every intercepted call to stderr
  --stats             Print scheduler statistics at exit
  --shim <PATH>       Path to libweft_shim.so (default: WEFT_SHIM env,
                      then next to the weft binary)
  -h, --help          Print this help";

// ---------------------------------------------------------------------------
// Options
// ---------------------------------------------------------------------------

/// What an argument is.
#[derive(Clone, Copy, PartialEq, Eq, Structural)]
pub enum Flag {
    Seed,
    Strategy,
    Trace,
    Stats,
    NoSched,
    Net,
    Nodes,
    Window,
    Watchdog,
    WindowOps,
    Record,
    Listen,
    Broker,
    HostId,
    Spawn,
    Shim,
    Help,
    /// The program follows.
    Program,
    Unknown,
}

/// What an argument is; `wide` where the options of a recorded or multi-host
/// run are known.
pub open spec fn flag_of(arg: Option<Seq<char>>, wide: bool) -> Flag {
    match arg {
        None => Flag::Unknown,
        Some(a) => if a == "--seed"@ {
            Flag::Seed
        } else if a == "--strategy"@ {
            Flag::Strategy
        } else if a == "--trace"@ || a == "--verbose"@ {
            Flag::Trace
        } else if a == "--stats"@ {
            Flag::Stats
        } else if a == "--no-sched"@ {
            Flag::NoSched
        } else if a == "--net"@ {
            Flag::Net
        } else if a == "--nodes"@ {
            Flag::Nodes
        } else if a == "--shim"@ {
            Flag::Shim
        } else if a == "-h"@ || a == "--help"@ {
            Flag::Help
        } else if a == "--"@ {
            Flag::Program
        } else if wide {
            wide_flag_of(a)
        } else {
            Flag::Unknown
        },
    }
}

pub open spec fn wide_flag_of(a: Seq<char>) -> Flag {
    if a == "--window"@ {
        Flag::Window
    } else if a == "--watchdog"@ {
        Flag::Watchdog
    } else if a == "--window-ops"@ {
        Flag::WindowOps
    } else if a == "--record"@ {
        Flag::Record
    } else if a == "--listen"@ {
        Flag::Listen
    } else if a == "--broker"@ {
        Flag::Broker
    } else if a == "--host-id"@ {
        Flag::HostId
    } else if a == "--spawn"@ {
        Flag::Spawn
    } else {
        Flag::Unknown
    }
}

fn wide_flag(a: &str) -> (f: Flag)
    ensures
        f == wide_flag_of(a@),
{
    if same_text(a, "--window") {
        Flag::Window
    } else if same_text(a, "--watchdog") {
        Flag::Watchdog
    } else if same_text(a, "--window-ops") {
        Flag::WindowOps
    } else if same_text(a, "--record") {
        Flag::Record
    } else if same_text(a, "--listen") {
        Flag::Listen
    } else if same_text(a, "--broker") {
        Flag::Broker
    } else if same_text(a, "--host-id") {
        Flag::HostId
    } else if same_text(a, "--spawn") {
        Flag::Spawn
    } else {
        Flag::Unknown
    }
}

fn read_flag(b: &Vec<u8>, wide: bool) -> (f: Flag)
    ensures
        f == flag_of(cli::arg_text(b@), wide),
{
    match read_arg(b) {
        None => Flag::Unknown,
        Some(s) => {
            let a = s.as_str();
            if same_text(a, "--seed") {
                Flag::Seed
            } else if same_text(a, "--strategy") {
                Flag::Strategy
            } else if same_text(a, "--trace") || same_text(a, "--verbose") {
                Flag::Trace
            } else if same_text(a, "--stats") {
                Flag::Stats
            } else if same_text(a, "--no-sched") {
                Flag::NoSched
            } else if same_text(a, "--net") {
                Flag::Net
            } else if same_text(a, "--nodes") {
                Flag::Nodes
            } else if same_text(a, "--shim") {
                Flag::Shim
            } else if same_text(a, "-h") || same_text(a, "--help") {
                Flag::Help
            } else if same_text(a, "--") {
                Flag::Program
            } else if wide {
                wide_flag(a)
            } else {
                Flag::Unknown
            }
        },
    }
}

/// What is said where the value of an option is missing.
pub open spec fn missing_text(f: Flag) -> Seq<char> {
    match f {
        Flag::Seed => "--seed requires a value"@,
        Flag::Strategy => "--strategy requires a value"@,
        Flag::Net => "--net requires a spec (may be empty: \"\")"@,
        Flag::Nodes => "--nodes requires a count"@,
        Flag::Window => "--window requires a width in ns"@,
        Flag::Watchdog => "--watchdog requires a value in seconds"@,
        Flag::WindowOps => "--window-ops requires a count"@,
        Flag::Record => "--record requires a log path"@,
        Flag::Listen => "--listen requires an IP:PORT address"@,
        Flag::Broker => "--broker requires an IP:PORT address"@,
        Flag::HostId => "--host-id requires a value"@,
        Flag::Spawn => "--spawn requires a LO-HI node id range"@,
        _ => "--shim requires a path"@,
    }
}

fn missing(f: Flag) -> (s: &'static str)
    ensures
        s@ == missing_text(f),
{
    match f {
        Flag::Seed => "--seed requires a value",
        Flag::Strategy => "--strategy requires a value",
        Flag::Net => "--net requires a spec (may be empty: \"\")",
        Flag::Nodes => "--nodes requires a count",
        Flag::Window => "--window requires a width in ns",
        Flag::Watchdog => "--watchdog requires a value in seconds",
        Flag::WindowOps => "--window-ops requires a count",
        Flag::Record => "--record requires a log path",
        Flag::Listen => "--listen requires an IP:PORT address",
        Flag::Broker => "--broker requires an IP:PORT address",
        Flag::HostId => "--host-id requires a value",
        Flag::Spawn => "--spawn requires a LO-HI node id range",
        _ => "--shim requires a path",
    }
}

/// What is said where the value of an option is not text.
pub open spec fn not_text(f: Flag) -> Seq<char> {
    match f {
        Flag::Seed => "--seed value is not UTF-8"@,
        Flag::Strategy => "--strategy value is not UTF-8"@,
        Flag::Net => "--net spec is not UTF-8"@,
        Flag::Nodes => "--nodes value is not UTF-8"@,
        Flag::Window => "--window value is not UTF-8"@,
        Flag::Watchdog => "--watchdog value is not UTF-8"@,
        Flag::WindowOps => "--window-ops value is not UTF-8"@,
        Flag::Listen => "--listen address is not UTF-8"@,
        Flag::Broker => "--broker address is not UTF-8"@,
        Flag::HostId => "--host-id value is not UTF-8"@,
        _ => "--spawn range is not UTF-8"@,
    }
}

fn no_text(f: Flag) -> (s: &'static str)
    ensures
        s@ == not_text(f),
{
    match f {
        Flag::Seed => "--seed value is not UTF-8",
        Flag::Strategy => "--strategy value is not UTF-8",
        Flag::Net => "--net spec is not UTF-8",
        Flag::Nodes => "--nodes value is not UTF-8",
        Flag::Window => "--window value is not UTF-8",
        Flag::Watchdog => "--watchdog value is not UTF-8",
        Flag::WindowOps => "--window-ops value is not UTF-8",
        Flag::Listen => "--listen address is not UTF-8",
        Flag::Broker => "--broker address is not UTF-8",
        Flag::HostId => "--host-id value is not UTF-8",
        _ => "--spawn range is not UTF-8",
    }
}

// ---------------------------------------------------------------------------
// What they say
// ---------------------------------------------------------------------------

/// The options as far as they are read.
pub struct Draft {
    pub seed: Option<u64>,
    pub trace: bool,
    pub stats: bool,
    pub no_sched: bool,
    pub strategy: Strategy,
    pub net: Option<String>,
    pub nodes: u32,
    pub window: u64,
    pub watchdog: u64,
    pub window_ops: usize,
    pub record: Option<Vec<u8>>,
    pub listen: Option<String>,
    pub broker: Option<String>,
    pub spawn: Option<(u32, u32)>,
    pub host_id: u32,
    pub shim: Option<Vec<u8>>,
    pub program: Vec<Vec<u8>>,
}

pub struct DraftView {
    pub seed: Option<u64>,
    pub trace: bool,
    pub stats: bool,
    pub no_sched: bool,
    pub strategy: Strategy,
    pub net: Option<Seq<char>>,
    pub nodes: u32,
    pub window: u64,
    pub watchdog: u64,
    pub window_ops: usize,
    pub record: Option<Seq<u8>>,
    pub listen: Option<Seq<char>>,
    pub broker: Option<Seq<char>>,
    pub spawn: Option<(u32, u32)>,
    pub host_id: u32,
    pub shim: Option<Seq<u8>>,
    pub program: Seq<Seq<u8>>,
}

pub open spec fn text_view(s: Option<String>) -> Option<Seq<char>> {
    match s {
        Some(t) => Some(t@),
        None => None,
    }
}

pub open spec fn raw_view(s: Option<Vec<u8>>) -> Option<Seq<u8>> {
    match s {
        Some(t) => Some(t@),
        None => None,
    }
}

impl View for Draft {
    type V = DraftView;

    open spec fn view(&self) -> DraftView {
        DraftView {
            seed: self.seed,
            trace: self.trace,
            stats: self.stats,
            no_sched: self.no_sched,
            strategy: self.strategy,
            net: text_view(self.net),
            nodes: self.nodes,
            window: self.window,
            watchdog: self.watchdog,
            window_ops: self.window_ops,
            record: raw_view(self.record),
            listen: text_view(self.listen),
            broker: text_view(self.broker),
            spawn: self.spawn,
            host_id: self.host_id,
            shim: raw_view(self.shim),
            program: cli::raw_views(self.program@),
        }
    }
}

pub open spec fn no_options() -> DraftView {
    DraftView {
        seed: None,
        trace: false,
        stats: false,
        no_sched: false,
        strategy: Strategy::Random,
        net: None,
        nodes: 1,
        window: 0,
        watchdog: 0,
        window_ops: 0,
        record: None,
        listen: None,
        broker: None,
        spawn: None,
        host_id: 0,
        shim: None,
        program: Seq::empty(),
    }
}

/// What is said of a value that does not read.
pub open spec fn bad_value(flag: Seq<char>, v: Seq<char>, why: Seq<char>) -> Seq<char> {
    flag + text::debug_form(v) + why
}

fn bad(flag: &str, v: &str, why: &str) -> (s: String)
    ensures
        s@ == bad_value(flag@, v@, why@),
{
    let mut s = copy_text(flag);
    push_text(&mut s, quoted(v).as_str());
    push_text(&mut s, why);
    s
}

pub open spec fn with_seed(d: DraftView, v: Seq<char>) -> Result<DraftView, Seq<char>> {
    match abi::seed_value(v) {
        Some(n) => Ok(DraftView { seed: Some(n as u64), ..d }),
        None => Err(bad_value("--seed "@, v, ": "@ + abi::seed_error(v))),
    }
}

pub open spec fn with_strategy(d: DraftView, v: Seq<char>) -> Result<DraftView, Seq<char>> {
    match abi::strategy_named(v) {
        Some(x) => Ok(DraftView { strategy: x, ..d }),
        None => Err(
            bad_value("--strategy "@, v, ": unknown strategy (expected 'random' or 'rr')"@),
        ),
    }
}

/// The network conditions are read at once, so that a mistake shows before
/// anything is launched.
pub open spec fn with_net(d: DraftView, v: Seq<char>, readings: Seq<Option<u64>>) -> Result<
    DraftView,
    Seq<char>,
> {
    match config::model_of(0, config::clauses_of(v), readings, readings.len() as int) {
        Ok(_) => Ok(DraftView { net: Some(v), ..d }),
        Err(e) => Err("--net: "@ + config::error_text(e)),
    }
}

pub open spec fn with_nodes(d: DraftView, v: Seq<char>) -> Result<DraftView, Seq<char>> {
    match text::parse_uint(v, 10, u32::MAX as int) {
        None => Err(bad_value("--nodes "@, v, " is not a positive integer"@)),
        Some(n) => if n == 0 || n > 64 {
            Err("--nodes must be in 1..=64"@)
        } else {
            Ok(DraftView { nodes: n as u32, ..d })
        },
    }
}

pub open spec fn with_window(d: DraftView, v: Seq<char>) -> Result<DraftView, Seq<char>> {
    match text::parse_uint(v, 10, u64::MAX as int) {
        None => Err(bad_value("--window "@, v, " is not a non-negative integer (ns)"@)),
        Some(n) => if n == 0 {
            Err("--window width must be non-zero (ns)"@)
        } else {
            Ok(DraftView { window: n as u64, ..d })
        },
    }
}

pub open spec fn with_watchdog(d: DraftView, v: Seq<char>) -> Result<DraftView, Seq<char>> {
    match text::parse_uint(v, 10, u64::MAX as int) {
        None => Err(bad_value("--watchdog "@, v, " is not a non-negative integer (secs)"@)),
        Some(n) => Ok(DraftView { watchdog: n as u64, ..d }),
    }
}

pub open spec fn with_window_ops(d: DraftView, v: Seq<char>) -> Result<DraftView, Seq<char>> {
    match text::parse_uint(v, 10, usize::MAX as int) {
        None => Err(bad_value("--window-ops "@, v, " is not a non-negative integer"@)),
        Some(n) => Ok(DraftView { window_ops: n as usize, ..d }),
    }
}

pub open spec fn with_host_id(d: DraftView, v: Seq<char>) -> Result<DraftView, Seq<char>> {
    match text::parse_uint(v, 10, u32::MAX as int) {
        None => Err(bad_value("--host-id "@, v, " is not a non-negative integer"@)),
        Some(n) => Ok(DraftView { host_id: n as u32, ..d }),
    }
}

/// The range that `LO-HI` writes.
pub open spec fn range_of(v: Seq<char>) -> Option<(int, int)> {
    match text::split_once(v, '-') {
        None => None,
        Some(p) => match (
            text::parse_uint(p.0, 10, u32::MAX as int),
            text::parse_uint(p.1, 10, u32::MAX as int),
        ) {
            (Some(lo), Some(hi)) => Some((lo, hi)),
            _ => None,
        },
    }
}

pub open spec fn with_spawn(d: DraftView, v: Seq<char>) -> Result<DraftView, Seq<char>> {
    match range_of(v) {
        None => Err(bad_value("--spawn "@, v, " is not LO-HI (e.g. 0-2)"@)),
        Some(r) => if r.0 > r.1 {
            Err(bad_value("--spawn "@, v, ": LO must be <= HI"@))
        } else {
            Ok(DraftView { spawn: Some((r.0 as u32, r.1 as u32)), ..d })
        },
    }
}

/// The options with one more, whose value is text.
pub open spec fn with_text(
    d: DraftView,
    f: Flag,
    v: Seq<char>,
    readings: Seq<Option<u64>>,
) -> Result<DraftView, Seq<char>> {
    match f {
        Flag::Seed => with_seed(d, v),
        Flag::Strategy => with_strategy(d, v),
        Flag::Net => with_net(d, v, readings),
        Flag::Nodes => with_nodes(d, v),
        Flag::Window => with_window(d, v),
        Flag::Watchdog => with_watchdog(d, v),
        Flag::WindowOps => with_window_ops(d, v),
        Flag::Listen => Ok(DraftView { listen: Some(v), ..d }),
        Flag::Broker => Ok(DraftView { broker: Some(v), ..d }),
        Flag::HostId => with_host_id(d, v),
        _ => with_spawn(d, v),
    }
}

/// The options with one more, whose value is a path.
pub open spec fn with_path(d: DraftView, f: Flag, v: Seq<u8>) -> DraftView {
    if f == Flag::Record {
        DraftView { record: Some(v), ..d }
    } else {
        DraftView { shim: Some(v), ..d }
    }
}

pub open spec fn usage_of(wide: bool) -> Seq<char> {
    if wide {
        RUN_USAGE@
    } else {
        crate::run::RUN_USAGE@
    }
}

/// What the arguments from `i` on add to the options.
pub open spec fn parsed(
    args: Seq<Seq<u8>>,
    rows: Seq<Vec<Option<u64>>>,
    i: int,
    d: DraftView,
    wide: bool,
) -> Result<DraftView, Seq<char>>
    decreases args.len() - i,
{
    if i < 0 || i >= args.len() {
        Ok(d)
    } else {
        match flag_of(cli::arg_text(args[i]), wide) {
            Flag::Trace => parsed(args, rows, i + 1, DraftView { trace: true, ..d }, wide),
            Flag::Stats => parsed(args, rows, i + 1, DraftView { stats: true, ..d }, wide),
            Flag::NoSched => parsed(args, rows, i + 1, DraftView { no_sched: true, ..d }, wide),
            Flag::Help => Err(usage_of(wide)),
            Flag::Program => Ok(DraftView { program: d.program + args.skip(i + 1), ..d }),
            Flag::Unknown => Err(
                bad_value(
                    "unknown or misplaced argument "@,
                    cli::lossy_form(args[i]),
                    " (put the program after `--`)"@,
                ),
            ),
            f => if i + 1 >= args.len() {
                Err(missing_text(f))
            } else if f == Flag::Record || f == Flag::Shim {
                parsed(args, rows, i + 2, with_path(d, f, args[i + 1]), wide)
            } else {
                match cli::arg_text(args[i + 1]) {
                    None => Err(not_text(f)),
                    Some(v) => match with_text(d, f, v, rows[i + 1]@) {
                        Ok(e) => parsed(args, rows, i + 2, e, wide),
                        Err(e) => Err(e),
                    },
                }
            },
        }
    }
}

// ---------------------------------------------------------------------------
// Whether it makes sense
// ---------------------------------------------------------------------------

/// Why the options do not go together, if they do not.
pub open spec fn conflict(d: DraftView) -> Option<Seq<char>> {
    if d.nodes > 1 && d.net is None {
        Some("--nodes requires --net (nodes communicate through the broker)"@)
    } else if d.record is Some && d.net is None {
        Some("--record requires --net (recording captures broker operations)"@)
    } else if d.window > 0 && d.net is None {
        Some("--window requires --net (the windowed sequencer orders broker ops)"@)
    } else if d.watchdog > 0 && d.net is None {
        Some("--watchdog requires --net (progress is measured at the broker)"@)
    } else if (d.listen is Some || d.broker is Some || d.spawn is Some || d.host_id > 0) && d.net
        is None {
        Some("--listen/--broker/--spawn/--host-id require --net"@)
    } else if d.window_ops > 0 && d.window == 0 {
        Some("--window-ops requires --window (it bounds a window's buffer)"@)
    } else if d.listen is Some && d.broker is Some {
        Some("--listen and --broker are mutually exclusive (host or join, not both)"@)
    } else if d.broker is Some && d.record is Some {
        Some("--record needs the hosting side (--listen); the joining side has no broker"@)
    } else if d.broker is Some && d.watchdog > 0 {
        Some("--watchdog needs the hosting side (--listen); progress is measured at the broker"@)
    } else {
        match d.spawn {
            Some(r) => if r.1 >= d.nodes {
                Some(
                    "--spawn id "@ + text::dec(r.1 as nat) + " is out of range for --nodes "@
                        + text::dec(d.nodes as nat),
                )
            } else {
                None
            },
            None => None,
        }
    }
}

/// The options, if they are complete and go together.
pub open spec fn settled(d: DraftView, wide: bool) -> Result<DraftView, Seq<char>> {
    if d.seed is None {
        Err("--seed is required\n\n"@ + usage_of(wide))
    } else if d.program.len() == 0 {
        Err("no program given after `--`\n\n"@ + usage_of(wide))
    } else {
        match conflict(d) {
            Some(e) => Err(e),
            None => Ok(d),
        }
    }
}

/// What a command line says.
pub open spec fn options_of(args: Seq<Seq<u8>>, rows: Seq<Vec<Option<u64>>>, wide: bool) -> Result<
    DraftView,
    Seq<char>,
> {
    match parsed(args, rows, 0, no_options(), wide) {
        Ok(d) => settled(d, wide),
        Err(e) => Err(e),
    }
}

// ---------------------------------------------------------------------------
// Reading
// ---------------------------------------------------------------------------

impl Draft {
    fn new() -> (r: Self)
        ensures
            r@ == no_options(),
    {
        let r = Draft {
            seed: None,
            trace: false,
            stats: false,
            no_sched: false,
            strategy: Strategy::Random,
            net: None,
            nodes: 1,
            window: 0,
            watchdog: 0,
            window_ops: 0,
            record: None,
            listen: None,
            broker: None,
            spawn: None,
            host_id: 0,
            shim: None,
            program: Vec::new(),
        };
        assert(r@.program =~= Seq::<Seq<u8>>::empty());
        r
    }

    fn take_seed(&mut self, v: &str) -> (r: Result<(), String>)
        ensures
            match r {
                Ok(_) => with_seed(old(self)@, v@) == Ok::<DraftView, Seq<char>>(final(self)@),
                Err(e) => with_seed(old(self)@, v@) == Err::<DraftView, Seq<char>>(e@),
            },
    {
        match parse_seed(v) {
            Ok(n) => {
                self.seed = Some(n);
                Ok(())
            },
            Err(e) => {
                let mut why = copy_text(": ");
                push_text(&mut why, e);
                Err(bad("--seed ", v, why.as_str()))
            },
        }
    }

    fn take_strategy(&mut self, v: &str) -> (r: Result<(), String>)
        ensures
            match r {
                Ok(_) => with_strategy(old(self)@, v@) == Ok::<DraftView, Seq<char>>(final(self)@),
                Err(e) => with_strategy(old(self)@, v@) == Err::<DraftView, Seq<char>>(e@),
            },
    {
        match Strategy::parse(v) {
            Ok(x) => {
                self.strategy = x;
                Ok(())
            },
            Err(_) => Err(
                bad("--strategy ", v, ": unknown strategy (expected 'random' or 'rr')"),
            ),
        }
    }

    fn take_net(&mut self, v: &str, readings: &Vec<Option<u64>>) -> (r: Result<(), String>)
        requires
            readings@.len() == config::clauses_of(v@).len(),
        ensures
            match r {
                Ok(_) => with_net(old(self)@, v@, readings@) == Ok::<DraftView, Seq<char>>(
                    final(self)@,
                ),
                Err(e) => with_net(old(self)@, v@, readings@) == Err::<DraftView, Seq<char>>(e@),
            },
    {
        match parse(0, v, readings) {
            Ok(_) => {
                self.net = Some(copy_text(v));
                Ok(())
            },
            Err(e) => {
                let mut s = copy_text("--net: ");
                push_text(&mut s, e.text().as_str());
                Err(s)
            },
        }
    }

    fn take_nodes(&mut self, v: &str) -> (r: Result<(), String>)
        ensures
            match r {
                Ok(_) => with_nodes(old(self)@, v@) == Ok::<DraftView, Seq<char>>(final(self)@),
                Err(e) => with_nodes(old(self)@, v@) == Err::<DraftView, Seq<char>>(e@),
            },
    {
        match read_uint(&chars_of(v), 10, u32::MAX as u64) {
            None => Err(bad("--nodes ", v, " is not a positive integer")),
            Some(n) => {
                if n == 0 || n > 64 {
                    return Err(copy_text("--nodes must be in 1..=64"));
                }
                self.nodes = n as u32;
                Ok(())
            },
        }
    }

    fn take_window(&mut self, v: &str) -> (r: Result<(), String>)
        ensures
            match r {
                Ok(_) => with_window(old(self)@, v@) == Ok::<DraftView, Seq<char>>(final(self)@),
                Err(e) => with_window(old(self)@, v@) == Err::<DraftView, Seq<char>>(e@),
            },
    {
        match read_uint(&chars_of(v), 10, u64::MAX) {
            None => Err(bad("--window ", v, " is not a non-negative integer (ns)")),
            Some(n) => {
                if n == 0 {
                    return Err(copy_text("--window width must be non-zero (ns)"));
                }
                self.window = n;
                Ok(())
            },
        }
    }

    fn take_watchdog(&mut self, v: &str) -> (r: Result<(), String>)
        ensures
            match r {
                Ok(_) => with_watchdog(old(self)@, v@) == Ok::<DraftView, Seq<char>>(final(self)@),
                Err(e) => with_watchdog(old(self)@, v@) == Err::<DraftView, Seq<char>>(e@),
            },
    {
        match read_uint(&chars_of(v), 10, u64::MAX) {
            None => Err(bad("--watchdog ", v, " is not a non-negative integer (secs)")),
            Some(n) => {
                self.watchdog = n;
                Ok(())
            },
        }
    }

    fn take_window_ops(&mut self, v: &str) -> (r: Result<(), String>)
        ensures
            match r {
                Ok(_) => with_window_ops(old(self)@, v@) == Ok::<DraftView, Seq<char>>(final(self)@),
                Err(e) => with_window_ops(old(self)@, v@) == Err::<DraftView, Seq<char>>(e@),
            },
    {
        match read_uint(&chars_of(v), 10, usize::MAX as u64) {
            None => Err(bad("--window-ops ", v, " is not a non-negative integer")),
            Some(n) => {
                self.window_ops = n as usize;
                Ok(())
            },
        }
    }

    fn take_host_id(&mut self, v: &str) -> (r: Result<(), String>)
        ensures
            match r {
                Ok(_) => with_host_id(old(self)@, v@) == Ok::<DraftView, Seq<char>>(final(self)@),
                Err(e) => with_host_id(old(self)@, v@) == Err::<DraftView, Seq<char>>(e@),
            },
    {
        match read_uint(&chars_of(v), 10, u32::MAX as u64) {
            None => Err(bad("--host-id ", v, " is not a non-negative integer")),
            Some(n) => {
                self.host_id = n as u32;
                Ok(())
            },
        }
    }

    fn take_spawn(&mut self, v: &str) -> (r: Result<(), String>)
        ensures
            match r {
                Ok(_) => with_spawn(old(self)@, v@) == Ok::<DraftView, Seq<char>>(final(self)@),
                Err(e) => with_spawn(old(self)@, v@) == Err::<DraftView, Seq<char>>(e@),
            },
    {
        match read_range(v) {
            None => Err(bad("--spawn ", v, " is not LO-HI (e.g. 0-2)")),
            Some((lo, hi)) => {
                if lo > hi {
                    return Err(bad("--spawn ", v, ": LO must be <= HI"));
                }
                self.spawn = Some((lo, hi));
                Ok(())
            },
        }
    }

    fn take_text(&mut self, f: Flag, v: &str, readings: &Vec<Option<u64>>) -> (r: Result<
        (),
        String,
    >)
        requires
            readings@.len() == config::clauses_of(v@).len(),
        ensures
            match r {
                Ok(_) => with_text(old(self)@, f, v@, readings@) == Ok::<DraftView, Seq<char>>(
                    final(self)@,
                ),
                Err(e) => with_text(old(self)@, f, v@, readings@) == Err::<DraftView, Seq<char>>(
                    e@,
                ),
            },
    {
        match f {
            Flag::Seed => self.take_seed(v),
            Flag::Strategy => self.take_strategy(v),
            Flag::Net => self.take_net(v, readings),
            Flag::Nodes => self.take_nodes(v),
            Flag::Window => self.take_window(v),
            Flag::Watchdog => self.take_watchdog(v),
            Flag::WindowOps => self.take_window_ops(v),
            Flag::Listen => {
                self.listen = Some(copy_text(v));
                Ok(())
            },
            Flag::Broker => {
                self.broker = Some(copy_text(v));
                Ok(())
            },
            Flag::HostId => self.take_host_id(v),
            _ => self.take_spawn(v),
        }
    }

    fn take_path(&mut self, f: Flag, v: &Vec<u8>)
        ensures
            final(self)@ == with_path(old(self)@, f, v@),
    {
        if f == Flag::Record {
            self.record = Some(copy_raw(v));
        } else {
            self.shim = Some(copy_raw(v));
        }
    }

    /// Why the options do not go together, if they do not.
    fn clash(&self) -> (r: Option<String>)
        ensures
            match r {
                Some(s) => conflict(self@) == Some(s@),
                None => conflict(self@) is None,
            },
    {
        let net: bool = self.net.is_some();
        if self.nodes > 1 && !net {
            return Some(
                copy_text("--nodes requires --net (nodes communicate through the broker)"),
            );
        }
        if self.record.is_some() && !net {
            return Some(
                copy_text("--record requires --net (recording captures broker operations)"),
            );
        }
        if self.window > 0 && !net {
            return Some(
                copy_text("--window requires --net (the windowed sequencer orders broker ops)"),
            );
        }
        if self.watchdog > 0 && !net {
            return Some(
                copy_text("--watchdog requires --net (progress is measured at the broker)"),
            );
        }
        if (self.listen.is_some() || self.broker.is_some() || self.spawn.is_some() || self.host_id
            > 0) && !net {
            return Some(copy_text("--listen/--broker/--spawn/--host-id require --net"));
        }
        if self.window_ops > 0 && self.window == 0 {
            return Some(
                copy_text("--window-ops requires --window (it bounds a window's buffer)"),
            );
        }
        if self.listen.is_some() && self.broker.is_some() {
            return Some(
                copy_text("--listen and --broker are mutually exclusive (host or join, not both)"),
            );
        }
        if self.broker.is_some() && self.record.is_some() {
            return Some(
                copy_text(
                    "--record needs the hosting side (--listen); the joining side has no broker",
                ),
            );
        }
        if self.broker.is_some() && self.watchdog > 0 {
            return Some(
                copy_text(
                    "--watchdog needs the hosting side (--listen); progress is measured at the broker",
                ),
            );
        }
        if let Some((_, hi)) = self.spawn {
            if hi >= self.nodes {
                let mut s = copy_text("--spawn id ");
                push_dec(&mut s, hi as u64);
                push_text(&mut s, " is out of range for --nodes ");
                push_dec(&mut s, self.nodes as u64);
                return Some(s);
            }
        }
        None
    }
}

fn read_range(v: &str) -> (r: Option<(u32, u32)>)
    ensures
        match r {
            Some(p) => range_of(v@) == Some((p.0 as int, p.1 as int)),
            None => range_of(v@) is None,
        },
{
    match split_once_chars(&chars_of(v), '-') {
        None => None,
        Some((a, b)) => match (
            read_uint(&a, 10, u32::MAX as u64),
            read_uint(&b, 10, u32::MAX as u64),
        ) {
            (Some(lo), Some(hi)) => Some((lo as u32, hi as u32)),
            _ => None,
        },
    }
}

fn usage(wide: bool) -> (s: &'static str)
    ensures
        s@ == usage_of(wide),
{
    if wide {
        RUN_USAGE
    } else {
        crate::run::RUN_USAGE
    }
}

fn read_all(args: &Vec<Vec<u8>>, rows: &Vec<Vec<Option<u64>>>, wide: bool) -> (r: Result<
    Draft,
    String,
>)
    requires
        cli::readings_fit(cli::raw_views(args@), rows@),
    ensures
        ({
            let p = parsed(cli::raw_views(args@), rows@, 0, no_options(), wide);
            match r {
                Ok(d) => p == Ok::<DraftView, Seq<char>>(d@),
                Err(e) => p == Err::<DraftView, Seq<char>>(e@),
            }
        }),
{
    let ghost av = cli::raw_views(args@);
    let ghost goal = parsed(av, rows@, 0, no_options(), wide);
    let mut d = Draft::new();
    let mut i: usize = 0;
    while i < args.len()
        invariant
            i <= args@.len(),
            av == cli::raw_views(args@),
            cli::readings_fit(av, rows@),
            goal == parsed(av, rows@, 0, no_options(), wide),
            goal == parsed(av, rows@, i as int, d@, wide),
            d.program@.len() == 0,
        decreases args@.len() - i,
    {
        assert(av[i as int] == args@[i as int]@);
        let f = read_flag(&args[i], wide);
        match f {
            Flag::Trace => {
                d.trace = true;
                i = i + 1;
            },
            Flag::Stats => {
                d.stats = true;
                i = i + 1;
            },
            Flag::NoSched => {
                d.no_sched = true;
                i = i + 1;
            },
            Flag::Help => {
                return Err(copy_text(usage(wide)));
            },
            Flag::Program => {
                let ghost before = d@;
                d.program = rest_of(args, i + 1);
                assert(before.program + av.skip(i as int + 1) =~= d@.program);
                return Ok(d);
            },
            Flag::Unknown => {
                let shown = lossy(args[i].as_slice());
                return Err(
                    bad(
                        "unknown or misplaced argument ",
                        shown.as_str(),
                        " (put the program after `--`)",
                    ),
                );
            },
            _ => {
                if i + 1 >= args.len() {
                    return Err(copy_text(missing(f)));
                }
                assert(av[i as int + 1] == args@[i as int + 1]@);
                if f == Flag::Record || f == Flag::Shim {
                    d.take_path(f, &args[i + 1]);
                } else {
                    match read_arg(&args[i + 1]) {
                        None => {
                            return Err(copy_text(no_text(f)));
                        },
                        Some(v) => {
                            match d.take_text(f, v.as_str(), &rows[i + 1]) {
                                Ok(_) => {},
                                Err(e) => {
                                    return Err(e);
                                },
                            }
                        },
                    }
                }
                i = i + 2;
            },
        }
    }
    Ok(d)
}

/// What a command line says, where it is complete and makes sense; `wide`
/// where the options of a recorded or multi-host run are known.
pub fn read_options(args: &Vec<Vec<u8>>, rows: &Vec<Vec<Option<u64>>>, wide: bool) -> (r: Result<
    (u64, Draft),
    String,
>)
    requires
        cli::readings_fit(cli::raw_views(args@), rows@),
    ensures
        ({
            let p = options_of(cli::raw_views(args@), rows@, wide);
            match r {
                Ok((seed, d)) => p == Ok::<DraftView, Seq<char>>(d@) && d@.seed == Some(seed),
                Err(e) => p == Err::<DraftView, Seq<char>>(e@),
            }
        }),
{
    let d = match read_all(args, rows, wide) {
        Ok(d) => d,
        Err(e) => {
            return Err(e);
        },
    };
    match d.seed {
        None => {
            let mut s = copy_text("--seed is required\n\n");
            push_text(&mut s, usage(wide));
            Err(s)
        },
        Some(seed) => {
            assert(d@.program.len() == d.program@.len());
            if d.program.len() == 0 {
                let mut s = copy_text("no program given after `--`\n\n");
                push_text(&mut s, usage(wide));
                return Err(s);
            }
            match d.clash() {
                Some(e) => Err(e),
                None => Ok((seed, d)),
            }
        },
    }
}

/// The options of a run.
pub struct RunOpts {
    pub seed: u64,
    pub trace: bool,
    pub stats: bool,
    pub no_sched: bool,
    pub strategy: Strategy,
    /// The network conditions; given, even empty, they engage the broker.
    pub net: Option<String>,
    pub nodes: u32,
    /// The window width in nanoseconds; 0 for the single-host broker.
    pub window: u64,
    /// Where to record the broker operations.
    pub record: Option<Vec<u8>>,
    /// Seconds without progress after which the run is discarded; 0 for never.
    pub watchdog: u64,
    /// The most sends that one node may buffer in a window; 0 for any.
    pub window_ops: usize,
    /// The TCP address to host the broker on.
    pub listen: Option<String>,
    /// The TCP address of a broker to join.
    pub broker: Option<String>,
    /// The nodes to launch here, both ends included.
    pub spawn: Option<(u32, u32)>,
    pub host_id: u32,
    pub shim: Option<Vec<u8>>,
    pub program: Vec<Vec<u8>>,
}

impl View for RunOpts {
    type V = DraftView;

    open spec fn view(&self) -> DraftView {
        DraftView {
            seed: Some(self.seed),
            trace: self.trace,
            stats: self.stats,
            no_sched: self.no_sched,
            strategy: self.strategy,
            net: text_view(self.net),
            nodes: self.nodes,
            window: self.window,
            watchdog: self.watchdog,
            window_ops: self.window_ops,
            record: raw_view(self.record),
            listen: text_view(self.listen),
            broker: text_view(self.broker),
            spawn: self.spawn,
            host_id: self.host_id,
            shim: raw_view(self.shim),
            program: cli::raw_views(self.program@),
        }
    }
}

/// Read the arguments of a run. `rows` holds, for each argument taken as a
/// network-condition text, the readings of its loss values.
pub fn parse_args(args: &Vec<Vec<u8>>, rows: &Vec<Vec<Option<u64>>>) -> (r: Result<RunOpts, String>)
    requires
        cli::readings_fit(cli::raw_views(args@), rows@),
    ensures
        ({
            let p = options_of(cli::raw_views(args@), rows@, true);
            match r {
                Ok(o) => p == Ok::<DraftView, Seq<char>>(o@),
                Err(e) => p == Err::<DraftView, Seq<char>>(e@),
            }
        }),
{
    match read_options(args, rows, true) {
        Err(e) => Err(e),
        Ok((seed, d)) => Ok(
            RunOpts {
                seed,
                trace: d.trace,
                stats: d.stats,
                no_sched: d.no_sched,
                strategy: d.strategy,
                net: d.net,
                nodes: d.nodes,
                window: d.window,
                record: d.record,
                watchdog: d.watchdog,
                window_ops: d.window_ops,
                listen: d.listen,
                broker: d.broker,
                spawn: d.spawn,
                host_id: d.host_id,
                shim: d.shim,
                program: d.program,
            },
        ),
    }
}

// ---------------------------------------------------------------------------
// Laws
// ---------------------------------------------------------------------------

/// The program of the options is what stands behind the separator at `i`.
pub open spec fn program_behind(args: Seq<Seq<u8>>, d: DraftView, i: int) -> bool {
    0 <= i < args.len() && cli::arg_text(args[i]) == Some("--"@) && d.program == args.skip(i + 1)
}

proof fn lemma_separator(a: Option<Seq<char>>, wide: bool)
    requires
        flag_of(a, wide) == Flag::Program,
    ensures
        a == Some("--"@),
{
}

/// Only the options of a run on one host are set.
pub open spec fn narrow(d: DraftView) -> bool {
    &&& d.window == 0
    &&& d.watchdog == 0
    &&& d.window_ops == 0
    &&& d.record is None
    &&& d.listen is None
    &&& d.broker is None
    &&& d.spawn is None
    &&& d.host_id == 0
}

pub proof fn lemma_parsed(
    args: Seq<Seq<u8>>,
    rows: Seq<Vec<Option<u64>>>,
    i: int,
    d: DraftView,
    wide: bool,
)
    requires
        0 <= i,
        parsed(args, rows, i, d, wide) is Ok,
        1 <= d.nodes <= 64,
        d.program.len() == 0,
        d.spawn matches Some(r) ==> r.0 <= r.1,
    ensures
        ({
            let e = parsed(args, rows, i, d, wide)->Ok_0;
            &&& 1 <= e.nodes <= 64
            &&& e.program.len() > 0 ==> exists|j: int| #[trigger] program_behind(args, e, j)
            &&& e.spawn matches Some(r) ==> r.0 <= r.1
            &&& !wide && narrow(d) ==> narrow(e)
        }),
    decreases args.len() - i,
{
    if i < args.len() {
        let f = flag_of(cli::arg_text(args[i]), wide);
        match f {
            Flag::Trace => {
                lemma_parsed(args, rows, i + 1, DraftView { trace: true, ..d }, wide);
            },
            Flag::Stats => {
                lemma_parsed(args, rows, i + 1, DraftView { stats: true, ..d }, wide);
            },
            Flag::NoSched => {
                lemma_parsed(args, rows, i + 1, DraftView { no_sched: true, ..d }, wide);
            },
            Flag::Help => {},
            Flag::Program => {
                lemma_separator(cli::arg_text(args[i]), wide);
                let e = parsed(args, rows, i, d, wide)->Ok_0;
                assert(d.program + args.skip(i + 1) =~= args.skip(i + 1));
                assert(program_behind(args, e, i));
            },
            Flag::Unknown => {},
            _ => {
                if f == Flag::Record || f == Flag::Shim {
                    lemma_parsed(args, rows, i + 2, with_path(d, f, args[i + 1]), wide);
                } else {
                    let v = cli::arg_text(args[i + 1])->Some_0;
                    let e = with_text(d, f, v, rows[i + 1]@)->Ok_0;
                    text::lemma_parse_uint(v, 10, u32::MAX as int);
                    if let Some(p) = text::split_once(v, '-') {
                        text::lemma_parse_uint(p.0, 10, u32::MAX as int);
                        text::lemma_parse_uint(p.1, 10, u32::MAX as int);
                    }
                    lemma_parsed(args, rows, i + 2, e, wide);
                }
            },
        }
    }
}

/// What is accepted makes sense: there is a seed, a program, and from 1 to 64
/// nodes; what needs the network has it, and one host either hosts the broker
/// or joins it. The program is everything behind a separator, untouched.
pub proof fn law_accepted_options_agree(
    args: Seq<Seq<u8>>,
    rows: Seq<Vec<Option<u64>>>,
    wide: bool,
)
    requires
        options_of(args, rows, wide) is Ok,
    ensures
        ({
            let d = options_of(args, rows, wide)->Ok_0;
            &&& d.seed is Some
            &&& 1 <= d.nodes <= 64
            &&& d.program.len() > 0
            &&& exists|j: int| #[trigger] program_behind(args, d, j)
            &&& d.net is None ==> d.nodes == 1 && narrow(d)
            &&& d.window == 0 ==> d.window_ops == 0
            &&& d.broker is Some ==> d.listen is None && d.record is None && d.watchdog == 0
            &&& d.spawn matches Some(r) ==> r.0 <= r.1 < d.nodes
        }),
{
    lemma_parsed(args, rows, 0, no_options(), wide);
}

} // verus!
