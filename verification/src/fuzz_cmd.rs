//! The options of a fuzz run, and what becomes of the seeds that failed.

use vstd::prelude::*;

use crate::cli;
use crate::cli::{lossy, read_arg};
use crate::fuzz;
use crate::fuzz::{put_all, FuzzReport};
use crate::fuzz_config::{ConfigView, FuzzConfig};
use crate::run_cmd;
use crate::text;
use crate::text::{
    chars_of, copy_text, push_text, quoted, read_uint, same_text, split_once_chars, string_of,
};

verus! {

/// How the program is used.
pub const FUZZ_USAGE: &'static str = "Usage: weft fuzz --config <FILE> [OPTIONS]

Sweep fault seeds against a deterministic workload, check invariants, shrink
every distinct violation to a minimal reproducer, and write a report. See
docs/fuzzing.md for the config file format.

Options:
  --config <FILE>      JSON config (required; flags below override it)
  --seeds <START:N>    Sweep N seeds starting at START (e.g. 0:1000)
  --time-budget <SEC>  Stop sweeping after SEC seconds
  --jobs <N>           Worker threads
  --out <DIR>          Output directory for reproducers and the report
  --no-shrink          Keep full-size reproducers (skip shrinking)
  --regressions <FILE> JSON array of seeds to test before the sweep; on
                       failure the file is refreshed with all failing seeds
  -h, --help           Print this help

Exit codes: 0 no violations · 2 violations found · 1 error";

/// The options of a fuzz run.
#[derive(Debug)]
pub struct FuzzOpts {
    pub config: String,
    /// The first seed, and how many.
    pub seeds: Option<(u64, u64)>,
    pub time_budget: Option<u64>,
    pub jobs: Option<usize>,
    pub out: Option<String>,
    pub no_shrink: bool,
    pub regressions: Option<String>,
}

/// The options as far as they are read.
pub struct OptsView {
    pub config: Option<Seq<char>>,
    pub seeds: Option<(u64, u64)>,
    pub time_budget: Option<u64>,
    pub jobs: Option<usize>,
    pub out: Option<Seq<char>>,
    pub no_shrink: bool,
    pub regressions: Option<Seq<char>>,
}

impl View for FuzzOpts {
    type V = OptsView;

    open spec fn view(&self) -> OptsView {
        OptsView {
            config: Some(self.config@),
            seeds: self.seeds,
            time_budget: self.time_budget,
            jobs: self.jobs,
            out: run_cmd::text_view(self.out),
            no_shrink: self.no_shrink,
            regressions: run_cmd::text_view(self.regressions),
        }
    }
}

struct Draft {
    config: Option<String>,
    seeds: Option<(u64, u64)>,
    time_budget: Option<u64>,
    jobs: Option<usize>,
    out: Option<String>,
    no_shrink: bool,
    regressions: Option<String>,
}

impl Draft {
    spec fn shown(&self) -> OptsView {
        OptsView {
            config: run_cmd::text_view(self.config),
            seeds: self.seeds,
            time_budget: self.time_budget,
            jobs: self.jobs,
            out: run_cmd::text_view(self.out),
            no_shrink: self.no_shrink,
            regressions: run_cmd::text_view(self.regressions),
        }
    }
}

pub open spec fn no_options() -> OptsView {
    OptsView {
        config: None,
        seeds: None,
        time_budget: None,
        jobs: None,
        out: None,
        no_shrink: false,
        regressions: None,
    }
}

/// What an argument is.
#[derive(Clone, Copy, PartialEq, Eq, Structural)]
pub enum Flag {
    Config,
    Seeds,
    TimeBudget,
    Jobs,
    Out,
    NoShrink,
    Regressions,
    Help,
    Unknown,
}

pub open spec fn flag_of(arg: Option<Seq<char>>) -> Flag {
    match arg {
        None => Flag::Unknown,
        Some(a) => if a == "--config"@ {
            Flag::Config
        } else if a == "--seeds"@ {
            Flag::Seeds
        } else if a == "--time-budget"@ {
            Flag::TimeBudget
        } else if a == "--jobs"@ {
            Flag::Jobs
        } else if a == "--out"@ {
            Flag::Out
        } else if a == "--no-shrink"@ {
            Flag::NoShrink
        } else if a == "--regressions"@ {
            Flag::Regressions
        } else if a == "-h"@ || a == "--help"@ {
            Flag::Help
        } else {
            Flag::Unknown
        },
    }
}

fn read_flag(b: &Vec<u8>) -> (f: Flag)
    ensures
        f == flag_of(cli::arg_text(b@)),
{
    match read_arg(b) {
        None => Flag::Unknown,
        Some(s) => {
            let a = s.as_str();
            if same_text(a, "--config") {
                Flag::Config
            } else if same_text(a, "--seeds") {
                Flag::Seeds
            } else if same_text(a, "--time-budget") {
                Flag::TimeBudget
            } else if same_text(a, "--jobs") {
                Flag::Jobs
            } else if same_text(a, "--out") {
                Flag::Out
            } else if same_text(a, "--no-shrink") {
                Flag::NoShrink
            } else if same_text(a, "--regressions") {
                Flag::Regressions
            } else if same_text(a, "-h") || same_text(a, "--help") {
                Flag::Help
            } else {
                Flag::Unknown
            }
        },
    }
}

/// How an option with a value is written.
pub open spec fn flag_text(f: Flag) -> Seq<char> {
    match f {
        Flag::Config => "--config"@,
        Flag::Seeds => "--seeds"@,
        Flag::TimeBudget => "--time-budget"@,
        Flag::Jobs => "--jobs"@,
        Flag::Out => "--out"@,
        _ => "--regressions"@,
    }
}

fn written(f: Flag) -> (s: &'static str)
    ensures
        s@ == flag_text(f),
{
    match f {
        Flag::Config => "--config",
        Flag::Seeds => "--seeds",
        Flag::TimeBudget => "--time-budget",
        Flag::Jobs => "--jobs",
        Flag::Out => "--out",
        _ => "--regressions",
    }
}

/// The seeds that `START:COUNT` writes, or what is wrong with it.
pub open spec fn seeds_of(v: Seq<char>) -> Result<(u64, u64), Seq<char>> {
    match text::split_once(v, ':') {
        None => Err("--seeds "@ + text::debug_form(v) + ": expected START:COUNT"@),
        Some(p) => match text::parse_uint(p.0, 10, u64::MAX as int) {
            None => Err("--seeds start "@ + text::debug_form(p.0) + ": not a u64"@),
            Some(a) => match text::parse_uint(p.1, 10, u64::MAX as int) {
                None => Err("--seeds count "@ + text::debug_form(p.1) + ": not a u64"@),
                Some(b) => Ok((a as u64, b as u64)),
            },
        },
    }
}

/// The options with one more.
pub open spec fn with_value(d: OptsView, f: Flag, v: Seq<char>) -> Result<OptsView, Seq<char>> {
    match f {
        Flag::Config => Ok(OptsView { config: Some(v), ..d }),
        Flag::Seeds => match seeds_of(v) {
            Ok(s) => Ok(OptsView { seeds: Some(s), ..d }),
            Err(e) => Err(e),
        },
        Flag::TimeBudget => match text::parse_uint(v, 10, u64::MAX as int) {
            Some(n) => Ok(OptsView { time_budget: Some(n as u64), ..d }),
            None => Err("--time-budget "@ + text::debug_form(v) + ": not seconds"@),
        },
        Flag::Jobs => match text::parse_uint(v, 10, usize::MAX as int) {
            Some(n) => Ok(OptsView { jobs: Some(n as usize), ..d }),
            None => Err("--jobs "@ + text::debug_form(v) + ": not a count"@),
        },
        Flag::Out => Ok(OptsView { out: Some(v), ..d }),
        _ => Ok(OptsView { regressions: Some(v), ..d }),
    }
}

/// What the arguments from `i` on add to the options.
pub open spec fn parsed(args: Seq<Seq<u8>>, i: int, d: OptsView) -> Result<OptsView, Seq<char>>
    decreases args.len() - i,
{
    if i < 0 || i >= args.len() {
        Ok(d)
    } else {
        match flag_of(cli::arg_text(args[i])) {
            Flag::NoShrink => parsed(args, i + 1, OptsView { no_shrink: true, ..d }),
            Flag::Help => Err(FUZZ_USAGE@),
            Flag::Unknown => Err(
                "unexpected argument "@ + text::debug_form(cli::lossy_form(args[i])) + "\n\n"@
                    + FUZZ_USAGE@,
            ),
            f => if i + 1 >= args.len() {
                Err(flag_text(f) + " requires a value"@)
            } else {
                match cli::arg_text(args[i + 1]) {
                    None => Err(flag_text(f) + " value is not UTF-8"@),
                    Some(v) => match with_value(d, f, v) {
                        Ok(e) => parsed(args, i + 2, e),
                        Err(e) => Err(e),
                    },
                }
            },
        }
    }
}

/// What a command line says.
pub open spec fn options_of(args: Seq<Seq<u8>>) -> Result<OptsView, Seq<char>> {
    match parsed(args, 0, no_options()) {
        Err(e) => Err(e),
        Ok(d) => if d.config is None {
            Err("--config is required\n\n"@ + FUZZ_USAGE@)
        } else {
            Ok(d)
        },
    }
}

fn bad(flag: &str, v: &str, why: &str) -> (s: String)
    ensures
        s@ == flag@ + text::debug_form(v@) + why@,
{
    let mut s = copy_text(flag);
    push_text(&mut s, quoted(v).as_str());
    push_text(&mut s, why);
    s
}

fn read_seeds(v: &str) -> (r: Result<(u64, u64), String>)
    ensures
        match r {
            Ok(s) => seeds_of(v@) == Ok::<(u64, u64), Seq<char>>(s),
            Err(e) => seeds_of(v@) == Err::<(u64, u64), Seq<char>>(e@),
        },
{
    match split_once_chars(&chars_of(v), ':') {
        None => Err(bad("--seeds ", v, ": expected START:COUNT")),
        Some((a, b)) => match read_uint(&a, 10, u64::MAX) {
            None => Err(bad("--seeds start ", string_of(&a).as_str(), ": not a u64")),
            Some(x) => match read_uint(&b, 10, u64::MAX) {
                None => Err(bad("--seeds count ", string_of(&b).as_str(), ": not a u64")),
                Some(y) => Ok((x, y)),
            },
        },
    }
}

impl Draft {
    fn take(&mut self, f: Flag, v: &str) -> (r: Result<(), String>)
        ensures
            match r {
                Ok(_) => with_value(old(self).shown(), f, v@) == Ok::<OptsView, Seq<char>>(
                    final(self).shown(),
                ),
                Err(e) => with_value(old(self).shown(), f, v@) == Err::<OptsView, Seq<char>>(e@),
            },
    {
        match f {
            Flag::Config => {
                self.config = Some(copy_text(v));
            },
            Flag::Seeds => match read_seeds(v) {
                Ok(s) => {
                    self.seeds = Some(s);
                },
                Err(e) => {
                    return Err(e);
                },
            },
            Flag::TimeBudget => match read_uint(&chars_of(v), 10, u64::MAX) {
                Some(n) => {
                    self.time_budget = Some(n);
                },
                None => {
                    return Err(bad("--time-budget ", v, ": not seconds"));
                },
            },
            Flag::Jobs => match read_uint(&chars_of(v), 10, usize::MAX as u64) {
                Some(n) => {
                    self.jobs = Some(n as usize);
                },
                None => {
                    return Err(bad("--jobs ", v, ": not a count"));
                },
            },
            Flag::Out => {
                self.out = Some(copy_text(v));
            },
            _ => {
                self.regressions = Some(copy_text(v));
            },
        }
        Ok(())
    }
}

fn said(f: Flag, what: &str) -> (s: String)
    ensures
        s@ == flag_text(f) + what@,
{
    let mut s = copy_text(written(f));
    push_text(&mut s, what);
    s
}

fn unexpected(b: &Vec<u8>) -> (e: String)
    ensures
        e@ == "unexpected argument "@ + text::debug_form(cli::lossy_form(b@)) + "\n\n"@
            + FUZZ_USAGE@,
{
    let shown = lossy(b.as_slice());
    let mut e = copy_text("unexpected argument ");
    push_text(&mut e, quoted(shown.as_str()).as_str());
    push_text(&mut e, "\n\n");
    push_text(&mut e, FUZZ_USAGE);
    e
}

/// Read the arguments of a fuzz run.
pub fn parse_args(args: &Vec<Vec<u8>>) -> (r: Result<FuzzOpts, String>)
    ensures
        ({
            let p = options_of(cli::raw_views(args@));
            match r {
                Ok(o) => p == Ok::<OptsView, Seq<char>>(o@),
                Err(e) => p == Err::<OptsView, Seq<char>>(e@),
            }
        }),
{
    let ghost av = cli::raw_views(args@);
    let ghost goal = parsed(av, 0, no_options());
    let mut d = Draft {
        config: None,
        seeds: None,
        time_budget: None,
        jobs: None,
        out: None,
        no_shrink: false,
        regressions: None,
    };
    let mut i: usize = 0;
    while i < args.len()
        invariant
            i <= args@.len(),
            av == cli::raw_views(args@),
            goal == parsed(av, 0, no_options()),
            goal == parsed(av, i as int, d.shown()),
        decreases args@.len() - i,
    {
        assert(av[i as int] == args@[i as int]@);
        let f = read_flag(&args[i]);
        match f {
            Flag::NoShrink => {
                d.no_shrink = true;
                i = i + 1;
            },
            Flag::Help => {
                return Err(copy_text(FUZZ_USAGE));
            },
            Flag::Unknown => {
                return Err(unexpected(&args[i]));
            },
            _ => {
                if i + 1 >= args.len() {
                    return Err(said(f, " requires a value"));
                }
                assert(av[i as int + 1] == args@[i as int + 1]@);
                match read_arg(&args[i + 1]) {
                    None => {
                        return Err(said(f, " value is not UTF-8"));
                    },
                    Some(v) => match d.take(f, v.as_str()) {
                        Ok(_) => {},
                        Err(e) => {
                            return Err(e);
                        },
                    },
                }
                i = i + 2;
            },
        }
    }
    match d.config {
        Some(config) => Ok(
            FuzzOpts {
                config,
                seeds: d.seeds,
                time_budget: d.time_budget,
                jobs: d.jobs,
                out: d.out,
                no_shrink: d.no_shrink,
                regressions: d.regressions,
            },
        ),
        None => {
            let mut e = copy_text("--config is required\n\n");
            push_text(&mut e, FUZZ_USAGE);
            Err(e)
        },
    }
}

// ---------------------------------------------------------------------------
// What they change
// ---------------------------------------------------------------------------

/// A configuration with what the options override, and the seeds of the
/// regression file behind its own.
pub open spec fn overridden(c: ConfigView, o: OptsView, more: Seq<u64>) -> ConfigView {
    ConfigView {
        seed_start: match o.seeds {
            Some(s) => s.0,
            None => c.seed_start,
        },
        seed_count: match o.seeds {
            Some(s) => s.1,
            None => c.seed_count,
        },
        time_budget_secs: match o.time_budget {
            Some(t) => t,
            None => c.time_budget_secs,
        },
        jobs: match o.jobs {
            Some(j) => j,
            None => c.jobs,
        },
        out_dir: match o.out {
            Some(d) => d,
            None => c.out_dir,
        },
        shrink: c.shrink && !o.no_shrink,
        regression_seeds: c.regression_seeds + more,
        ..c
    }
}

/// Let the options override a configuration; `more` are the seeds of the
/// regression file.
pub fn override_config(cfg: &mut FuzzConfig, opts: &FuzzOpts, more: &Vec<u64>)
    ensures
        final(cfg)@ == overridden(old(cfg)@, opts@, more@),
{
    let ghost c = cfg@;
    if let Some((start, count)) = opts.seeds {
        cfg.seed_start = start;
        cfg.seed_count = count;
    }
    if let Some(t) = opts.time_budget {
        cfg.time_budget_secs = t;
    }
    if let Some(j) = opts.jobs {
        cfg.jobs = j;
    }
    if let Some(o) = &opts.out {
        cfg.out_dir = copy_text(o.as_str());
    }
    if opts.no_shrink {
        cfg.shrink = false;
    }
    let mut seeds: Vec<u64> = Vec::new();
    std::mem::swap(&mut seeds, &mut cfg.regression_seeds);
    let mut i: usize = 0;
    assert(seeds@ =~= c.regression_seeds + more@.take(0));
    while i < more.len()
        invariant
            i <= more@.len(),
            seeds@ == c.regression_seeds + more@.take(i as int),
        decreases more@.len() - i,
    {
        seeds.push(more[i]);
        i = i + 1;
        assert(seeds@ =~= c.regression_seeds + more@.take(i as int));
    }
    assert(more@.take(more@.len() as int) =~= more@);
    cfg.regression_seeds = seeds;
    assert(cfg@.invariants == c.invariants);
}

/// The seeds to keep for the next run: every one that failed now or before,
/// once each and in order.
#[must_use]
pub fn refreshed_seeds(report: &FuzzReport, cfg: &FuzzConfig) -> (r: Vec<u64>)
    ensures
        fuzz::increasing(r@),
        forall|seed: u64| #[trigger]
            r@.contains(seed) <==> fuzz::hit_by(
                report@.violations,
                report@.violations.len() as int,
                seed,
            ) || cfg@.regression_seeds.contains(seed),
{
    let mut r = report.regression_seeds();
    put_all(&mut r, &cfg.regression_seeds);
    r
}

/// The exit code: 0 where nothing failed, else 2.
#[must_use]
pub fn exit_code(report: &FuzzReport) -> (c: i32)
    ensures
        c == (if report@.violations.len() == 0 {
            0i32
        } else {
            2i32
        }),
{
    if report.violations.len() == 0 {
        0
    } else {
        2
    }
}

} // verus!
