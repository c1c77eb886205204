//! The description of a fuzz run. Everything has a default but the network
//! conditions: without faults a run finds nothing, so they must be stated.

use vstd::prelude::*;

use crate::bytes;
use crate::config;
use crate::text;
use crate::text::{copy_text, push_text, quoted, same_text};
use crate::workload;
use crate::workload::Workload;

verus! {

/// The workload of a fuzz run.
#[derive(Clone, Copy, PartialEq, Eq, Debug, Structural)]
pub struct WorkloadConfig {
    pub nodes: u32,
    pub sends: u32,
    pub payload_len: usize,
    pub workload_seed: u64,
}

pub open spec fn default_workload() -> WorkloadConfig {
    WorkloadConfig { nodes: 2, sends: 24, payload_len: 4, workload_seed: 0 }
}

impl Default for WorkloadConfig {
    fn default() -> (r: Self)
        ensures
            r == default_workload(),
    {
        WorkloadConfig { nodes: 2, sends: 24, payload_len: 4, workload_seed: 0 }
    }
}

pub open spec fn resolved(c: WorkloadConfig) -> Workload {
    Workload {
        nodes: c.nodes,
        sends: c.sends,
        payload_len: c.payload_len,
        workload_seed: c.workload_seed,
    }
}

impl WorkloadConfig {
    /// The workload that is described.
    #[must_use]
    pub fn resolve(&self) -> (w: Workload)
        ensures
            w == resolved(*self),
    {
        Workload {
            nodes: self.nodes,
            sends: self.sends,
            payload_len: self.payload_len,
            workload_seed: self.workload_seed,
        }
    }
}

/// The workload as a document states it, field by field.
#[derive(Clone, Copy, PartialEq, Eq, Debug, Structural)]
pub struct WorkloadFields {
    pub nodes: Option<u32>,
    pub sends: Option<u32>,
    pub payload_len: Option<usize>,
    pub workload_seed: Option<u64>,
}

pub open spec fn or_default<A>(a: Option<A>, d: A) -> A {
    match a {
        Some(x) => x,
        None => d,
    }
}

pub open spec fn filled_workload(f: WorkloadFields) -> WorkloadConfig {
    let d = default_workload();
    WorkloadConfig {
        nodes: or_default(f.nodes, d.nodes),
        sends: or_default(f.sends, d.sends),
        payload_len: or_default(f.payload_len, d.payload_len),
        workload_seed: or_default(f.workload_seed, d.workload_seed),
    }
}

impl WorkloadFields {
    /// The workload, with defaults for what is not stated.
    #[must_use]
    pub fn fill(&self) -> (w: WorkloadConfig)
        ensures
            w == filled_workload(*self),
    {
        let d = WorkloadConfig::default();
        WorkloadConfig {
            nodes: self.nodes.unwrap_or(d.nodes),
            sends: self.sends.unwrap_or(d.sends),
            payload_len: self.payload_len.unwrap_or(d.payload_len),
            workload_seed: self.workload_seed.unwrap_or(d.workload_seed),
        }
    }
}

/// The description of a fuzz run.
#[derive(Clone, PartialEq, Debug)]
pub struct FuzzConfig {
    /// A free comment.
    pub comment: Option<String>,
    /// The network conditions.
    pub net: String,
    /// The first fault seed to try.
    pub seed_start: u64,
    /// How many seeds to try from there on.
    pub seed_count: u64,
    /// How many workers run.
    pub jobs: usize,
    /// The time allowed, in seconds; 0 for no limit.
    pub time_budget_secs: u64,
    /// The rules to check, by name.
    pub invariants: Vec<String>,
    pub workload: WorkloadConfig,
    /// Where reproducers are put.
    pub out_dir: String,
    /// Whether the first occurrence of each failure is shrunk.
    pub shrink: bool,
    /// Seeds that failed before. They are tried first, so that a tight time
    /// limit cannot skip them.
    pub regression_seeds: Vec<u64>,
}

pub struct ConfigView {
    pub comment: Option<Seq<char>>,
    pub net: Seq<char>,
    pub seed_start: u64,
    pub seed_count: u64,
    pub jobs: usize,
    pub time_budget_secs: u64,
    pub invariants: Seq<Seq<char>>,
    pub workload: WorkloadConfig,
    pub out_dir: Seq<char>,
    pub shrink: bool,
    pub regression_seeds: Seq<u64>,
}

impl View for FuzzConfig {
    type V = ConfigView;

    open spec fn view(&self) -> ConfigView {
        ConfigView {
            comment: crate::broker::text_view(self.comment),
            net: self.net@,
            seed_start: self.seed_start,
            seed_count: self.seed_count,
            jobs: self.jobs,
            time_budget_secs: self.time_budget_secs,
            invariants: bytes::text_views(self.invariants@),
            workload: self.workload,
            out_dir: self.out_dir@,
            shrink: self.shrink,
            regression_seeds: self.regression_seeds@,
        }
    }
}

/// A fuzz run as a document states it, field by field.
#[derive(Clone, PartialEq, Debug)]
pub struct ConfigFields {
    pub comment: Option<String>,
    pub net: String,
    pub seed_start: Option<u64>,
    pub seed_count: Option<u64>,
    pub jobs: Option<usize>,
    pub time_budget_secs: Option<u64>,
    pub invariants: Option<Vec<String>>,
    pub workload: Option<WorkloadFields>,
    pub out_dir: Option<String>,
    pub shrink: Option<bool>,
    pub regression_seeds: Option<Vec<u64>>,
}

/// The run that the fields describe. `cores` is the number of workers where
/// none is stated.
pub open spec fn filled(f: ConfigFields, cores: usize) -> ConfigView {
    ConfigView {
        comment: crate::broker::text_view(f.comment),
        net: f.net@,
        seed_start: or_default(f.seed_start, 0),
        seed_count: or_default(f.seed_count, 1000),
        jobs: or_default(f.jobs, cores),
        time_budget_secs: or_default(f.time_budget_secs, 0),
        invariants: match f.invariants {
            Some(v) => bytes::text_views(v@),
            None => seq!["fifo"@, "dup"@],
        },
        workload: match f.workload {
            Some(w) => filled_workload(w),
            None => default_workload(),
        },
        out_dir: match f.out_dir {
            Some(d) => d@,
            None => "weft-fuzz-out"@,
        },
        shrink: or_default(f.shrink, true),
        regression_seeds: match f.regression_seeds {
            Some(s) => s@,
            None => Seq::empty(),
        },
    }
}

/// Whether a rule goes by this name.
pub open spec fn is_fifo(name: Seq<char>) -> bool {
    name == "fifo"@ || name == "per-channel-fifo"@
}

pub open spec fn is_dup(name: Seq<char>) -> bool {
    name == "dup"@ || name == "no-duplicate-delivery"@
}

pub open spec fn known(name: Seq<char>) -> bool {
    is_fifo(name) || is_dup(name)
}

/// The first name from the `i`-th on that no rule goes by, if there is one.
pub open spec fn first_unknown(names: Seq<Seq<char>>, i: int) -> Option<Seq<char>>
    decreases names.len() - i,
{
    if i < 0 || i >= names.len() {
        None
    } else if known(names[i]) {
        first_unknown(names, i + 1)
    } else {
        Some(names[i])
    }
}

/// What is wrong with a description, if anything. `readings` holds what the
/// loss values of its network conditions read as.
pub open spec fn config_error(c: ConfigView, readings: Seq<Option<u64>>) -> Option<Seq<char>> {
    match config::model_of(0, config::clauses_of(c.net), readings, readings.len() as int) {
        Err(e) => Some("config net: "@ + config::error_text(e)),
        Ok(_) => if c.seed_count == 0 {
            Some("config: seed_count must be at least 1"@)
        } else if c.jobs == 0 {
            Some("config: jobs must be at least 1"@)
        } else if c.invariants.len() == 0 {
            Some("config: at least one invariant is required (fifo, dup)"@)
        } else {
            match first_unknown(c.invariants, 0) {
                Some(name) => Some(
                    "config: unknown invariant "@ + text::debug_form(name)
                        + " (known: fifo, dup)"@,
                ),
                None => if c.workload.nodes < 2 {
                    Some("config: workload.nodes must be at least 2"@)
                } else {
                    None
                },
            }
        },
    }
}

/// Whether a rule goes by this name.
pub fn is_known(name: &str) -> (b: bool)
    ensures
        b == known(name@),
{
    is_fifo_name(name) || is_dup_name(name)
}

pub fn is_fifo_name(name: &str) -> (b: bool)
    ensures
        b == is_fifo(name@),
{
    same_text(name, "fifo") || same_text(name, "per-channel-fifo")
}

pub fn is_dup_name(name: &str) -> (b: bool)
    ensures
        b == is_dup(name@),
{
    same_text(name, "dup") || same_text(name, "no-duplicate-delivery")
}

fn default_rules() -> (r: Vec<String>)
    ensures
        bytes::text_views(r@) == seq!["fifo"@, "dup"@],
{
    let mut r: Vec<String> = Vec::new();
    r.push(copy_text("fifo"));
    r.push(copy_text("dup"));
    assert(bytes::text_views(r@) =~= seq!["fifo"@, "dup"@]);
    r
}

impl FuzzConfig {
    /// The run that the fields describe, with defaults for what is not stated.
    /// `cores` is the number of workers where none is stated.
    #[must_use]
    pub fn fill(f: ConfigFields, cores: usize) -> (c: Self)
        ensures
            c@ == filled(f, cores),
    {
        let workload = match &f.workload {
            Some(w) => w.fill(),
            None => WorkloadConfig::default(),
        };
        let out_dir = match f.out_dir {
            Some(d) => d,
            None => copy_text("weft-fuzz-out"),
        };
        let invariants = match f.invariants {
            Some(v) => v,
            None => default_rules(),
        };
        let regression_seeds: Vec<u64> = match f.regression_seeds {
            Some(s) => s,
            None => Vec::new(),
        };
        FuzzConfig {
            comment: f.comment,
            net: f.net,
            seed_start: f.seed_start.unwrap_or(0),
            seed_count: f.seed_count.unwrap_or(1000),
            jobs: f.jobs.unwrap_or(cores),
            time_budget_secs: f.time_budget_secs.unwrap_or(0),
            invariants,
            workload,
            out_dir,
            shrink: f.shrink.unwrap_or(true),
            regression_seeds,
        }
    }

    /// What makes a description unusable, named by its field.
    pub fn validate(&self, readings: &Vec<Option<u64>>) -> (r: Result<(), String>)
        requires
            readings@.len() == config::clauses_of(self@.net).len(),
        ensures
            match r {
                Ok(_) => config_error(self@, readings@) is None,
                Err(e) => config_error(self@, readings@) == Some(e@),
            },
    {
        if let Err(e) = config::parse(0, self.net.as_str(), readings) {
            let mut s = copy_text("config net: ");
            push_text(&mut s, e.text().as_str());
            return Err(s);
        }
        if self.seed_count == 0 {
            return Err(copy_text("config: seed_count must be at least 1"));
        }
        if self.jobs == 0 {
            return Err(copy_text("config: jobs must be at least 1"));
        }
        let names = &self.invariants;
        if names.len() == 0 {
            return Err(copy_text("config: at least one invariant is required (fifo, dup)"));
        }
        let ghost nv = bytes::text_views(names@);
        let mut i: usize = 0;
        while i < names.len()
            invariant
                i <= names@.len(),
                nv == bytes::text_views(names@),
                nv == self@.invariants,
                names@.len() > 0,
                self.seed_count != 0,
                self.jobs != 0,
                config::model_of(
                    0,
                    config::clauses_of(self@.net),
                    readings@,
                    readings@.len() as int,
                ) is Ok,
                first_unknown(nv, 0) == first_unknown(nv, i as int),
            decreases names@.len() - i,
        {
            assert(nv[i as int] == names@[i as int]@);
            if !is_known(names[i].as_str()) {
                let mut s = copy_text("config: unknown invariant ");
                push_text(&mut s, quoted(names[i].as_str()).as_str());
                push_text(&mut s, " (known: fifo, dup)");
                return Err(s);
            }
            i = i + 1;
        }
        if self.workload.nodes < 2 {
            return Err(copy_text("config: workload.nodes must be at least 2"));
        }
        Ok(())
    }
}

/// A description that is accepted names known rules only.
pub proof fn law_accepted_names_are_known(c: ConfigView, readings: Seq<Option<u64>>, i: int)
    requires
        config_error(c, readings) is None,
        0 <= i < c.invariants.len(),
    ensures
        known(c.invariants[i]),
        c.workload.nodes >= 2,
        workload::node_count(resolved(c.workload)) == c.workload.nodes,
{
    lemma_known(c.invariants, 0, i);
}

proof fn lemma_known(names: Seq<Seq<char>>, from: int, i: int)
    requires
        first_unknown(names, from) is None,
        0 <= from <= i < names.len(),
    ensures
        known(names[i]),
    decreases i - from,
{
    if from < i {
        lemma_known(names, from + 1, i);
    }
}

} // verus!
