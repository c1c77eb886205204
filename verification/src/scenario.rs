//! Scenarios of a fault-injection test: the nodes, the faults of the network
//! and of each file system, and the events to come. A scenario is checked
//! strictly, and what is wrong with it is said clearly.

use vstd::prelude::*;

use crate::fault;
use crate::fault::Loss;
use crate::text;
use crate::text::{
    chars_of, copy_text, push_dec, push_text, read_uint, split_chars, split_once_chars, string_of,
    sub_chars, trim_chars,
};

verus! {

// ---------------------------------------------------------------------------
// Errors
// ---------------------------------------------------------------------------

/// What is wrong with a scenario.
#[derive(Debug, PartialEq, Eq)]
pub enum ScenarioError {
    /// The text is malformed.
    ParseError(String),
    /// A node identifier is wrong, and why.
    InvalidNodeId(usize, String),
    /// A latency text is wrong, and why.
    InvalidLatency(String, String),
    /// A number is no probability; it is held by its bits.
    InvalidLossProbability(u64),
    InvalidBandwidth(u64),
    /// A partition text is wrong, and why.
    InvalidPartition(String, String),
    MissingField(String),
    InvalidScenario(String),
}

pub enum ErrorView {
    ParseError(Seq<char>),
    InvalidNodeId(usize, Seq<char>),
    InvalidLatency(Seq<char>, Seq<char>),
    InvalidLossProbability(u64),
    InvalidBandwidth(u64),
    InvalidPartition(Seq<char>, Seq<char>),
    MissingField(Seq<char>),
    InvalidScenario(Seq<char>),
}

impl View for ScenarioError {
    type V = ErrorView;

    open spec fn view(&self) -> ErrorView {
        match *self {
            ScenarioError::ParseError(a) => ErrorView::ParseError(a@),
            ScenarioError::InvalidNodeId(n, a) => ErrorView::InvalidNodeId(n, a@),
            ScenarioError::InvalidLatency(a, b) => ErrorView::InvalidLatency(a@, b@),
            ScenarioError::InvalidLossProbability(n) => ErrorView::InvalidLossProbability(n),
            ScenarioError::InvalidBandwidth(n) => ErrorView::InvalidBandwidth(n),
            ScenarioError::InvalidPartition(a, b) => ErrorView::InvalidPartition(a@, b@),
            ScenarioError::MissingField(a) => ErrorView::MissingField(a@),
            ScenarioError::InvalidScenario(a) => ErrorView::InvalidScenario(a@),
        }
    }
}

/// The message for a reader; `number` is how the number of a wrong
/// probability is written.
pub open spec fn error_text(e: ErrorView, number: Seq<char>) -> Seq<char> {
    match e {
        ErrorView::ParseError(a) => "JSON/YAML parse error: "@ + a,
        ErrorView::InvalidNodeId(n, a) => "Invalid node ID "@ + text::dec(n as nat) + ": "@ + a,
        ErrorView::InvalidLatency(a, b) => "Invalid latency spec '"@ + a + "': "@ + b,
        ErrorView::InvalidLossProbability(_) => "Invalid loss probability "@ + number
            + ": must be in [0.0, 1.0]"@,
        ErrorView::InvalidBandwidth(n) => "Invalid bandwidth "@ + text::dec(n as nat)
            + ": must be > 0"@,
        ErrorView::InvalidPartition(a, b) => "Invalid partition spec '"@ + a + "': "@ + b,
        ErrorView::MissingField(a) => "Missing required field: "@ + a,
        ErrorView::InvalidScenario(a) => "Invalid scenario: "@ + a,
    }
}

fn joined(a: &str, b: &str, c: &str) -> (s: String)
    ensures
        s@ == a@ + b@ + c@,
{
    let mut s = copy_text(a);
    push_text(&mut s, b);
    push_text(&mut s, c);
    s
}

impl ScenarioError {
    /// The message for a reader; `number` is how the number of a wrong
    /// probability is written.
    #[must_use]
    pub fn text(&self, number: &str) -> (s: String)
        ensures
            s@ == error_text(self@, number@),
    {
        match self {
            ScenarioError::ParseError(a) => {
                let mut s = copy_text("JSON/YAML parse error: ");
                push_text(&mut s, a.as_str());
                s
            },
            ScenarioError::InvalidNodeId(n, a) => {
                let mut s = copy_text("Invalid node ID ");
                push_dec(&mut s, *n as u64);
                push_text(&mut s, ": ");
                push_text(&mut s, a.as_str());
                s
            },
            ScenarioError::InvalidLatency(a, b) => {
                let mut s = joined("Invalid latency spec '", a.as_str(), "': ");
                push_text(&mut s, b.as_str());
                s
            },
            ScenarioError::InvalidLossProbability(_) => joined(
                "Invalid loss probability ",
                number,
                ": must be in [0.0, 1.0]",
            ),
            ScenarioError::InvalidBandwidth(n) => {
                let mut s = copy_text("Invalid bandwidth ");
                push_dec(&mut s, *n);
                push_text(&mut s, ": must be > 0");
                s
            },
            ScenarioError::InvalidPartition(a, b) => {
                let mut s = joined("Invalid partition spec '", a.as_str(), "': ");
                push_text(&mut s, b.as_str());
                s
            },
            ScenarioError::MissingField(a) => {
                let mut s = copy_text("Missing required field: ");
                push_text(&mut s, a.as_str());
                s
            },
            ScenarioError::InvalidScenario(a) => {
                let mut s = copy_text("Invalid scenario: ");
                push_text(&mut s, a.as_str());
                s
            },
        }
    }
}

// ---------------------------------------------------------------------------
// Latency
// ---------------------------------------------------------------------------

/// What the standard library says of a text that is no 64-bit number.
pub uninterp spec fn int_error(s: Seq<char>) -> Seq<char>;

/// `str::parse` for `u64`: it fails exactly where the text is not an optional
/// plus sign and digits of a number that fits; the message of the error depends
/// on the text alone, and is not stated.
#[verifier::external_body]
fn u64_error(s: &str) -> (r: Option<String>)
    ensures
        r is None == text::parse_uint(s@, 10, u64::MAX as int) is Some,
        r is Some ==> r->Some_0@ == int_error(s@),
{
    match s.parse::<u64>() {
        Ok(_) => None,
        Err(e) => Some(e.to_string()),
    }
}

/// How long messages take.
#[allow(inconsistent_fields)]
#[derive(Debug, Clone, Copy, PartialEq, Eq, Structural)]
pub enum LatencyDistribution {
    Fixed { ns: u64 },
    Uniform { lo_ns: u64, hi_ns: u64 },
    Exponential { mean_ns: u64 },
}

pub open spec fn starts(s: Seq<char>, p: Seq<char>) -> bool {
    s.len() >= p.len() && s.take(p.len() as int) == p
}

/// The number that a text writes, or what is wrong with it.
pub open spec fn number_of(s: Seq<char>) -> Result<u64, Seq<char>> {
    match text::parse_uint(s, 10, u64::MAX as int) {
        Some(n) => Ok(n as u64),
        None => Err(int_error(s)),
    }
}

pub open spec fn uniform_of(rest: Seq<char>) -> Result<LatencyDistribution, Seq<char>> {
    match text::split_once(rest, '-') {
        None => Err("uniform format is 'uniform:LO-HI' (e.g., 'uniform:100-5000')"@),
        Some(p) => match number_of(p.0) {
            Err(e) => Err("lo: "@ + e),
            Ok(lo_ns) => match number_of(p.1) {
                Err(e) => Err("hi: "@ + e),
                Ok(hi_ns) => if lo_ns > hi_ns {
                    Err(
                        "lo ("@ + text::dec(lo_ns as nat) + ") must be <= hi ("@ + text::dec(
                            hi_ns as nat,
                        ) + ")"@,
                    )
                } else {
                    Ok(LatencyDistribution::Uniform { lo_ns, hi_ns })
                },
            },
        },
    }
}

/// The latency that a trimmed text writes, or what is wrong with it.
pub open spec fn latency_of(t: Seq<char>) -> Result<LatencyDistribution, Seq<char>> {
    if starts(t, "fixed:"@) {
        match number_of(t.skip("fixed:"@.len() as int)) {
            Ok(ns) => Ok(LatencyDistribution::Fixed { ns }),
            Err(e) => Err(e),
        }
    } else if starts(t, "uniform:"@) {
        uniform_of(t.skip("uniform:"@.len() as int))
    } else if starts(t, "exp:"@) {
        match number_of(t.skip("exp:"@.len() as int)) {
            Ok(mean_ns) => if mean_ns == 0 {
                Err("mean must be > 0"@)
            } else {
                Ok(LatencyDistribution::Exponential { mean_ns })
            },
            Err(e) => Err(e),
        }
    } else {
        Err("must be 'fixed:N', 'uniform:LO-HI', or 'exp:MEAN'"@)
    }
}

/// What stands behind `p`, if the text starts with it.
fn behind(v: &Vec<char>, p: &str) -> (r: Option<Vec<char>>)
    ensures
        match r {
            Some(w) => starts(v@, p@) && w@ == v@.skip(p@.len() as int),
            None => !starts(v@, p@),
        },
{
    let c = chars_of(p);
    if v.len() < c.len() {
        return None;
    }
    let mut i: usize = 0;
    while i < c.len()
        invariant
            c@ == p@,
            i <= c@.len() <= v@.len(),
            forall|j: int| 0 <= j < i ==> v@[j] == c@[j],
        decreases c@.len() - i,
    {
        if v[i] != c[i] {
            assert(v@.take(c@.len() as int)[i as int] != c@[i as int]);
            return None;
        }
        i = i + 1;
    }
    assert(v@.take(c@.len() as int) =~= c@);
    let w = sub_chars(v, c.len(), v.len());
    assert(w@ =~= v@.skip(c@.len() as int));
    Some(w)
}

fn read_number(v: &Vec<char>) -> (r: Result<u64, String>)
    ensures
        match r {
            Ok(n) => number_of(v@) == Ok::<u64, Seq<char>>(n),
            Err(e) => number_of(v@) == Err::<u64, Seq<char>>(e@),
        },
{
    match read_uint(v, 10, u64::MAX) {
        Some(n) => Ok(n),
        None => {
            let s = string_of(v);
            match u64_error(s.as_str()) {
                Some(e) => Err(e),
                None => Err(String::new()),
            }
        },
    }
}

fn read_uniform(rest: &Vec<char>) -> (r: Result<LatencyDistribution, String>)
    ensures
        match r {
            Ok(l) => uniform_of(rest@) == Ok::<LatencyDistribution, Seq<char>>(l),
            Err(e) => uniform_of(rest@) == Err::<LatencyDistribution, Seq<char>>(e@),
        },
{
    match split_once_chars(rest, '-') {
        None => Err(
            copy_text("uniform format is 'uniform:LO-HI' (e.g., 'uniform:100-5000')"),
        ),
        Some((a, b)) => {
            let lo_ns: u64 = match read_number(&a) {
                Ok(n) => n,
                Err(e) => {
                    let mut s = copy_text("lo: ");
                    push_text(&mut s, e.as_str());
                    return Err(s);
                },
            };
            let hi_ns: u64 = match read_number(&b) {
                Ok(n) => n,
                Err(e) => {
                    let mut s = copy_text("hi: ");
                    push_text(&mut s, e.as_str());
                    return Err(s);
                },
            };
            if lo_ns > hi_ns {
                let mut s = copy_text("lo (");
                push_dec(&mut s, lo_ns);
                push_text(&mut s, ") must be <= hi (");
                push_dec(&mut s, hi_ns);
                push_text(&mut s, ")");
                return Err(s);
            }
            Ok(LatencyDistribution::Uniform { lo_ns, hi_ns })
        },
    }
}

fn read_latency(t: &Vec<char>) -> (r: Result<LatencyDistribution, String>)
    ensures
        match r {
            Ok(l) => latency_of(t@) == Ok::<LatencyDistribution, Seq<char>>(l),
            Err(e) => latency_of(t@) == Err::<LatencyDistribution, Seq<char>>(e@),
        },
{
    if let Some(rest) = behind(t, "fixed:") {
        return match read_number(&rest) {
            Ok(ns) => Ok(LatencyDistribution::Fixed { ns }),
            Err(e) => Err(e),
        };
    }
    if let Some(rest) = behind(t, "uniform:") {
        return read_uniform(&rest);
    }
    if let Some(rest) = behind(t, "exp:") {
        return match read_number(&rest) {
            Ok(mean_ns) => if mean_ns == 0 {
                Err(copy_text("mean must be > 0"))
            } else {
                Ok(LatencyDistribution::Exponential { mean_ns })
            },
            Err(e) => Err(e),
        };
    }
    Err(copy_text("must be 'fixed:N', 'uniform:LO-HI', or 'exp:MEAN'"))
}

/// The latency that a text writes, or the error.
pub open spec fn parsed_latency(spec: Seq<char>) -> Result<LatencyDistribution, ErrorView> {
    match latency_of(text::trim(spec)) {
        Ok(l) => Ok(l),
        Err(why) => Err(ErrorView::InvalidLatency(text::trim(spec), why)),
    }
}

impl LatencyDistribution {
    /// Read `fixed:N`, `uniform:LO-HI` or `exp:MEAN`.
    pub fn parse(spec: &str) -> (r: Result<Self, ScenarioError>)
        ensures
            match r {
                Ok(l) => parsed_latency(spec@) == Ok::<LatencyDistribution, ErrorView>(l),
                Err(e) => parsed_latency(spec@) == Err::<LatencyDistribution, ErrorView>(e@),
            },
    {
        let t = trim_chars(&chars_of(spec));
        match read_latency(&t) {
            Ok(l) => Ok(l),
            Err(why) => Err(ScenarioError::InvalidLatency(string_of(&t), why)),
        }
    }
}

// ---------------------------------------------------------------------------
// Partitions
// ---------------------------------------------------------------------------

/// What is wrong with the first `n` node identifiers of a group.
pub open spec fn group_fault(ids: Seq<Seq<char>>, n: int) -> Option<Seq<char>>
    decreases n,
{
    if n <= 0 {
        None
    } else {
        match group_fault(ids, n - 1) {
            Some(e) => Some(e),
            None => if ids[n - 1].len() == 0 {
                Some("empty node ID in group"@)
            } else if text::parse_uint(ids[n - 1], 10, usize::MAX as int) is None {
                Some("'"@ + ids[n - 1] + "' is not a valid node ID"@)
            } else {
                None
            },
        }
    }
}

/// What is wrong with the first `n` groups of a partition.
pub open spec fn groups_fault(groups: Seq<Seq<char>>, n: int) -> Option<Seq<char>>
    decreases n,
{
    if n <= 0 {
        None
    } else {
        match groups_fault(groups, n - 1) {
            Some(e) => Some(e),
            None => if groups[n - 1].len() == 0 {
                Some("empty group (consecutive '|' or leading '|')"@)
            } else {
                let ids = text::split(groups[n - 1], '+');
                group_fault(ids, ids.len() as int)
            },
        }
    }
}

/// What is wrong with a partition text. The empty text lifts all partitions.
pub open spec fn partition_fault(spec: Seq<char>) -> Option<ErrorView> {
    let t = text::trim(spec);
    if t.len() == 0 {
        None
    } else {
        let groups = text::split(t, '|');
        match groups_fault(groups, groups.len() as int) {
            Some(why) => Some(ErrorView::InvalidPartition(t, why)),
            None => None,
        }
    }
}

fn check_group(v: &Vec<char>) -> (r: Option<String>)
    ensures
        ({
            let ids = text::split(v@, '+');
            match r {
                Some(e) => group_fault(ids, ids.len() as int) == Some(e@),
                None => group_fault(ids, ids.len() as int) is None,
            }
        }),
{
    let ids = split_chars(v, '+');
    let ghost iv = text::split(v@, '+');
    let mut i: usize = 0;
    while i < ids.len()
        invariant
            i <= ids@.len(),
            iv == text::split(v@, '+'),
            text::views(ids@) == iv,
            group_fault(iv, i as int) is None,
        decreases ids@.len() - i,
    {
        assert(iv[i as int] == ids@[i as int]@);
        proof {
            lemma_group_fault(iv, i as int + 1, iv.len() as int);
        }
        if ids[i].len() == 0 {
            return Some(copy_text("empty node ID in group"));
        }
        if read_uint(&ids[i], 10, usize::MAX as u64).is_none() {
            let mut s = copy_text("'");
            push_text(&mut s, string_of(&ids[i]).as_str());
            push_text(&mut s, "' is not a valid node ID");
            return Some(s);
        }
        i = i + 1;
    }
    None
}

proof fn lemma_group_fault(ids: Seq<Seq<char>>, n: int, m: int)
    requires
        0 <= n <= m,
    ensures
        group_fault(ids, n) is Some ==> group_fault(ids, m) == group_fault(ids, n),
    decreases m - n,
{
    if n < m {
        lemma_group_fault(ids, n, m - 1);
    }
}

proof fn lemma_groups_fault(groups: Seq<Seq<char>>, n: int, m: int)
    requires
        0 <= n <= m,
    ensures
        groups_fault(groups, n) is Some ==> groups_fault(groups, m) == groups_fault(groups, n),
    decreases m - n,
{
    if n < m {
        lemma_groups_fault(groups, n, m - 1);
    }
}

fn check_groups(t: &Vec<char>) -> (r: Option<String>)
    ensures
        ({
            let groups = text::split(t@, '|');
            match r {
                Some(e) => groups_fault(groups, groups.len() as int) == Some(e@),
                None => groups_fault(groups, groups.len() as int) is None,
            }
        }),
{
    let groups = split_chars(t, '|');
    let ghost gv = text::split(t@, '|');
    let mut i: usize = 0;
    while i < groups.len()
        invariant
            i <= groups@.len(),
            gv == text::split(t@, '|'),
            text::views(groups@) == gv,
            groups_fault(gv, i as int) is None,
        decreases groups@.len() - i,
    {
        assert(gv[i as int] == groups@[i as int]@);
        proof {
            lemma_groups_fault(gv, i as int + 1, gv.len() as int);
        }
        if groups[i].len() == 0 {
            return Some(copy_text("empty group (consecutive '|' or leading '|')"));
        }
        if let Some(e) = check_group(&groups[i]) {
            return Some(e);
        }
        i = i + 1;
    }
    None
}

/// Check a partition text such as `0+1|2`.
pub fn validate_partition_spec(spec: &str) -> (r: Result<(), ScenarioError>)
    ensures
        match r {
            Ok(_) => partition_fault(spec@) is None,
            Err(e) => partition_fault(spec@) == Some(e@),
        },
{
    let t = trim_chars(&chars_of(spec));
    if t.len() == 0 {
        return Ok(());
    }
    match check_groups(&t) {
        Some(why) => Err(ScenarioError::InvalidPartition(string_of(&t), why)),
        None => Ok(()),
    }
}

// ---------------------------------------------------------------------------
// Scenarios
// ---------------------------------------------------------------------------

/// A scenario.
#[derive(Debug)]
pub struct Scenario {
    pub name: String,
    pub description: Option<String>,
    /// The seed for fault injection.
    pub seed: u64,
    pub nodes: Vec<Node>,
    pub network: Option<NetworkFaults>,
    /// The faults of the file system of each node named.
    pub filesystem: Option<Vec<(usize, FileSystemFaults)>>,
    /// How far the clock of each node named is off.
    pub time_skew: Option<Vec<(usize, i64)>>,
    pub events: Vec<ScheduledEvent>,
}

/// A process.
#[derive(Debug)]
pub struct Node {
    pub node_id: usize,
    pub program: String,
    pub args: Vec<String>,
}

/// Faults of the network.
#[derive(Debug)]
pub struct NetworkFaults {
    /// A latency text.
    pub latency: Option<String>,
    /// A loss probability, by its bits.
    pub loss: Option<u64>,
    /// Bytes per second.
    pub bandwidth: Option<u64>,
    /// A partition text.
    pub partitions: Option<String>,
}

/// Faults of a file system.
#[derive(Debug, Clone, Copy, PartialEq, Eq, Structural)]
pub struct FileSystemFaults {
    /// A sync says that it is done and is not.
    pub fsync_lies: bool,
    /// How many bytes there is space for.
    pub enospc_after_bytes: Option<u64>,
    /// With which probability a write is torn, by its bits.
    pub torn_write_probability: Option<u64>,
}

/// An event, and when.
#[derive(Debug)]
pub struct ScheduledEvent {
    pub time_ns: u64,
    pub action: EventAction,
}

#[allow(inconsistent_fields)]
#[derive(Debug)]
pub enum EventAction {
    Crash { node_id: usize },
    Start { node_id: usize },
    ActivatePartition { spec: String },
    ClearPartition,
}

#[allow(inconsistent_fields)]
pub enum ActionView {
    Crash { node_id: usize },
    Start { node_id: usize },
    ActivatePartition { spec: Seq<char> },
    ClearPartition,
}

pub struct EventView {
    pub time_ns: u64,
    pub action: ActionView,
}

pub struct NetworkView {
    pub latency: Option<Seq<char>>,
    pub loss: Option<u64>,
    pub bandwidth: Option<u64>,
    pub partitions: Option<Seq<char>>,
}

/// What matters of a scenario: who takes part, and what goes wrong.
pub struct ScenarioView {
    pub seed: u64,
    /// The identifiers of the nodes.
    pub ids: Seq<usize>,
    pub network: Option<NetworkView>,
    pub filesystem: Option<Seq<(usize, FileSystemFaults)>>,
    pub time_skew: Option<Seq<(usize, i64)>>,
    pub events: Seq<EventView>,
}

impl View for EventAction {
    type V = ActionView;

    open spec fn view(&self) -> ActionView {
        match *self {
            EventAction::Crash { node_id } => ActionView::Crash { node_id },
            EventAction::Start { node_id } => ActionView::Start { node_id },
            EventAction::ActivatePartition { spec } => ActionView::ActivatePartition {
                spec: spec@,
            },
            EventAction::ClearPartition => ActionView::ClearPartition,
        }
    }
}

impl View for ScheduledEvent {
    type V = EventView;

    open spec fn view(&self) -> EventView {
        EventView { time_ns: self.time_ns, action: self.action@ }
    }
}

pub open spec fn event_views(v: Seq<ScheduledEvent>) -> Seq<EventView> {
    v.map_values(|e: ScheduledEvent| e@)
}

pub open spec fn text_view(s: Option<String>) -> Option<Seq<char>> {
    match s {
        Some(t) => Some(t@),
        None => None,
    }
}

impl View for NetworkFaults {
    type V = NetworkView;

    open spec fn view(&self) -> NetworkView {
        NetworkView {
            latency: text_view(self.latency),
            loss: self.loss,
            bandwidth: self.bandwidth,
            partitions: text_view(self.partitions),
        }
    }
}

pub open spec fn ids_of(v: Seq<Node>) -> Seq<usize> {
    v.map_values(|n: Node| n.node_id)
}

impl View for Scenario {
    type V = ScenarioView;

    open spec fn view(&self) -> ScenarioView {
        ScenarioView {
            seed: self.seed,
            ids: ids_of(self.nodes@),
            network: match self.network {
                Some(n) => Some(n@),
                None => None,
            },
            filesystem: match self.filesystem {
                Some(v) => Some(v@),
                None => None,
            },
            time_skew: match self.time_skew {
                Some(v) => Some(v@),
                None => None,
            },
            events: event_views(self.events@),
        }
    }
}

// ---------------------------------------------------------------------------
// What is wrong
// ---------------------------------------------------------------------------

pub open spec fn probability_fault(p: Option<u64>) -> Option<ErrorView> {
    match p {
        Some(bits) => if fault::is_probability(bits) {
            None
        } else {
            Some(ErrorView::InvalidLossProbability(bits))
        },
        None => None,
    }
}

/// What is wrong with the faults of the network.
pub open spec fn network_fault(n: NetworkView) -> Option<ErrorView> {
    let latency = match n.latency {
        Some(t) => match parsed_latency(t) {
            Ok(_) => None,
            Err(e) => Some(e),
        },
        None => None,
    };
    if latency is Some {
        latency
    } else if probability_fault(n.loss) is Some {
        probability_fault(n.loss)
    } else if n.bandwidth == Some(0u64) {
        Some(ErrorView::InvalidBandwidth(0))
    } else {
        match n.partitions {
            Some(p) => partition_fault(p),
            None => None,
        }
    }
}

/// What is wrong with the faults of the first `n` file systems.
pub open spec fn torn_fault(v: Seq<(usize, FileSystemFaults)>, n: int) -> Option<ErrorView>
    decreases n,
{
    if n <= 0 {
        None
    } else {
        match torn_fault(v, n - 1) {
            Some(e) => Some(e),
            None => probability_fault(v[n - 1].1.torn_write_probability),
        }
    }
}

/// What is wrong with the numbering of the first `n` nodes.
pub open spec fn numbering_fault(ids: Seq<usize>, n: int) -> Option<ErrorView>
    decreases n,
{
    if n <= 0 {
        None
    } else {
        match numbering_fault(ids, n - 1) {
            Some(e) => Some(e),
            None => if ids[n - 1] != n - 1 {
                Some(
                    ErrorView::InvalidNodeId(
                        ids[n - 1],
                        "nodes must be sequentially numbered; expected "@ + text::dec(
                            (n - 1) as nat,
                        ) + ", got "@ + text::dec(ids[n - 1] as nat),
                    ),
                )
            } else {
                None
            },
        }
    }
}

/// What is said of a node that is not there.
pub open spec fn stranger(what: Seq<char>, id: usize, nodes: nat) -> ErrorView {
    ErrorView::InvalidNodeId(
        id,
        what + text::dec(id as nat) + ", but only "@ + text::dec(nodes) + " nodes exist"@,
    )
}

/// The node that an event is about, if it is about one.
pub open spec fn node_of(a: ActionView) -> Option<usize> {
    match a {
        ActionView::Crash { node_id } => Some(node_id),
        ActionView::Start { node_id } => Some(node_id),
        _ => None,
    }
}

/// What is wrong with the nodes of the first `n` events.
pub open spec fn events_fault(events: Seq<EventView>, nodes: nat, n: int) -> Option<ErrorView>
    decreases n,
{
    if n <= 0 {
        None
    } else {
        match events_fault(events, nodes, n - 1) {
            Some(e) => Some(e),
            None => match node_of(events[n - 1].action) {
                Some(id) => if id >= nodes {
                    Some(stranger("event references node "@, id, nodes))
                } else {
                    None
                },
                None => None,
            },
        }
    }
}

/// The first `n` of the nodes that are named, of which one may not be there.
pub open spec fn names_fault(what: Seq<char>, ids: Seq<usize>, nodes: nat, n: int) -> Option<
    ErrorView,
>
    decreases n,
{
    if n <= 0 {
        None
    } else {
        match names_fault(what, ids, nodes, n - 1) {
            Some(e) => Some(e),
            None => if ids[n - 1] >= nodes {
                Some(stranger(what, ids[n - 1], nodes))
            } else {
                None
            },
        }
    }
}

pub open spec fn keys_of<V>(v: Seq<(usize, V)>) -> Seq<usize> {
    v.map_values(|p: (usize, V)| p.0)
}

pub open spec fn filesystem_fault(s: ScenarioView) -> Option<ErrorView> {
    match s.filesystem {
        Some(v) => names_fault(
            "filesystem faults for node "@,
            keys_of(v),
            s.ids.len(),
            v.len() as int,
        ),
        None => None,
    }
}

pub open spec fn skew_fault(s: ScenarioView) -> Option<ErrorView> {
    match s.time_skew {
        Some(v) => names_fault("time skew for node "@, keys_of(v), s.ids.len(), v.len() as int),
        None => None,
    }
}

/// What is wrong with a scenario: its numbering, its events, what it says of
/// nodes that are not there, and the faults of its network.
pub open spec fn scenario_fault(s: ScenarioView) -> Option<ErrorView> {
    let numbering = numbering_fault(s.ids, s.ids.len() as int);
    let events = events_fault(s.events, s.ids.len(), s.events.len() as int);
    if numbering is Some {
        numbering
    } else if events is Some {
        events
    } else if filesystem_fault(s) is Some {
        filesystem_fault(s)
    } else if skew_fault(s) is Some {
        skew_fault(s)
    } else {
        match s.network {
            Some(n) => network_fault(n),
            None => None,
        }
    }
}

// ---------------------------------------------------------------------------
// Finding it
// ---------------------------------------------------------------------------

fn check_probability(p: Option<u64>) -> (r: Option<ScenarioError>)
    ensures
        match r {
            Some(e) => probability_fault(p) == Some(e@),
            None => probability_fault(p) is None,
        },
{
    match p {
        Some(bits) => match Loss::from_bits(bits) {
            Some(_) => None,
            None => Some(ScenarioError::InvalidLossProbability(bits)),
        },
        None => None,
    }
}

fn validate_network_faults(n: &NetworkFaults) -> (r: Option<ScenarioError>)
    ensures
        match r {
            Some(e) => network_fault(n@) == Some(e@),
            None => network_fault(n@) is None,
        },
{
    if let Some(t) = &n.latency {
        match LatencyDistribution::parse(t.as_str()) {
            Ok(_) => {},
            Err(e) => {
                return Some(e);
            },
        }
    }
    if let Some(e) = check_probability(n.loss) {
        return Some(e);
    }
    if let Some(bw) = n.bandwidth {
        if bw == 0 {
            return Some(ScenarioError::InvalidBandwidth(bw));
        }
    }
    if let Some(p) = &n.partitions {
        match validate_partition_spec(p.as_str()) {
            Ok(_) => {},
            Err(e) => {
                return Some(e);
            },
        }
    }
    None
}

proof fn lemma_torn_fault(v: Seq<(usize, FileSystemFaults)>, n: int, m: int)
    requires
        0 <= n <= m,
    ensures
        torn_fault(v, n) is Some ==> torn_fault(v, m) == torn_fault(v, n),
    decreases m - n,
{
    if n < m {
        lemma_torn_fault(v, n, m - 1);
    }
}

fn validate_filesystem_faults(v: &Vec<(usize, FileSystemFaults)>) -> (r: Option<ScenarioError>)
    ensures
        match r {
            Some(e) => torn_fault(v@, v@.len() as int) == Some(e@),
            None => torn_fault(v@, v@.len() as int) is None,
        },
{
    let mut i: usize = 0;
    while i < v.len()
        invariant
            i <= v@.len(),
            torn_fault(v@, i as int) is None,
        decreases v@.len() - i,
    {
        proof {
            lemma_torn_fault(v@, i as int + 1, v@.len() as int);
        }
        if let Some(e) = check_probability(v[i].1.torn_write_probability) {
            return Some(e);
        }
        i = i + 1;
    }
    None
}

fn no_such_node(what: &str, id: usize, nodes: usize) -> (e: ScenarioError)
    ensures
        e@ == stranger(what@, id, nodes as nat),
{
    let mut s = copy_text(what);
    push_dec(&mut s, id as u64);
    push_text(&mut s, ", but only ");
    push_dec(&mut s, nodes as u64);
    push_text(&mut s, " nodes exist");
    ScenarioError::InvalidNodeId(id, s)
}

proof fn lemma_numbering_fault(ids: Seq<usize>, n: int, m: int)
    requires
        0 <= n <= m,
    ensures
        numbering_fault(ids, n) is Some ==> numbering_fault(ids, m) == numbering_fault(ids, n),
    decreases m - n,
{
    if n < m {
        lemma_numbering_fault(ids, n, m - 1);
    }
}

proof fn lemma_events_fault(events: Seq<EventView>, nodes: nat, n: int, m: int)
    requires
        0 <= n <= m,
    ensures
        events_fault(events, nodes, n) is Some ==> events_fault(events, nodes, m) == events_fault(
            events,
            nodes,
            n,
        ),
    decreases m - n,
{
    if n < m {
        lemma_events_fault(events, nodes, n, m - 1);
    }
}

proof fn lemma_names_fault(what: Seq<char>, ids: Seq<usize>, nodes: nat, n: int, m: int)
    requires
        0 <= n <= m,
    ensures
        names_fault(what, ids, nodes, n) is Some ==> names_fault(what, ids, nodes, m)
            == names_fault(what, ids, nodes, n),
    decreases m - n,
{
    if n < m {
        lemma_names_fault(what, ids, nodes, n, m - 1);
    }
}

fn check_names<V>(what: &str, v: &Vec<(usize, V)>, nodes: usize) -> (r: Option<ScenarioError>)
    ensures
        match r {
            Some(e) => names_fault(what@, keys_of(v@), nodes as nat, v@.len() as int) == Some(e@),
            None => names_fault(what@, keys_of(v@), nodes as nat, v@.len() as int) is None,
        },
{
    let ghost ids = keys_of(v@);
    let mut i: usize = 0;
    while i < v.len()
        invariant
            i <= v@.len(),
            ids == keys_of(v@),
            names_fault(what@, ids, nodes as nat, i as int) is None,
        decreases v@.len() - i,
    {
        assert(ids[i as int] == v@[i as int].0);
        proof {
            lemma_names_fault(what@, ids, nodes as nat, i as int + 1, v@.len() as int);
        }
        let id: usize = v[i].0;
        if id >= nodes {
            return Some(no_such_node(what, id, nodes));
        }
        i = i + 1;
    }
    None
}

impl Scenario {
    fn check_numbering(&self) -> (r: Option<ScenarioError>)
        ensures
            match r {
                Some(e) => numbering_fault(self@.ids, self@.ids.len() as int) == Some(e@),
                None => numbering_fault(self@.ids, self@.ids.len() as int) is None,
            },
    {
        let ghost ids = self@.ids;
        let mut i: usize = 0;
        while i < self.nodes.len()
            invariant
                i <= self.nodes@.len(),
                ids == ids_of(self.nodes@),
                numbering_fault(ids, i as int) is None,
            decreases self.nodes@.len() - i,
        {
            assert(ids[i as int] == self.nodes@[i as int].node_id);
            proof {
                lemma_numbering_fault(ids, i as int + 1, ids.len() as int);
            }
            let id: usize = self.nodes[i].node_id;
            if id != i {
                let mut s = copy_text("nodes must be sequentially numbered; expected ");
                push_dec(&mut s, i as u64);
                push_text(&mut s, ", got ");
                push_dec(&mut s, id as u64);
                return Some(ScenarioError::InvalidNodeId(id, s));
            }
            i = i + 1;
        }
        None
    }

    fn check_events(&self) -> (r: Option<ScenarioError>)
        ensures
            ({
                let f = events_fault(self@.events, self@.ids.len(), self@.events.len() as int);
                match r {
                    Some(e) => f == Some(e@),
                    None => f is None,
                }
            }),
    {
        let ghost ev = self@.events;
        let nodes: usize = self.nodes.len();
        let mut i: usize = 0;
        while i < self.events.len()
            invariant
                i <= self.events@.len(),
                ev == event_views(self.events@),
                nodes == self.nodes@.len(),
                events_fault(ev, nodes as nat, i as int) is None,
            decreases self.events@.len() - i,
        {
            assert(ev[i as int] == self.events@[i as int]@);
            proof {
                lemma_events_fault(ev, nodes as nat, i as int + 1, ev.len() as int);
            }
            let id: Option<usize> = match &self.events[i].action {
                EventAction::Crash { node_id } => Some(*node_id),
                EventAction::Start { node_id } => Some(*node_id),
                _ => None,
            };
            if let Some(id) = id {
                if id >= nodes {
                    return Some(no_such_node("event references node ", id, nodes));
                }
            }
            i = i + 1;
        }
        None
    }

    /// Check that a scenario makes sense: its nodes are numbered from 0 on, its
    /// events, file systems and clocks are of nodes that are there, and the
    /// faults of its network are well formed.
    pub fn validate(&self) -> (r: Result<(), ScenarioError>)
        ensures
            match r {
                Ok(_) => scenario_fault(self@) is None,
                Err(e) => scenario_fault(self@) == Some(e@),
            },
    {
        if let Some(e) = self.check_numbering() {
            return Err(e);
        }
        if let Some(e) = self.check_events() {
            return Err(e);
        }
        if let Some(v) = &self.filesystem {
            if let Some(e) = check_names("filesystem faults for node ", v, self.nodes.len()) {
                return Err(e);
            }
        }
        if let Some(v) = &self.time_skew {
            if let Some(e) = check_names("time skew for node ", v, self.nodes.len()) {
                return Err(e);
            }
        }
        if let Some(n) = &self.network {
            if let Some(e) = validate_network_faults(n) {
                return Err(e);
            }
        }
        Ok(())
    }
}

// ---------------------------------------------------------------------------
// Taking a scenario in
// ---------------------------------------------------------------------------

/// Events in order with one more, behind those of the same time.
pub open spec fn placed(v: Seq<EventView>, e: EventView) -> Seq<EventView>
    decreases v.len(),
{
    if v.len() == 0 || v.last().time_ns <= e.time_ns {
        v.push(e)
    } else {
        placed(v.drop_last(), e).push(v.last())
    }
}

/// Events by time; those of the same time keep their order.
pub open spec fn in_order(v: Seq<EventView>) -> Seq<EventView>
    decreases v.len(),
{
    if v.len() == 0 {
        v
    } else {
        placed(in_order(v.drop_last()), v.last())
    }
}

proof fn lemma_placed(v: Seq<EventView>, e: EventView, pos: int)
    requires
        0 <= pos <= v.len(),
        forall|j: int| pos <= j < v.len() ==> (#[trigger] v[j]).time_ns > e.time_ns,
        pos > 0 ==> v[pos - 1].time_ns <= e.time_ns,
    ensures
        placed(v, e) == v.insert(pos, e),
    decreases v.len(),
{
    if pos < v.len() {
        let p = v.drop_last();
        assert(v[v.len() - 1].time_ns > e.time_ns);
        lemma_placed(p, e, pos);
        assert(placed(v, e) =~= v.insert(pos, e));
    } else {
        assert(placed(v, e) =~= v.insert(pos, e));
    }
}

fn place(v: &mut Vec<ScheduledEvent>, e: ScheduledEvent)
    ensures
        event_views(final(v)@) == placed(event_views(old(v)@), e@),
{
    let ghost s = event_views(v@);
    let ghost ev = e@;
    let mut pos: usize = v.len();
    while pos > 0 && v[pos - 1].time_ns > e.time_ns
        invariant
            pos <= v@.len(),
            s == event_views(v@),
            forall|j: int| pos <= j < s.len() ==> (#[trigger] s[j]).time_ns > e.time_ns,
        decreases pos,
    {
        assert(s[pos as int - 1] == v@[pos as int - 1]@);
        pos = pos - 1;
    }
    proof {
        if pos > 0 {
            assert(s[pos as int - 1] == v@[pos as int - 1]@);
        }
        lemma_placed(s, ev, pos as int);
    }
    v.insert(pos, e);
    assert(event_views(v@) =~= s.insert(pos as int, ev));
}

fn sort_events(v: Vec<ScheduledEvent>) -> (r: Vec<ScheduledEvent>)
    ensures
        event_views(r@) == in_order(event_views(v@)),
{
    let mut todo = v;
    let mut back: Vec<ScheduledEvent> = Vec::new();
    let ghost all = event_views(v@);
    while todo.len() > 0
        invariant
            todo@.len() + back@.len() == all.len(),
            event_views(todo@) == all.take(todo@.len() as int),
            event_views(back@) == all.skip(todo@.len() as int).reverse(),
        decreases todo@.len(),
    {
        let ghost n = todo@.len() as int;
        let ghost b0 = event_views(back@);
        let ghost t0 = event_views(todo@);
        if let Some(e) = todo.pop() {
            let ghost ev = e@;
            assert(t0[n - 1] == ev);
            back.push(e);
            assert(event_views(todo@) =~= all.take(n - 1));
            assert(event_views(back@) =~= b0.push(ev));
            assert(all.skip(n - 1).reverse() =~= all.skip(n).reverse().push(all[n - 1]));
        }
    }
    let mut r: Vec<ScheduledEvent> = Vec::new();
    assert(event_views(r@) =~= Seq::<EventView>::empty());
    assert(all.take(0) =~= Seq::<EventView>::empty());
    assert(all.skip(0) =~= all);
    while back.len() > 0
        invariant
            back@.len() <= all.len(),
            event_views(back@) == all.skip(all.len() - back@.len()).reverse(),
            event_views(r@) == in_order(all.take(all.len() - back@.len())),
        decreases back@.len(),
    {
        let ghost n = back@.len() as int;
        let ghost b0 = event_views(back@);
        let ghost k = all.len() - n;
        if let Some(e) = back.pop() {
            let ghost ev = e@;
            assert(b0[n - 1] == ev);
            assert(b0[n - 1] == all[k]);
            assert(event_views(back@) =~= b0.drop_last());
            assert(all.skip(k + 1).reverse() =~= all.skip(k).reverse().drop_last());
            assert(all.take(k + 1).drop_last() =~= all.take(k));
            place(&mut r, e);
        }
    }
    assert(all.take(all.len() as int) =~= all);
    r
}

/// A scenario as it is taken in: its faults are checked, its events put in
/// order, and the whole validated.
pub open spec fn taken_in(s: ScenarioView) -> Result<ScenarioView, ErrorView> {
    let network = match s.network {
        Some(n) => network_fault(n),
        None => None,
    };
    let torn = match s.filesystem {
        Some(v) => torn_fault(v, v.len() as int),
        None => None,
    };
    let t = ScenarioView { events: in_order(s.events), ..s };
    if network is Some {
        Err(network->Some_0)
    } else if torn is Some {
        Err(torn->Some_0)
    } else {
        match scenario_fault(t) {
            Some(e) => Err(e),
            None => Ok(t),
        }
    }
}

impl Scenario {
    /// Take in a scenario that was read: check its faults, put its events in
    /// order, and validate it.
    pub fn take_in(self) -> (r: Result<Self, ScenarioError>)
        ensures
            match r {
                Ok(s) => taken_in(self@) == Ok::<ScenarioView, ErrorView>(s@) && s.name
                    == self.name && s.description == self.description && s.nodes == self.nodes,
                Err(e) => taken_in(self@) == Err::<ScenarioView, ErrorView>(e@),
            },
    {
        if let Some(n) = &self.network {
            if let Some(e) = validate_network_faults(n) {
                return Err(e);
            }
        }
        if let Some(v) = &self.filesystem {
            if let Some(e) = validate_filesystem_faults(v) {
                return Err(e);
            }
        }
        let Scenario {
            name,
            description,
            seed,
            nodes,
            network,
            filesystem,
            time_skew,
            events,
        } = self;
        let s = Scenario {
            name,
            description,
            seed,
            nodes,
            network,
            filesystem,
            time_skew,
            events: sort_events(events),
        };
        match s.validate() {
            Ok(_) => Ok(s),
            Err(e) => Err(e),
        }
    }
}

// ---------------------------------------------------------------------------
// Laws
// ---------------------------------------------------------------------------

/// Events by time.
pub open spec fn ordered(v: Seq<EventView>) -> bool {
    forall|i: int, j: int|
        0 <= i < j < v.len() ==> (#[trigger] v[i]).time_ns <= (#[trigger] v[j]).time_ns
}

/// The events of one time, in order.
pub open spec fn at_time(v: Seq<EventView>, t: u64) -> Seq<EventView> {
    v.filter(|e: EventView| e.time_ns == t)
}

proof fn lemma_spot(v: Seq<EventView>, e: EventView, hi: int) -> (pos: int)
    requires
        0 <= hi <= v.len(),
        forall|j: int| hi <= j < v.len() ==> (#[trigger] v[j]).time_ns > e.time_ns,
    ensures
        0 <= pos <= v.len(),
        forall|j: int| pos <= j < v.len() ==> (#[trigger] v[j]).time_ns > e.time_ns,
        pos > 0 ==> v[pos - 1].time_ns <= e.time_ns,
    decreases hi,
{
    if hi > 0 && v[hi - 1].time_ns > e.time_ns {
        lemma_spot(v, e, hi - 1)
    } else {
        hi
    }
}

proof fn lemma_at_time_push(v: Seq<EventView>, e: EventView, t: u64)
    ensures
        at_time(v.push(e), t) == if e.time_ns == t {
            at_time(v, t).push(e)
        } else {
            at_time(v, t)
        },
{
    reveal(Seq::filter);
    assert(v.push(e).drop_last() =~= v);
}

proof fn lemma_at_time_placed(v: Seq<EventView>, e: EventView, t: u64)
    ensures
        at_time(placed(v, e), t) == at_time(v.push(e), t),
    decreases v.len(),
{
    lemma_at_time_push(v, e, t);
    if !(v.len() == 0 || v.last().time_ns <= e.time_ns) {
        let p = v.drop_last();
        lemma_at_time_placed(p, e, t);
        lemma_at_time_push(p, e, t);
        lemma_at_time_push(placed(p, e), v.last(), t);
        lemma_at_time_push(p, v.last(), t);
        assert(p.push(v.last()) =~= v);
    }
}

/// The events of a scenario come out by time; nothing is lost or added, and
/// events of the same time keep their order.
pub proof fn law_events_in_order(v: Seq<EventView>, t: u64)
    ensures
        ordered(in_order(v)),
        in_order(v).len() == v.len(),
        at_time(in_order(v), t) == at_time(v, t),
    decreases v.len(),
{
    if v.len() > 0 {
        let p = v.drop_last();
        let e = v.last();
        law_events_in_order(p, t);
        let q = in_order(p);
        let pos = lemma_spot(q, e, q.len() as int);
        lemma_placed(q, e, pos);
        let r = q.insert(pos, e);
        assert forall|i: int, j: int| 0 <= i < j < r.len() implies (#[trigger] r[i]).time_ns <= (
        #[trigger] r[j]).time_ns by {
            if j < pos {
                assert(q[i].time_ns <= q[j].time_ns);
            } else if j == pos {
                if i < pos - 1 {
                    assert(q[i].time_ns <= q[pos - 1].time_ns);
                }
            } else if i < pos {
                assert(q[i].time_ns <= q[j - 1].time_ns);
            } else if i == pos {
                assert(q[j - 1].time_ns > e.time_ns);
            } else {
                assert(q[i - 1].time_ns <= q[j - 1].time_ns);
            }
        }
        lemma_at_time_placed(q, e, t);
        lemma_at_time_push(q, e, t);
        lemma_at_time_push(p, e, t);
        assert(p.push(e) =~= v);
    }
}

proof fn lemma_no_events_fault(events: Seq<EventView>, nodes: nat, n: int, i: int)
    requires
        0 <= i < n,
        events_fault(events, nodes, n) is None,
    ensures
        node_of(events[i].action) matches Some(id) ==> id < nodes,
    decreases n,
{
    if i < n - 1 {
        lemma_no_events_fault(events, nodes, n - 1, i);
    }
}

proof fn lemma_no_numbering_fault(ids: Seq<usize>, n: int, i: int)
    requires
        0 <= i < n,
        numbering_fault(ids, n) is None,
    ensures
        ids[i] == i,
    decreases n,
{
    if i < n - 1 {
        lemma_no_numbering_fault(ids, n - 1, i);
    }
}

/// In a scenario that is taken in, the nodes are numbered from 0 on, every
/// event is of a node that is there, the events are by time, and the faults of
/// the network are well formed.
pub proof fn law_taken_in_makes_sense(s: ScenarioView, i: int)
    requires
        taken_in(s) is Ok,
    ensures
        ({
            let t = taken_in(s)->Ok_0;
            &&& t.ids == s.ids
            &&& 0 <= i < t.ids.len() ==> t.ids[i] == i
            &&& 0 <= i < t.events.len() ==> (node_of(t.events[i].action) matches Some(id) ==> id
                < t.ids.len())
            &&& ordered(t.events)
            &&& t.network matches Some(n) ==> network_fault(n) is None
        }),
{
    let t = taken_in(s)->Ok_0;
    law_events_in_order(s.events, 0);
    if 0 <= i < t.ids.len() {
        lemma_no_numbering_fault(t.ids, t.ids.len() as int, i);
    }
    if 0 <= i < t.events.len() {
        lemma_no_events_fault(t.events, t.ids.len(), t.events.len() as int, i);
    }
}

} // verus!
