//! What a run of a cluster decides: what each node is told, what an exit
//! means, when to go on waiting, and what to say at the end. Launching and
//! waiting are left to the caller.

use vstd::prelude::*;

use crate::abi::{
    ENV_BROKER, ENV_HOST_ID, ENV_NET, ENV_NODE_ID, ENV_SCHED, ENV_SCHED_STATS, ENV_SEED,
    ENV_SHIM, ENV_STRATEGY, ENV_TRACE, ENV_WINDOW_NS,
};
use crate::abi;
use crate::cli::copy_raw;
use crate::log;
use crate::log::{Header, HeaderView, Meta, MetaView};
use crate::run_cmd::{DraftView, RunOpts};
use crate::text;
use crate::text::{copy_text, dec_text, push_dec, push_int, push_text};

verus! {

/// The exit code of a run that shows nothing: a crash, a deadlock, a protocol
/// violation, or no progress.
pub const DISCARD: i32 = 3;

/// The file name of the shim.
pub const SHIM_SO: &'static str = "libweft_shim.so";

// ---------------------------------------------------------------------------
// The shim
// ---------------------------------------------------------------------------

/// Names with commas between them.
pub open spec fn listed(v: Seq<Seq<char>>, n: int) -> Seq<char>
    decreases n,
{
    if n <= 0 {
        Seq::empty()
    } else if n == 1 {
        v[0]
    } else {
        listed(v, n - 1) + ", "@ + v[n - 1]
    }
}

pub open spec fn shim_error(tried: Seq<Seq<char>>) -> Seq<char> {
    "cannot find "@ + SHIM_SO@ + "; tried: "@ + listed(tried, tried.len() as int)
        + ". Build it with `cargo build -p weft-shim` or point --shim / "@ + ENV_SHIM@ + " at it"@
}

pub open spec fn names_of(v: Seq<String>) -> Seq<Seq<char>> {
    v.map_values(|s: String| s@)
}

/// The first place that holds the shim, or the message with every place tried.
pub fn choose_shim(tried: &Vec<String>, there: &Vec<bool>) -> (r: Result<usize, String>)
    requires
        there@.len() == tried@.len(),
    ensures
        match r {
            Ok(i) => i < there@.len() && there@[i as int] && forall|j: int|
                0 <= j < i ==> !there@[j],
            Err(e) => (forall|j: int| 0 <= j < there@.len() ==> !there@[j]) && e@ == shim_error(
                names_of(tried@),
            ),
        },
{
    let mut i: usize = 0;
    while i < there.len()
        invariant
            i <= there@.len(),
            forall|j: int| 0 <= j < i ==> !there@[j],
        decreases there@.len() - i,
    {
        if there[i] {
            return Ok(i);
        }
        i = i + 1;
    }
    let ghost names = names_of(tried@);
    let mut list = String::new();
    let mut k: usize = 0;
    assert(list@ =~= Seq::<char>::empty());
    while k < tried.len()
        invariant
            k <= tried@.len(),
            names == names_of(tried@),
            list@ == listed(names, k as int),
        decreases tried@.len() - k,
    {
        assert(names[k as int] == tried@[k as int]@);
        if k > 0 {
            push_text(&mut list, ", ");
        }
        push_text(&mut list, tried[k].as_str());
        k = k + 1;
        assert(list@ =~= listed(names, k as int));
    }
    let mut s = copy_text("cannot find ");
    push_text(&mut s, SHIM_SO);
    push_text(&mut s, "; tried: ");
    push_text(&mut s, list.as_str());
    push_text(&mut s, ". Build it with `cargo build -p weft-shim` or point --shim / ");
    push_text(&mut s, ENV_SHIM);
    push_text(&mut s, " at it");
    Err(s)
}

// ---------------------------------------------------------------------------
// What each node is told
// ---------------------------------------------------------------------------

/// The value of an environment variable.
pub enum EnvValue {
    Text(String),
    /// The bytes of a path.
    Raw(Vec<u8>),
}

pub enum ValueView {
    Text(Seq<char>),
    Raw(Seq<u8>),
}

/// An environment variable.
pub struct EnvVar {
    pub name: &'static str,
    pub value: EnvValue,
}

pub struct VarView {
    pub name: Seq<char>,
    pub value: ValueView,
}

impl View for EnvVar {
    type V = VarView;

    open spec fn view(&self) -> VarView {
        VarView {
            name: self.name@,
            value: match self.value {
                EnvValue::Text(s) => ValueView::Text(s@),
                EnvValue::Raw(b) => ValueView::Raw(b@),
            },
        }
    }
}

pub open spec fn var_views(v: Seq<EnvVar>) -> Seq<VarView> {
    v.map_values(|x: EnvVar| x@)
}

pub open spec fn told(name: Seq<char>, value: Seq<char>) -> VarView {
    VarView { name, value: ValueView::Text(value) }
}

pub open spec fn told_if(b: bool, name: Seq<char>, value: Seq<char>) -> Seq<VarView> {
    if b {
        seq![told(name, value)]
    } else {
        Seq::empty()
    }
}

/// The shim in front of what is preloaded anyway.
pub open spec fn preload_of(shim: Seq<u8>, existing: Option<Seq<u8>>) -> Seq<u8> {
    match existing {
        Some(e) => if e.len() > 0 {
            shim + seq![58u8] + e
        } else {
            shim
        },
        None => shim,
    }
}

pub open spec fn net_of(d: DraftView) -> Seq<char> {
    match d.net {
        Some(s) => s,
        None => Seq::empty(),
    }
}

/// What every target is told.
pub open spec fn target_vars(d: DraftView, shim: Seq<u8>, existing: Option<Seq<u8>>) -> Seq<
    VarView,
> {
    seq![
        VarView { name: "LD_PRELOAD"@, value: ValueView::Raw(preload_of(shim, existing)) },
        told(ENV_SEED@, text::dec(d.seed.unwrap() as nat)),
        told(ENV_STRATEGY@, abi::strategy_name(d.strategy)),
    ] + told_if(d.trace, ENV_TRACE@, "1"@) + told_if(d.stats, ENV_SCHED_STATS@, "1"@) + told_if(
        d.no_sched,
        ENV_SCHED@,
        "0"@,
    )
}

/// What a node of a cluster is told besides.
pub open spec fn node_vars(d: DraftView, node: u32, endpoint: Seq<u8>) -> Seq<VarView> {
    seq![
        VarView { name: ENV_BROKER@, value: ValueView::Raw(endpoint) },
        told(ENV_NODE_ID@, text::dec(node as nat)),
        told(ENV_NET@, net_of(d)),
    ] + told_if(d.window > 0, ENV_WINDOW_NS@, text::dec(d.window as nat)) + told_if(
        d.host_id > 0,
        ENV_HOST_ID@,
        text::dec(d.host_id as nat),
    )
}

fn tell_if(v: &mut Vec<EnvVar>, b: bool, name: &'static str, value: String)
    ensures
        var_views(final(v)@) == var_views(old(v)@) + told_if(b, name@, value@),
{
    let ghost before = var_views(v@);
    let ghost x = value@;
    if b {
        v.push(EnvVar { name, value: EnvValue::Text(value) });
    }
    assert(var_views(v@) =~= before + told_if(b, name@, x));
}

fn preload(shim: &Vec<u8>, existing: &Option<Vec<u8>>) -> (r: Vec<u8>)
    ensures
        r@ == preload_of(shim@, crate::run_cmd::raw_view(*existing)),
{
    let mut r = copy_raw(shim);
    if let Some(e) = existing {
        if e.len() > 0 {
            r.push(58);
            let mut i: usize = 0;
            assert(r@ =~= shim@ + seq![58u8] + e@.take(0));
            while i < e.len()
                invariant
                    i <= e@.len(),
                    r@ == shim@ + seq![58u8] + e@.take(i as int),
                decreases e@.len() - i,
            {
                r.push(e[i]);
                i = i + 1;
                assert(r@ =~= shim@ + seq![58u8] + e@.take(i as int));
            }
            assert(e@.take(e@.len() as int) =~= e@);
        }
    }
    r
}

/// What every target is told: the shim to load, the seed, the strategy, and
/// what to print.
pub fn target_env(opts: &RunOpts, shim: &Vec<u8>, existing: &Option<Vec<u8>>) -> (v: Vec<EnvVar>)
    ensures
        var_views(v@) == target_vars(opts@, shim@, crate::run_cmd::raw_view(*existing)),
{
    let mut v: Vec<EnvVar> = Vec::new();
    let load = preload(shim, existing);
    let ghost lv = load@;
    v.push(EnvVar { name: "LD_PRELOAD", value: EnvValue::Raw(load) });
    v.push(EnvVar { name: ENV_SEED, value: EnvValue::Text(dec_text(opts.seed)) });
    v.push(EnvVar { name: ENV_STRATEGY, value: EnvValue::Text(copy_text(opts.strategy.name())) });
    assert(var_views(v@) =~= seq![
        VarView { name: "LD_PRELOAD"@, value: ValueView::Raw(lv) },
        told(ENV_SEED@, text::dec(opts@.seed.unwrap() as nat)),
        told(ENV_STRATEGY@, abi::strategy_name(opts@.strategy)),
    ]);
    tell_if(&mut v, opts.trace, ENV_TRACE, copy_text("1"));
    tell_if(&mut v, opts.stats, ENV_SCHED_STATS, copy_text("1"));
    tell_if(&mut v, opts.no_sched, ENV_SCHED, copy_text("0"));
    v
}

/// What a node of a cluster is told besides: where the broker is, who it is,
/// and the network conditions.
pub fn node_env(opts: &RunOpts, node: u32, endpoint: &Vec<u8>) -> (v: Vec<EnvVar>)
    ensures
        var_views(v@) == node_vars(opts@, node, endpoint@),
{
    let mut v: Vec<EnvVar> = Vec::new();
    let net = net_text(opts);
    let ghost nv = net@;
    let at = copy_raw(endpoint);
    v.push(EnvVar { name: ENV_BROKER, value: EnvValue::Raw(at) });
    v.push(EnvVar { name: ENV_NODE_ID, value: EnvValue::Text(dec_text(node as u64)) });
    v.push(EnvVar { name: ENV_NET, value: EnvValue::Text(net) });
    assert(var_views(v@) =~= seq![
        VarView { name: ENV_BROKER@, value: ValueView::Raw(endpoint@) },
        told(ENV_NODE_ID@, text::dec(node as nat)),
        told(ENV_NET@, nv),
    ]);
    tell_if(&mut v, opts.window > 0, ENV_WINDOW_NS, dec_text(opts.window));
    tell_if(&mut v, opts.host_id > 0, ENV_HOST_ID, dec_text(opts.host_id as u64));
    v
}

/// The network conditions, empty where none are given.
pub fn net_text(opts: &RunOpts) -> (s: String)
    ensures
        s@ == net_of(opts@),
{
    match &opts.net {
        Some(s) => copy_text(s.as_str()),
        None => {
            let s = String::new();
            assert(s@ =~= Seq::<char>::empty());
            s
        },
    }
}

/// The nodes to launch here.
pub open spec fn range_of(d: DraftView) -> (u32, u32) {
    match d.spawn {
        Some(r) => r,
        None => (0, (d.nodes - 1) as u32),
    }
}

/// The nodes to launch here, both ends included: all of them, unless the
/// options say which.
pub fn spawn_range(opts: &RunOpts) -> (r: (u32, u32))
    requires
        opts.nodes > 0,
    ensures
        r == range_of(opts@),
{
    match opts.spawn {
        Some(r) => r,
        None => (0, opts.nodes - 1),
    }
}

/// How a host takes part.
#[derive(Debug, Clone, Copy, PartialEq, Eq, Structural)]
pub enum Part {
    /// It joins a broker elsewhere.
    Join,
    /// It hosts the broker for other hosts too.
    Listen,
    /// It hosts the broker for itself.
    Local,
}

pub open spec fn part_of(d: DraftView) -> Part {
    if d.broker is Some {
        Part::Join
    } else if d.listen is Some {
        Part::Listen
    } else {
        Part::Local
    }
}

/// How this host takes part.
pub fn part(opts: &RunOpts) -> (p: Part)
    ensures
        p == part_of(opts@),
{
    if opts.broker.is_some() {
        Part::Join
    } else if opts.listen.is_some() {
        Part::Listen
    } else {
        Part::Local
    }
}

/// The header of the recording of a run.
pub open spec fn header_of(d: DraftView) -> HeaderView {
    HeaderView {
        format: log::FORMAT@,
        version: log::VERSION,
        seed: d.seed.unwrap(),
        net: net_of(d),
        window_ns: d.window,
        meta: MetaView {
            recorded_unix_ms: None,
            weft_version: Some(crate::VERSION@),
            label: None,
        },
    }
}

/// The header of the recording of a run.
pub fn record_header(opts: &RunOpts) -> (h: Header)
    ensures
        h@ == header_of(opts@),
{
    Header {
        format: copy_text(log::FORMAT),
        version: log::VERSION,
        seed: opts.seed,
        net: net_text(opts),
        window_ns: opts.window,
        meta: Meta {
            recorded_unix_ms: None,
            weft_version: Some(copy_text(crate::version())),
            label: None,
        },
    }
}

/// The warning where windows are wider than the least latency: a request and
/// its reply may then wait for each other.
pub open spec fn warning_of(window: u64, min_delay: u64) -> Option<Seq<char>> {
    if window > 0 && min_delay < window {
        Some(
            "[weft] warning: --window "@ + text::dec(window as nat)
                + " ns exceeds the network's minimum latency "@ + text::dec(min_delay as nat)
                + " ns; windowed request/reply can deadlock (need lookahead >= window)"@,
        )
    } else {
        None
    }
}

/// The warning where windows are wider than the least latency.
pub fn window_warning(window: u64, min_delay: u64) -> (r: Option<String>)
    ensures
        match r {
            Some(s) => warning_of(window, min_delay) == Some(s@),
            None => warning_of(window, min_delay) is None,
        },
{
    if window > 0 && min_delay < window {
        let mut s = copy_text("[weft] warning: --window ");
        push_dec(&mut s, window);
        push_text(&mut s, " ns exceeds the network's minimum latency ");
        push_dec(&mut s, min_delay);
        push_text(
            &mut s,
            " ns; windowed request/reply can deadlock (need lookahead >= window)",
        );
        Some(s)
    } else {
        None
    }
}

// ---------------------------------------------------------------------------
// Exits
// ---------------------------------------------------------------------------

/// How a node ended.
pub enum Exit {
    Code(i32),
    Signal,
    /// Waiting for it failed, and why.
    Lost(String),
}

pub enum ExitView {
    Code(i32),
    Signal,
    Lost(Seq<char>),
}

impl View for Exit {
    type V = ExitView;

    open spec fn view(&self) -> ExitView {
        match *self {
            Exit::Code(c) => ExitView::Code(c),
            Exit::Signal => ExitView::Signal,
            Exit::Lost(e) => ExitView::Lost(e@),
        }
    }
}

/// The exit code behind the end of a node, and what is said of it. A crash in
/// the midst of a window makes the order of the others a matter of chance, so
/// the run shows nothing.
pub open spec fn ended(code: i32, node: u32, e: ExitView, window: u64) -> (i32, Option<Seq<char>>) {
    let who = "weft: node "@ + text::dec(node as nat);
    match e {
        ExitView::Code(c) => if c == 0 {
            (code, None)
        } else {
            (c, Some(who + " exited with "@ + text::dec_int(c as int)))
        },
        ExitView::Signal => if window > 0 {
            (DISCARD, Some(who + " crashed (signal); run discarded"@))
        } else {
            (128, Some(who + " exited with 128"@))
        },
        ExitView::Lost(why) => (1, Some(who + " wait failed: "@ + why)),
    }
}

pub open spec fn note_view(s: Option<String>) -> Option<Seq<char>> {
    match s {
        Some(t) => Some(t@),
        None => None,
    }
}

/// What the end of a node means: the exit code from now on, and what to say.
pub fn on_exit(code: i32, node: u32, e: &Exit, window: u64) -> (r: (i32, Option<String>))
    ensures
        (r.0, note_view(r.1)) == ended(code, node, e@, window),
{
    let mut s = copy_text("weft: node ");
    push_dec(&mut s, node as u64);
    match e {
        Exit::Code(c) => {
            if *c == 0 {
                return (code, None);
            }
            push_text(&mut s, " exited with ");
            push_int(&mut s, *c);
            (*c, Some(s))
        },
        Exit::Signal => {
            if window > 0 {
                push_text(&mut s, " crashed (signal); run discarded");
                (DISCARD, Some(s))
            } else {
                push_text(&mut s, " exited with 128");
                (128, Some(s))
            }
        },
        Exit::Lost(why) => {
            push_text(&mut s, " wait failed: ");
            push_text(&mut s, why.as_str());
            (1, Some(s))
        },
    }
}

// ---------------------------------------------------------------------------
// Going on
// ---------------------------------------------------------------------------

/// What the broker shows.
#[derive(Clone, Copy)]
pub struct Glance {
    /// Every node that is expected has joined and left.
    pub drained: bool,
    /// An operation was rejected.
    pub violated: bool,
    /// No node can go on.
    pub deadlocked: bool,
    /// How many datagrams were sent.
    pub sent: u64,
}

/// What to do next.
pub enum Next {
    /// Look again later; progress was made where it says so.
    Wait { progress: bool },
    /// End with this exit code, and say this.
    Stop { code: i32, note: Option<String> },
}

pub enum NextView {
    Wait { progress: bool },
    Stop { code: i32, note: Option<Seq<char>> },
}

impl View for Next {
    type V = NextView;

    open spec fn view(&self) -> NextView {
        match *self {
            Next::Wait { progress } => NextView::Wait { progress },
            Next::Stop { code, note } => NextView::Stop { code, note: note_view(note) },
        }
    }
}

/// A host that listens serves other hosts too: it goes on until their nodes
/// are done.
pub open spec fn others_pending(d: DraftView, code: i32, g: Option<Glance>) -> bool {
    d.listen is Some && code != DISCARD && g is Some && !g.unwrap().drained
}

pub open spec fn deadlock_text() -> Seq<char> {
    "[weft] deadlock: every connected node is blocked with nothing in flight (windowed quiescence); run discarded"@
}

pub open spec fn watchdog_text(secs: u64) -> Seq<char> {
    "[weft] watchdog: no broker progress for "@ + text::dec(secs as nat)
        + "s (deadlock or wedged guest); run discarded"@
}

/// What to do next, with `running` nodes left here, `last_sent` datagrams at
/// the last progress, and `idle` seconds since.
pub open spec fn next_of(
    d: DraftView,
    code: i32,
    running: nat,
    g: Option<Glance>,
    last_sent: u64,
    idle: u64,
) -> NextView {
    if running == 0 && !others_pending(d, code, g) {
        NextView::Stop { code, note: None }
    } else {
        match g {
            None => NextView::Wait { progress: false },
            Some(g) => if g.violated {
                NextView::Stop { code, note: None }
            } else if g.deadlocked {
                NextView::Stop { code: DISCARD, note: Some(deadlock_text()) }
            } else if d.watchdog > 0 && g.sent == last_sent && idle >= d.watchdog {
                NextView::Stop { code: DISCARD, note: Some(watchdog_text(d.watchdog)) }
            } else {
                NextView::Wait { progress: d.watchdog > 0 && g.sent != last_sent }
            },
        }
    }
}

/// What to do next: go on waiting, or end the run. A deadlock ends it at once,
/// a watchdog where nothing was sent for its time; both discard it, and a run
/// that ends by itself is not touched.
pub fn supervise(
    opts: &RunOpts,
    code: i32,
    running: usize,
    g: &Option<Glance>,
    last_sent: u64,
    idle: u64,
) -> (n: Next)
    ensures
        n@ == next_of(opts@, code, running as nat, *g, last_sent, idle),
{
    let pending: bool = opts.listen.is_some() && code != DISCARD && match g {
        Some(g) => !g.drained,
        None => false,
    };
    if running == 0 && !pending {
        return Next::Stop { code, note: None };
    }
    match g {
        None => Next::Wait { progress: false },
        Some(g) => {
            if g.violated {
                return Next::Stop { code, note: None };
            }
            if g.deadlocked {
                return Next::Stop {
                    code: DISCARD,
                    note: Some(
                        copy_text(
                            "[weft] deadlock: every connected node is blocked with nothing in flight (windowed quiescence); run discarded",
                        ),
                    ),
                };
            }
            if opts.watchdog > 0 && g.sent == last_sent && idle >= opts.watchdog {
                let mut s = copy_text("[weft] watchdog: no broker progress for ");
                push_dec(&mut s, opts.watchdog);
                push_text(&mut s, "s (deadlock or wedged guest); run discarded");
                return Next::Stop { code: DISCARD, note: Some(s) };
            }
            Next::Wait { progress: opts.watchdog > 0 && g.sent != last_sent }
        },
    }
}

// ---------------------------------------------------------------------------
// The end
// ---------------------------------------------------------------------------

/// A run with a protocol violation is discarded, however its nodes ended.
pub open spec fn judged(code: i32, violation: Option<Seq<char>>) -> (i32, Option<Seq<char>>) {
    match violation {
        Some(v) => (
            DISCARD,
            Some("[weft] protocol violation: "@ + v + "; run discarded"@),
        ),
        None => (code, None),
    }
}

/// The exit code of a run, and what to say of a protocol violation.
pub fn judge(code: i32, violation: &Option<String>) -> (r: (i32, Option<String>))
    ensures
        (r.0, note_view(r.1)) == judged(code, note_view(*violation)),
{
    match violation {
        Some(v) => {
            let mut s = copy_text("[weft] protocol violation: ");
            push_text(&mut s, v.as_str());
            push_text(&mut s, "; run discarded");
            (DISCARD, Some(s))
        },
        None => (code, None),
    }
}

/// The statistics of a broker.
#[derive(Clone, Copy)]
pub struct Stats {
    pub sent: u64,
    pub dropped: u64,
    pub max_skew_ns: u64,
}

/// The largest lag seen of a node.
#[derive(Clone, Copy, PartialEq, Eq, Debug, Structural)]
pub struct Lag {
    pub host: u32,
    pub node: u32,
    pub ns: u64,
}

/// `a` comes in front of `b`: by host, then by node.
pub open spec fn in_front(a: Lag, b: Lag) -> bool {
    a.host < b.host || (a.host == b.host && a.node < b.node)
}

/// Every node once, in order.
pub open spec fn ranked(s: Seq<Lag>) -> bool {
    forall|i: int, j: int| 0 <= i < j < s.len() ==> in_front(#[trigger] s[i], #[trigger] s[j])
}

/// `s` with another lag: in its place, or the larger one where the node is
/// there already.
pub open spec fn noted(s: Seq<Lag>, x: Lag) -> Seq<Lag>
    decreases s.len(),
{
    if s.len() == 0 || in_front(s.last(), x) {
        s.push(x)
    } else if in_front(x, s.last()) {
        noted(s.drop_last(), x).push(s.last())
    } else if s.last().ns < x.ns {
        s.drop_last().push(x)
    } else {
        s
    }
}

/// The largest lags, by host and node.
pub struct Lags {
    pub of: Vec<Lag>,
}

proof fn lemma_noted_at(s: Seq<Lag>, x: Lag, i: int)
    requires
        0 <= i <= s.len(),
        forall|j: int| i <= j < s.len() ==> in_front(x, #[trigger] s[j]),
    ensures
        noted(s, x) == noted(s.take(i), x) + s.skip(i),
    decreases s.len(),
{
    if i == s.len() {
        assert(s.take(i) =~= s);
        assert(noted(s.take(i), x) + s.skip(i) =~= noted(s, x));
    } else {
        let t = s.drop_last();
        assert(in_front(x, s[s.len() - 1]));
        assert forall|j: int| i <= j < t.len() implies in_front(x, #[trigger] t[j]) by {
            assert(in_front(x, s[j]));
        }
        lemma_noted_at(t, x, i);
        assert(t.take(i) =~= s.take(i));
        assert(noted(s.take(i), x) + s.skip(i) =~= (noted(t.take(i), x) + t.skip(i)).push(
            s.last(),
        ));
    }
}

impl Lags {
    #[must_use]
    pub fn new() -> (r: Self)
        ensures
            r.of@ == Seq::<Lag>::empty(),
    {
        Lags { of: Vec::new() }
    }

    /// Keep the largest lag of each node.
    pub fn note(&mut self, host: u32, node: u32, ns: u64)
        ensures
            final(self).of@ == noted(old(self).of@, (Lag { host, node, ns })),
    {
        let x = Lag { host, node, ns };
        let ghost s = self.of@;
        let mut i: usize = self.of.len();
        while i > 0 && (host < self.of[i - 1].host || (host == self.of[i - 1].host && node
            < self.of[i - 1].node))
            invariant
                self.of@ == s,
                i <= s.len(),
                x == (Lag { host, node, ns }),
                forall|j: int| i <= j < s.len() ==> in_front(x, #[trigger] s[j]),
            ensures
                i > 0 ==> !in_front(x, s[i - 1]),
            decreases i,
        {
            i = i - 1;
        }
        proof {
            lemma_noted_at(s, x, i as int);
        }
        let ghost front = s.take(i as int);
        if i > 0 && self.of[i - 1].host == host && self.of[i - 1].node == node {
            if self.of[i - 1].ns < ns {
                self.of.set(i - 1, x);
                assert(self.of@ =~= front.drop_last().push(x) + s.skip(i as int));
            } else {
                assert(s =~= front + s.skip(i as int));
            }
        } else {
            self.of.insert(i, x);
            assert(self.of@ =~= front.push(x) + s.skip(i as int));
        }
    }
}

/// The lag kept of a node, if any.
pub open spec fn kept(s: Seq<Lag>, host: u32, node: u32) -> Option<u64>
    decreases s.len(),
{
    if s.len() == 0 {
        None
    } else if s.last().host == host && s.last().node == node {
        Some(s.last().ns)
    } else {
        kept(s.drop_last(), host, node)
    }
}

/// Lags stay in order, each node once, and of each the largest is kept.
pub proof fn law_largest_lags_are_kept(s: Seq<Lag>, x: Lag, host: u32, node: u32)
    requires
        ranked(s),
    ensures
        ranked(noted(s, x)),
        kept(noted(s, x), host, node) == if (host, node) == (x.host, x.node) {
            match kept(s, host, node) {
                Some(ns) => Some(
                    if ns < x.ns {
                        x.ns
                    } else {
                        ns
                    },
                ),
                None => Some(x.ns),
            }
        } else {
            kept(s, host, node)
        },
{
    lemma_noted_ranked(s, x);
    lemma_noted_kept(s, x, host, node);
}

proof fn lemma_noted_ranked(s: Seq<Lag>, x: Lag)
    requires
        ranked(s),
    ensures
        ranked(noted(s, x)),
        forall|y: Lag|
            (forall|i: int| 0 <= i < s.len() ==> in_front(#[trigger] s[i], y)) && in_front(x, y)
                ==> forall|i: int|
                0 <= i < noted(s, x).len() ==> in_front(#[trigger] noted(s, x)[i], y),
    decreases s.len(),
{
    let r = noted(s, x);
    if s.len() > 0 {
        let t = s.drop_last();
        assert(ranked(t)) by {
            assert forall|i: int, j: int| 0 <= i < j < t.len() implies in_front(
                #[trigger] t[i],
                #[trigger] t[j],
            ) by {
                assert(in_front(s[i], s[j]));
            }
        }
        assert forall|i: int| 0 <= i < t.len() implies in_front(#[trigger] t[i], s.last()) by {
            assert(in_front(s[i], s[s.len() - 1]));
        }
        lemma_noted_ranked(t, x);
    }
    assert forall|i: int, j: int| 0 <= i < j < r.len() implies in_front(
        #[trigger] r[i],
        #[trigger] r[j],
    ) by {
        if s.len() > 0 {
            if j < s.len() {
                assert(i < s.len());
                if in_front(s.last(), x) {
                    assert(in_front(s[i], s[j]));
                } else if in_front(x, s.last()) {
                    assert(r[i] == noted(s.drop_last(), x)[i]);
                } else if i < s.len() - 1 {
                    assert(in_front(s[i], s[j]));
                }
            } else if in_front(s.last(), x) {
                if i < s.len() - 1 {
                    assert(in_front(s[i], s[s.len() - 1]));
                }
            } else {
                assert(r[i] == noted(s.drop_last(), x)[i]);
            }
        }
    }
    assert forall|y: Lag|
        (forall|i: int| 0 <= i < s.len() ==> in_front(#[trigger] s[i], y)) && in_front(
            x,
            y,
        ) implies forall|i: int| 0 <= i < r.len() ==> in_front(#[trigger] r[i], y) by {
        if s.len() > 0 {
            let t = s.drop_last();
            assert forall|i: int| 0 <= i < t.len() implies in_front(#[trigger] t[i], y) by {
                assert(in_front(s[i], y));
            }
            assert(in_front(s[s.len() - 1], y));
        }
        assert forall|i: int| 0 <= i < r.len() implies in_front(#[trigger] r[i], y) by {
            if s.len() > 0 && i < s.len() {
                assert(in_front(s[i], y));
            }
        }
    }
}

proof fn lemma_behind(s: Seq<Lag>, host: u32, node: u32)
    requires
        forall|i: int|
            0 <= i < s.len() ==> (#[trigger] s[i]).host != host || s[i].node != node,
    ensures
        kept(s, host, node) is None,
    decreases s.len(),
{
    if s.len() > 0 {
        let t = s.drop_last();
        assert(s.last() == s[s.len() - 1]);
        assert forall|i: int| 0 <= i < t.len() implies (#[trigger] t[i]).host != host || t[i].node
            != node by {
            assert(s[i].host != host || s[i].node != node);
        }
        lemma_behind(t, host, node);
    }
}

proof fn lemma_noted_kept(s: Seq<Lag>, x: Lag, host: u32, node: u32)
    requires
        ranked(s),
    ensures
        kept(noted(s, x), host, node) == if (host, node) == (x.host, x.node) {
            match kept(s, host, node) {
                Some(ns) => Some(
                    if ns < x.ns {
                        x.ns
                    } else {
                        ns
                    },
                ),
                None => Some(x.ns),
            }
        } else {
            kept(s, host, node)
        },
    decreases s.len(),
{
    if s.len() == 0 || in_front(s.last(), x) {
        assert(s.push(x).drop_last() =~= s);
        if (host, node) == (x.host, x.node) {
            assert forall|i: int| 0 <= i < s.len() implies (#[trigger] s[i]).host != host
                || s[i].node != node by {
                if i < s.len() - 1 {
                    assert(in_front(s[i], s[s.len() - 1]));
                }
            }
            lemma_behind(s, host, node);
        }
    } else {
        let t = s.drop_last();
        assert(ranked(t)) by {
            assert forall|i: int, j: int| 0 <= i < j < t.len() implies in_front(
                #[trigger] t[i],
                #[trigger] t[j],
            ) by {
                assert(in_front(s[i], s[j]));
            }
        }
        lemma_noted_kept(t, x, host, node);
        assert(noted(t, x).push(s.last()).drop_last() =~= noted(t, x));
        assert(t.push(x).drop_last() =~= t);
    }
}

/// `[weft] frontier lag host <host> node <node>: max <ns> ns`.
pub open spec fn lag_line(x: Lag) -> Seq<char> {
    "[weft] frontier lag host "@ + text::dec(x.host as nat) + " node "@ + text::dec(x.node as nat)
        + ": max "@ + text::dec(x.ns as nat) + " ns\n"@
}

/// One line for each of the first `n` lags.
pub open spec fn lag_lines(s: Seq<Lag>, n: int) -> Seq<char>
    decreases n,
{
    if n <= 0 {
        Seq::empty()
    } else {
        lag_lines(s, n - 1) + lag_line(s[n - 1])
    }
}

fn push_lag(out: &mut String, x: Lag)
    ensures
        final(out)@ == old(out)@ + lag_line(x),
{
    let mut line = copy_text("[weft] frontier lag host ");
    push_dec(&mut line, x.host as u64);
    push_text(&mut line, " node ");
    push_dec(&mut line, x.node as u64);
    push_text(&mut line, ": max ");
    push_dec(&mut line, x.ns);
    push_text(&mut line, " ns\n");
    push_text(out, line.as_str());
}

/// The statistics at the end; a host that joined has none. The clocks are a
/// matter of windowed runs.
pub open spec fn stats_text(window: u64, s: Option<Stats>, lags: Seq<Lag>) -> Seq<char> {
    match s {
        Some(s) => "[weft] network: "@ + text::dec(s.sent as nat) + " datagram(s) sent, "@
            + text::dec(s.dropped as nat) + " dropped\n"@ + if window > 0 {
            "[weft] max clock skew: "@ + text::dec(s.max_skew_ns as nat) + " ns\n"@ + lag_lines(
                lags,
                lags.len() as int,
            )
        } else {
            Seq::empty()
        },
        None => "[weft] network stats live on the hosting side (--listen)\n"@,
    }
}

/// What a windowed run says of its clocks.
fn clock_report(max_skew_ns: u64, lags: &Lags) -> (r: String)
    ensures
        r@ == "[weft] max clock skew: "@ + text::dec(max_skew_ns as nat) + " ns\n"@ + lag_lines(
            lags.of@,
            lags.of@.len() as int,
        ),
{
    let mut r = copy_text("[weft] max clock skew: ");
    push_dec(&mut r, max_skew_ns);
    push_text(&mut r, " ns\n");
    let ghost head = r@;
    assert(head + lag_lines(lags.of@, 0) =~= head);
    let mut i: usize = 0;
    while i < lags.of.len()
        invariant
            i <= lags.of@.len(),
            r@ == head + lag_lines(lags.of@, i as int),
        decreases lags.of@.len() - i,
    {
        push_lag(&mut r, lags.of[i]);
        i = i + 1;
        assert(r@ =~= head + lag_lines(lags.of@, i as int));
    }
    r
}

/// The statistics at the end.
pub fn stats_report(window: u64, s: &Option<Stats>, lags: &Lags) -> (r: String)
    ensures
        r@ == stats_text(window, *s, lags.of@),
{
    match s {
        Some(s) => {
            let mut clocks = String::new();
            assert(clocks@ =~= Seq::<char>::empty());
            if window > 0 {
                clocks = clock_report(s.max_skew_ns, lags);
            }
            let mut r = copy_text("[weft] network: ");
            push_dec(&mut r, s.sent);
            push_text(&mut r, " datagram(s) sent, ");
            push_dec(&mut r, s.dropped);
            push_text(&mut r, " dropped\n");
            push_text(&mut r, clocks.as_str());
            r
        },
        None => copy_text("[weft] network stats live on the hosting side (--listen)\n"),
    }
}

/// Where the recording is.
pub open spec fn recorded_text(path: Seq<char>) -> Seq<char> {
    "[weft] recorded to "@ + path + " (verify: weft replay "@ + path + ")"@
}

/// Where the recording is.
pub fn recorded_line(path: &str) -> (s: String)
    ensures
        s@ == recorded_text(path@),
{
    let mut s = copy_text("[weft] recorded to ");
    push_text(&mut s, path);
    push_text(&mut s, " (verify: weft replay ");
    push_text(&mut s, path);
    push_text(&mut s, ")");
    s
}

/// The exit status for a code: one that does not fit is 1, and only 0 is 0.
pub open spec fn status_of(code: i32) -> u8 {
    if 0 <= code <= 255 {
        code as u8
    } else {
        1
    }
}

/// The exit status for a code.
#[must_use]
pub fn exit_status(code: i32) -> (s: u8)
    ensures
        s == status_of(code),
{
    if code >= 0 && code <= 255 {
        code as u8
    } else {
        1
    }
}

// ---------------------------------------------------------------------------
// Laws
// ---------------------------------------------------------------------------

/// A run succeeds only where every node exited with 0: the end of a node
/// leaves the code at 0 only where it was 0 and the node exited with 0.
pub proof fn law_success_needs_every_node(code: i32, node: u32, e: ExitView, window: u64)
    ensures
        ended(code, node, e, window).0 == 0 ==> code == 0 && e == ExitView::Code(0),
        status_of(code) == 0 <==> code == 0,
{
}

/// A watchdog or a deadlock only ever discards: the supervision never turns a
/// run into a success, and changes no code but to discard.
pub proof fn law_supervision_only_discards(
    d: DraftView,
    code: i32,
    running: nat,
    g: Option<Glance>,
    last_sent: u64,
    idle: u64,
)
    ensures
        next_of(d, code, running, g, last_sent, idle) matches NextView::Stop {
            code: c,
            note,
        } ==> (c == code || c == DISCARD) && (c != code ==> note is Some),
{
}

/// A run with a protocol violation never succeeds.
pub proof fn law_violation_discards(code: i32, v: Seq<char>)
    ensures
        judged(code, Some(v)).0 == DISCARD,
        status_of(judged(code, Some(v)).0) != 0,
{
}

} // verus!
