//! The options of a replay, and what is said of its outcome.

use vstd::prelude::*;

use crate::bytes;
use crate::cli;
use crate::cli::{copy_raw, lossy, read_arg};
use crate::fuzz_config;
use crate::json;
use crate::json::push_hex16;
use crate::log::{Log, LogView};
use crate::monitor;
use crate::replay::{OutcomeView, ReplayOutcome};
use crate::report;
use crate::report::{render, WINDOW};
use crate::run_cmd;
use crate::text;
use crate::text::{
    chars_of, copy_text, push_dec, push_text, quoted, read_uint, same, same_text, split_chars,
    string_of,
};

verus! {

/// How the program is used.
pub const REPLAY_USAGE: &'static str = "Usage: weft replay <LOG> [OPTIONS]

Re-execute a recorded run (a weft-log file, plain or gzip-compressed —
detected by content) and verify the result is byte-for-byte identical to
the recording. See docs/recording-format.md.

Options:
  --until <OP>    Stop after replaying op <OP> (inclusive): halt right after
                  a violating operation and report state up to that point
  --check <LIST>  Comma-separated invariants to check during replay:
                  fifo (per-channel-fifo), dup (no-duplicate-delivery),
                  or 'all' (default: none — pure verification)
  -h, --help      Print this help";

/// The options of a replay.
pub struct ReplayOpts {
    /// The log file.
    pub log: Vec<u8>,
    pub until: Option<u64>,
    /// The rules to check, by name.
    pub checks: Vec<String>,
}

/// The options as far as they are read.
pub struct OptsView {
    pub log: Option<Seq<u8>>,
    pub until: Option<u64>,
    pub checks: Seq<Seq<char>>,
}

impl View for ReplayOpts {
    type V = OptsView;

    open spec fn view(&self) -> OptsView {
        OptsView {
            log: Some(self.log@),
            until: self.until,
            checks: bytes::text_views(self.checks@),
        }
    }
}

pub open spec fn no_options() -> OptsView {
    OptsView { log: None, until: None, checks: Seq::empty() }
}

/// Whether a name is that of one rule.
pub open spec fn is_rule(name: Seq<char>) -> bool {
    name == "fifo"@ || name == "per-channel-fifo"@ || name == "dup"@ || name
        == "no-duplicate-delivery"@
}

/// The rules that the first `n` names stand for; empty names count nothing.
pub open spec fn rules_named(names: Seq<Seq<char>>, n: int) -> Result<Seq<Seq<char>>, Seq<char>>
    decreases n,
{
    if n <= 0 {
        Ok(Seq::empty())
    } else {
        match rules_named(names, n - 1) {
            Err(e) => Err(e),
            Ok(v) => {
                let name = names[n - 1];
                if name.len() == 0 {
                    Ok(v)
                } else if is_rule(name) {
                    Ok(v.push(name))
                } else if name == "all"@ {
                    Ok(v.push("fifo"@).push("dup"@))
                } else {
                    Err("--check: unknown invariant "@ + text::debug_form(name))
                }
            },
        }
    }
}

/// The rules that a list stands for.
pub open spec fn rules_of(v: Seq<char>) -> Result<Seq<Seq<char>>, Seq<char>> {
    let names = text::split(v, ',');
    rules_named(names, names.len() as int)
}

pub open spec fn with_until(d: OptsView, v: Seq<char>) -> Result<OptsView, Seq<char>> {
    match text::parse_uint(v, 10, u64::MAX as int) {
        Some(n) => Ok(OptsView { until: Some(n as u64), ..d }),
        None => Err("--until "@ + text::debug_form(v) + ": not a u64"@),
    }
}

pub open spec fn with_checks(d: OptsView, v: Seq<char>) -> Result<OptsView, Seq<char>> {
    match rules_of(v) {
        Ok(r) => Ok(OptsView { checks: d.checks + r, ..d }),
        Err(e) => Err(e),
    }
}

/// What the arguments from `i` on add to the options.
pub open spec fn parsed(args: Seq<Seq<u8>>, i: int, d: OptsView) -> Result<OptsView, Seq<char>>
    decreases args.len() - i,
{
    if i < 0 || i >= args.len() {
        Ok(d)
    } else {
        let a = cli::arg_text(args[i]);
        if a == Some("--until"@) {
            if i + 1 >= args.len() {
                Err("--until requires an op index"@)
            } else {
                match cli::arg_text(args[i + 1]) {
                    None => Err("--until value is not UTF-8"@),
                    Some(v) => match with_until(d, v) {
                        Ok(e) => parsed(args, i + 2, e),
                        Err(e) => Err(e),
                    },
                }
            }
        } else if a == Some("--check"@) {
            if i + 1 >= args.len() {
                Err("--check requires a list"@)
            } else {
                match cli::arg_text(args[i + 1]) {
                    None => Err("--check value is not UTF-8"@),
                    Some(v) => match with_checks(d, v) {
                        Ok(e) => parsed(args, i + 2, e),
                        Err(e) => Err(e),
                    },
                }
            }
        } else if a == Some("-h"@) || a == Some("--help"@) {
            Err(REPLAY_USAGE@)
        } else if d.log is None {
            parsed(args, i + 1, OptsView { log: Some(args[i]), ..d })
        } else {
            Err(
                "unexpected argument "@ + text::debug_form(cli::lossy_form(args[i])) + "\n\n"@
                    + REPLAY_USAGE@,
            )
        }
    }
}

/// What a command line says.
pub open spec fn options_of(args: Seq<Seq<u8>>) -> Result<OptsView, Seq<char>> {
    match parsed(args, 0, no_options()) {
        Err(e) => Err(e),
        Ok(d) => if d.log is None {
            Err("no log file given\n\n"@ + REPLAY_USAGE@)
        } else {
            Ok(d)
        },
    }
}

fn push_rule(v: &mut Vec<String>, name: String)
    ensures
        bytes::text_views(final(v)@) == bytes::text_views(old(v)@).push(name@),
{
    let ghost before = bytes::text_views(v@);
    let ghost x = name@;
    v.push(name);
    assert(bytes::text_views(v@) =~= before.push(x));
}

proof fn lemma_rules_named(names: Seq<Seq<char>>, n: int, m: int)
    requires
        0 <= n <= m,
    ensures
        rules_named(names, n) is Err ==> rules_named(names, m) == rules_named(names, n),
    decreases m - n,
{
    if n < m {
        lemma_rules_named(names, n, m - 1);
    }
}

fn push_rules(checks: &mut Vec<String>, v: &str) -> (r: Result<(), String>)
    ensures
        match r {
            Ok(_) => rules_of(v@) is Ok && bytes::text_views(final(checks)@)
                == bytes::text_views(old(checks)@) + rules_of(v@)->Ok_0,
            Err(e) => rules_of(v@) == Err::<Seq<Seq<char>>, Seq<char>>(e@),
        },
{
    let names = split_chars(&chars_of(v), ',');
    let ghost nv = text::split(v@, ',');
    let ghost before = bytes::text_views(checks@);
    let mut i: usize = 0;
    assert(bytes::text_views(checks@) =~= before + Seq::<Seq<char>>::empty());
    while i < names.len()
        invariant
            i <= names@.len(),
            nv == text::split(v@, ','),
            text::views(names@) == nv,
            rules_named(nv, i as int) is Ok,
            bytes::text_views(checks@) == before + rules_named(nv, i as int)->Ok_0,
        decreases names@.len() - i,
    {
        assert(nv[i as int] == names@[i as int]@);
        proof {
            lemma_rules_named(nv, i as int + 1, nv.len() as int);
        }
        let name = &names[i];
        let ghost so_far = rules_named(nv, i as int)->Ok_0;
        if name.len() > 0 {
            if same(name, "fifo") || same(name, "per-channel-fifo") || same(name, "dup") || same(
                name,
                "no-duplicate-delivery",
            ) {
                push_rule(checks, string_of(name));
                assert(bytes::text_views(checks@) =~= before + so_far.push(nv[i as int]));
            } else if same(name, "all") {
                push_rule(checks, copy_text("fifo"));
                push_rule(checks, copy_text("dup"));
                assert(bytes::text_views(checks@) =~= before + so_far.push("fifo"@).push("dup"@));
            } else {
                let mut e = copy_text("--check: unknown invariant ");
                push_text(&mut e, quoted(string_of(name).as_str()).as_str());
                return Err(e);
            }
        }
        i = i + 1;
    }
    Ok(())
}

fn not_a_number(v: &str) -> (e: String)
    ensures
        e@ == "--until "@ + text::debug_form(v@) + ": not a u64"@,
{
    let mut e = copy_text("--until ");
    push_text(&mut e, quoted(v).as_str());
    push_text(&mut e, ": not a u64");
    e
}

fn unexpected(b: &Vec<u8>) -> (e: String)
    ensures
        e@ == "unexpected argument "@ + text::debug_form(cli::lossy_form(b@)) + "\n\n"@
            + REPLAY_USAGE@,
{
    let shown = lossy(b.as_slice());
    let mut e = copy_text("unexpected argument ");
    push_text(&mut e, quoted(shown.as_str()).as_str());
    push_text(&mut e, "\n\n");
    push_text(&mut e, REPLAY_USAGE);
    e
}

fn is_word(a: &Option<String>, w: &str) -> (b: bool)
    ensures
        b == (run_cmd::text_view(*a) == Some(w@)),
{
    match a {
        Some(s) => same_text(s.as_str(), w),
        None => false,
    }
}

/// Read the arguments of a replay.
pub fn parse_args(args: &Vec<Vec<u8>>) -> (r: Result<ReplayOpts, String>)
    ensures
        ({
            let p = options_of(cli::raw_views(args@));
            match r {
                Ok(o) => p == Ok::<OptsView, Seq<char>>(o@),
                Err(e) => p == Err::<OptsView, Seq<char>>(e@),
            }
        }),
{
    let ghost av = cli::raw_views(args@);
    let ghost goal = parsed(av, 0, no_options());
    let mut log: Option<Vec<u8>> = None;
    let mut until: Option<u64> = None;
    let mut checks: Vec<String> = Vec::new();
    let mut i: usize = 0;
    assert(bytes::text_views(checks@) =~= Seq::<Seq<char>>::empty());
    while i < args.len()
        invariant
            i <= args@.len(),
            av == cli::raw_views(args@),
            goal == parsed(av, 0, no_options()),
            goal == parsed(
                av,
                i as int,
                OptsView {
                    log: run_cmd::raw_view(log),
                    until,
                    checks: bytes::text_views(checks@),
                },
            ),
        decreases args@.len() - i,
    {
        assert(av[i as int] == args@[i as int]@);
        let a = read_arg(&args[i]);
        assert(run_cmd::text_view(a) == cli::arg_text(av[i as int]));
        if is_word(&a, "--until") {
            if i + 1 >= args.len() {
                return Err(copy_text("--until requires an op index"));
            }
            assert(av[i as int + 1] == args@[i as int + 1]@);
            match read_arg(&args[i + 1]) {
                None => {
                    return Err(copy_text("--until value is not UTF-8"));
                },
                Some(v) => match read_uint(&chars_of(v.as_str()), 10, u64::MAX) {
                    Some(n) => {
                        until = Some(n);
                    },
                    None => {
                        return Err(not_a_number(v.as_str()));
                    },
                },
            }
            i = i + 2;
        } else if is_word(&a, "--check") {
            if i + 1 >= args.len() {
                return Err(copy_text("--check requires a list"));
            }
            assert(av[i as int + 1] == args@[i as int + 1]@);
            match read_arg(&args[i + 1]) {
                None => {
                    return Err(copy_text("--check value is not UTF-8"));
                },
                Some(v) => match push_rules(&mut checks, v.as_str()) {
                    Ok(_) => {},
                    Err(e) => {
                        return Err(e);
                    },
                },
            }
            i = i + 2;
        } else if is_word(&a, "-h") || is_word(&a, "--help") {
            return Err(copy_text(REPLAY_USAGE));
        } else if log.is_none() {
            log = Some(copy_raw(&args[i]));
            i = i + 1;
        } else {
            return Err(unexpected(&args[i]));
        }
    }
    match log {
        Some(log) => Ok(ReplayOpts { log, until, checks }),
        None => {
            let mut e = copy_text("no log file given\n\n");
            push_text(&mut e, REPLAY_USAGE);
            Err(e)
        },
    }
}

// ---------------------------------------------------------------------------
// The outcome
// ---------------------------------------------------------------------------

/// What is said of a replay, to a reader and as an exit code.
pub struct Conclusion {
    /// For the output.
    pub out: String,
    /// For the error output.
    pub err: String,
    pub code: i32,
}

pub open spec fn divergence_text(op: u64, recorded: Seq<char>, replayed: Seq<char>) -> Seq<char> {
    "weft replay: DIVERGED at op "@ + text::dec(op as nat) + "\n  recorded: "@ + recorded
        + "\n  replayed: "@ + replayed
        + "\n  (the log, seed, and code no longer agree — was the log produced by a different weft version?)\n"@
}

pub open spec fn identical_text(ops: u64, digest: u64, partial: bool) -> Seq<char> {
    "replay identical: "@ + text::dec(ops as nat) + " op(s), stream digest "@ + json::hex16(digest)
        + (if partial {
        " (partial: --until)"@
    } else {
        Seq::empty()
    }) + "\n"@
}

/// The reports on the first `n` violations.
pub open spec fn reports_text(
    v: Seq<monitor::ViolationView>,
    log: LogView,
    path: Seq<char>,
    n: int,
) -> Seq<char>
    decreases n,
{
    if n <= 0 {
        Seq::empty()
    } else {
        reports_text(v, log, path, n - 1) + report::report_text(v[n - 1], log, path)
    }
}

/// What is said to the reader.
pub open spec fn out_text(o: OutcomeView, log: LogView, path: Seq<char>, partial: bool) -> Seq<
    char,
> {
    if o.divergence is Some {
        Seq::empty()
    } else {
        identical_text(o.ops_replayed, o.stream_digest, partial) + (if o.violations.len() == 0 {
            Seq::empty()
        } else {
            reports_text(o.violations, log, path, o.violations.len() as int) + text::dec(
                o.violations.len(),
            ) + " invariant violation(s)\n"@
        })
    }
}

pub open spec fn err_text(o: OutcomeView) -> Seq<char> {
    match o.divergence {
        Some(d) => divergence_text(d.op, d.recorded, d.replayed),
        None => Seq::empty(),
    }
}

/// The exit code: 0 for an identical replay without violations, 2 for
/// violations, 1 for a divergence.
pub open spec fn code_of(o: OutcomeView) -> i32 {
    if o.divergence is Some {
        1
    } else if o.violations.len() == 0 {
        0
    } else {
        2
    }
}

fn identical(o: &ReplayOutcome, partial: bool) -> (s: String)
    ensures
        s@ == identical_text(o.ops_replayed, o.stream_digest, partial),
{
    let mut s = copy_text("replay identical: ");
    push_dec(&mut s, o.ops_replayed);
    push_text(&mut s, " op(s), stream digest ");
    push_hex16(&mut s, o.stream_digest);
    let ghost before = s@;
    if partial {
        push_text(&mut s, " (partial: --until)");
    } else {
        assert(s@ =~= before + Seq::<char>::empty());
    }
    push_text(&mut s, "\n");
    s
}

/// What to say of a replay.
pub fn conclude(o: &ReplayOutcome, log: &Log, path: &str, partial: bool) -> (c: Conclusion)
    requires
        forall|i: int|
            0 <= i < o@.violations.len() ==> (#[trigger] o@.violations[i]).op <= u64::MAX - WINDOW,
    ensures
        c.out@ == out_text(o@, log@, path@, partial),
        c.err@ == err_text(o@),
        c.code == code_of(o@),
{
    if let Some(d) = &o.divergence {
        let mut err = copy_text("weft replay: DIVERGED at op ");
        push_dec(&mut err, d.op);
        push_text(&mut err, "\n  recorded: ");
        push_text(&mut err, d.recorded.as_str());
        push_text(&mut err, "\n  replayed: ");
        push_text(&mut err, d.replayed.as_str());
        push_text(
            &mut err,
            "\n  (the log, seed, and code no longer agree — was the log produced by a different weft version?)\n",
        );
        let out = String::new();
        assert(out@ =~= Seq::<char>::empty());
        return Conclusion { out, err, code: 1 };
    }
    let err = String::new();
    assert(err@ =~= Seq::<char>::empty());
    let mut out = identical(o, partial);
    let ghost vv = o@.violations;
    assert(vv.len() == o.violations@.len());
    if o.violations.len() == 0 {
        assert(out@ =~= out@ + Seq::<char>::empty());
        return Conclusion { out, err, code: 0 };
    }
    let mut reports = String::new();
    let mut i: usize = 0;
    assert(reports@ =~= Seq::<char>::empty());
    while i < o.violations.len()
        invariant
            i <= o.violations@.len(),
            vv == o@.violations,
            vv.len() == o.violations@.len(),
            forall|k: int| 0 <= k < vv.len() ==> (#[trigger] vv[k]).op <= u64::MAX - WINDOW,
            reports@ == reports_text(vv, log@, path@, i as int),
        decreases o.violations@.len() - i,
    {
        assert(vv[i as int] == o.violations@[i as int]@);
        push_text(&mut reports, render(&o.violations[i], log, path).as_str());
        i = i + 1;
    }
    push_dec(&mut reports, o.violations.len() as u64);
    push_text(&mut reports, " invariant violation(s)\n");
    push_text(&mut out, reports.as_str());
    Conclusion { out, err, code: 2 }
}

// ---------------------------------------------------------------------------
// Laws
// ---------------------------------------------------------------------------

proof fn lemma_rules_known(names: Seq<Seq<char>>, n: int)
    requires
        rules_named(names, n) is Ok,
    ensures
        forall|k: int|
            0 <= k < rules_named(names, n)->Ok_0.len() ==> is_rule(
                #[trigger] rules_named(names, n)->Ok_0[k],
            ),
    decreases n,
{
    if n > 0 {
        lemma_rules_known(names, n - 1);
    }
}

proof fn lemma_checks_known(args: Seq<Seq<u8>>, i: int, d: OptsView)
    requires
        0 <= i,
        parsed(args, i, d) is Ok,
        forall|k: int| 0 <= k < d.checks.len() ==> is_rule(#[trigger] d.checks[k]),
    ensures
        forall|k: int|
            0 <= k < parsed(args, i, d)->Ok_0.checks.len() ==> is_rule(
                #[trigger] parsed(args, i, d)->Ok_0.checks[k],
            ),
    decreases args.len() - i,
{
    if i < args.len() {
        let a = cli::arg_text(args[i]);
        if a == Some("--until"@) {
            let v = cli::arg_text(args[i + 1])->Some_0;
            lemma_checks_known(args, i + 2, with_until(d, v)->Ok_0);
        } else if a == Some("--check"@) {
            let v = cli::arg_text(args[i + 1])->Some_0;
            let names = text::split(v, ',');
            lemma_rules_known(names, names.len() as int);
            lemma_checks_known(args, i + 2, with_checks(d, v)->Ok_0);
        } else if a == Some("-h"@) || a == Some("--help"@) {
        } else if d.log is None {
            lemma_checks_known(args, i + 1, OptsView { log: Some(args[i]), ..d });
        }
    }
}

/// Every rule that the options of a replay name is one that is known.
pub proof fn law_checks_are_known(args: Seq<Seq<u8>>, k: int)
    requires
        options_of(args) is Ok,
        0 <= k < options_of(args)->Ok_0.checks.len(),
    ensures
        fuzz_config::known(options_of(args)->Ok_0.checks[k]),
{
    lemma_checks_known(args, 0, no_options());
    assert(is_rule(options_of(args)->Ok_0.checks[k]));
}

} // verus!
