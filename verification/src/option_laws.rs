//! The laws of the options of a run: each sets what it names and nothing else.

use vstd::prelude::*;
use vstd::utf8;

use crate::abi::Strategy;
use crate::cli;
use crate::config;
use crate::config_laws;
use crate::env_laws;
use crate::run_cmd;
use crate::run_cmd::{DraftView, Flag};
use crate::text;
use crate::text_laws;

verus! {

/// The `i`-th argument is the text `t`.
pub open spec fn says(args: Seq<Seq<u8>>, i: int, t: Seq<char>) -> bool {
    0 <= i < args.len() && cli::arg_text(args[i]) == Some(t)
}

/// An argument is the text that its bytes write.
pub proof fn law_argument_text(t: Seq<char>)
    ensures
        cli::arg_text(utf8::encode_utf8(t)) == Some(t),
{
    utf8::encode_utf8_decode_utf8(t);
    utf8::encode_utf8_valid_utf8(t);
}

/// The options that every run has, by their names.
pub proof fn lemma_literals()
    ensures
        forall|wide: bool| #[trigger] run_cmd::flag_of(Some("--seed"@), wide) == Flag::Seed,
        forall|wide: bool| #[trigger]
            run_cmd::flag_of(Some("--strategy"@), wide) == Flag::Strategy,
        forall|wide: bool| #[trigger] run_cmd::flag_of(Some("--trace"@), wide) == Flag::Trace,
        forall|wide: bool| #[trigger] run_cmd::flag_of(Some("--stats"@), wide) == Flag::Stats,
        forall|wide: bool| #[trigger] run_cmd::flag_of(Some("--no-sched"@), wide) == Flag::NoSched,
        forall|wide: bool| #[trigger] run_cmd::flag_of(Some("--net"@), wide) == Flag::Net,
        forall|wide: bool| #[trigger] run_cmd::flag_of(Some("--nodes"@), wide) == Flag::Nodes,
        forall|wide: bool| #[trigger] run_cmd::flag_of(Some("--shim"@), wide) == Flag::Shim,
        forall|wide: bool| #[trigger] run_cmd::flag_of(Some("-h"@), wide) == Flag::Help,
        forall|wide: bool| #[trigger] run_cmd::flag_of(Some("--help"@), wide) == Flag::Help,
        forall|wide: bool| #[trigger] run_cmd::flag_of(Some("--"@), wide) == Flag::Program,
{
    lemma_narrow_strings();
}

/// What tells those names apart.
pub proof fn lemma_narrow_strings()
    ensures
        "--seed"@.len() == 6 && "--seed"@[2] == 's' && "--seed"@[3] == 'e',
        "--strategy"@.len() == 10,
        "--trace"@.len() == 7 && "--trace"@[2] == 't',
        "--verbose"@.len() == 9,
        "--stats"@.len() == 7 && "--stats"@[2] == 's' && "--stats"@[3] == 't',
        "--no-sched"@.len() == 10 && "--no-sched"@[2] == 'n',
        "--strategy"@[2] == 's',
        "--net"@.len() == 5,
        "--nodes"@.len() == 7 && "--nodes"@[2] == 'n',
        "--shim"@.len() == 6 && "--shim"@[2] == 's' && "--shim"@[3] == 'h',
        "-h"@.len() == 2 && "-h"@[1] == 'h',
        "--help"@.len() == 6 && "--help"@[2] == 'h',
        "--"@.len() == 2 && "--"@[1] == '-',
{
    reveal_strlit("--seed");
    reveal_strlit("--strategy");
    reveal_strlit("--trace");
    reveal_strlit("--verbose");
    reveal_strlit("--stats");
    reveal_strlit("--no-sched");
    reveal_strlit("--net");
    reveal_strlit("--nodes");
    reveal_strlit("--shim");
    reveal_strlit("-h");
    reveal_strlit("--help");
    reveal_strlit("--");
}

proof fn lemma_wide_strings()
    ensures
        "--window"@.len() == 8 && "--window"@[2] == 'w' && "--window"@[3] == 'i',
        "--watchdog"@.len() == 10 && "--watchdog"@[2] == 'w',
        "--window-ops"@.len() == 12,
        "--record"@.len() == 8 && "--record"@[2] == 'r',
        "--listen"@.len() == 8 && "--listen"@[2] == 'l',
        "--broker"@.len() == 8 && "--broker"@[2] == 'b',
        "--host-id"@.len() == 9 && "--host-id"@[2] == 'h',
        "--spawn"@.len() == 7 && "--spawn"@[2] == 's' && "--spawn"@[3] == 'p',
        "--verbose"@[2] == 'v',
{
    reveal_strlit("--window");
    reveal_strlit("--watchdog");
    reveal_strlit("--window-ops");
    reveal_strlit("--record");
    reveal_strlit("--listen");
    reveal_strlit("--broker");
    reveal_strlit("--host-id");
    reveal_strlit("--spawn");
    reveal_strlit("--verbose");
}

proof fn lemma_wide_literals()
    ensures
        run_cmd::flag_of(Some("--window"@), true) == Flag::Window,
        run_cmd::flag_of(Some("--watchdog"@), true) == Flag::Watchdog,
        run_cmd::flag_of(Some("--window-ops"@), true) == Flag::WindowOps,
        run_cmd::flag_of(Some("--record"@), true) == Flag::Record,
        run_cmd::flag_of(Some("--listen"@), true) == Flag::Listen,
        run_cmd::flag_of(Some("--broker"@), true) == Flag::Broker,
        run_cmd::flag_of(Some("--host-id"@), true) == Flag::HostId,
        run_cmd::flag_of(Some("--spawn"@), true) == Flag::Spawn,
        run_cmd::flag_of(Some("--window"@), false) == Flag::Unknown,
        run_cmd::flag_of(Some("--watchdog"@), false) == Flag::Unknown,
        run_cmd::flag_of(Some("--window-ops"@), false) == Flag::Unknown,
        run_cmd::flag_of(Some("--record"@), false) == Flag::Unknown,
        run_cmd::flag_of(Some("--listen"@), false) == Flag::Unknown,
        run_cmd::flag_of(Some("--broker"@), false) == Flag::Unknown,
        run_cmd::flag_of(Some("--host-id"@), false) == Flag::Unknown,
        run_cmd::flag_of(Some("--spawn"@), false) == Flag::Unknown,
{
    lemma_narrow_strings();
    lemma_wide_strings();
}

/// Reading on at `i` with the options `d` is reading on at `j` with `e`.
pub open spec fn leads_to(
    args: Seq<Seq<u8>>,
    rows: Seq<Vec<Option<u64>>>,
    wide: bool,
    i: int,
    d: DraftView,
    j: int,
    e: DraftView,
) -> bool {
    run_cmd::parsed(args, rows, i, d, wide) == run_cmd::parsed(args, rows, j, e, wide)
}

/// Whether the arguments from `i` on, read with the options `d`, are refused.
pub open spec fn refused(
    args: Seq<Seq<u8>>,
    rows: Seq<Vec<Option<u64>>>,
    wide: bool,
    i: int,
    d: DraftView,
) -> bool {
    run_cmd::parsed(args, rows, i, d, wide) is Err
}

/// The options that stand alone.
pub proof fn law_bare_options(
    args: Seq<Seq<u8>>,
    rows: Seq<Vec<Option<u64>>>,
    wide: bool,
    i: int,
    d: DraftView,
)
    ensures
        says(args, i, "--trace"@) ==> leads_to(
            args,
            rows,
            wide,
            i,
            d,
            i + 1,
            DraftView { trace: true, ..d },
        ),
        says(args, i, "--stats"@) ==> leads_to(
            args,
            rows,
            wide,
            i,
            d,
            i + 1,
            DraftView { stats: true, ..d },
        ),
        says(args, i, "--no-sched"@) ==> leads_to(
            args,
            rows,
            wide,
            i,
            d,
            i + 1,
            DraftView { no_sched: true, ..d },
        ),
        says(args, i, "--"@) && d.program.len() == 0 ==> run_cmd::parsed(args, rows, i, d, wide)
            == Ok::<DraftView, Seq<char>>(DraftView { program: args.skip(i + 1), ..d }),
        says(args, i, "--help"@) ==> refused(args, rows, wide, i, d),
        i == args.len() ==> run_cmd::parsed(args, rows, i, d, wide) == Ok::<DraftView, Seq<char>>(
            d,
        ),
{
    lemma_literals();
    if says(args, i, "--"@) && d.program.len() == 0 {
        assert(d.program + args.skip(i + 1) =~= args.skip(i + 1));
    }
}

proof fn lemma_takes_text(
    args: Seq<Seq<u8>>,
    rows: Seq<Vec<Option<u64>>>,
    wide: bool,
    i: int,
    d: DraftView,
    f: Flag,
    v: Seq<char>,
)
    requires
        0 <= i < args.len(),
        run_cmd::flag_of(cli::arg_text(args[i]), wide) == f,
        f == Flag::Seed || f == Flag::Strategy || f == Flag::Net || f == Flag::Nodes || f
            == Flag::Window || f == Flag::Watchdog || f == Flag::WindowOps || f == Flag::Listen || f
            == Flag::Broker || f == Flag::HostId || f == Flag::Spawn,
        says(args, i + 1, v),
    ensures
        run_cmd::with_text(d, f, v, rows[i + 1]@) matches Ok(e) ==> leads_to(
            args,
            rows,
            wide,
            i,
            d,
            i + 2,
            e,
        ),
        run_cmd::with_text(d, f, v, rows[i + 1]@) is Err ==> refused(args, rows, wide, i, d),
{
}

/// The options with a value that every run has: the seed, the number of nodes
/// from 1 to 64, the strategy, the network, the shim.
pub proof fn law_valued_options(
    args: Seq<Seq<u8>>,
    rows: Seq<Vec<Option<u64>>>,
    wide: bool,
    i: int,
    d: DraftView,
    n: u64,
)
    ensures
        says(args, i, "--seed"@) && says(args, i + 1, text::dec(n as nat)) ==> leads_to(
            args,
            rows,
            wide,
            i,
            d,
            i + 2,
            DraftView { seed: Some(n), ..d },
        ),
        says(args, i, "--nodes"@) && says(args, i + 1, text::dec(n as nat)) && 1 <= n <= 64
            ==> leads_to(args, rows, wide, i, d, i + 2, DraftView { nodes: n as u32, ..d }),
        says(args, i, "--nodes"@) && says(args, i + 1, text::dec(n as nat)) && n <= u32::MAX && !(1
            <= n <= 64) ==> refused(args, rows, wide, i, d),
        says(args, i, "--strategy"@) && says(args, i + 1, "random"@) ==> leads_to(
            args,
            rows,
            wide,
            i,
            d,
            i + 2,
            DraftView { strategy: Strategy::Random, ..d },
        ),
        says(args, i, "--strategy"@) && says(args, i + 1, "rr"@) ==> leads_to(
            args,
            rows,
            wide,
            i,
            d,
            i + 2,
            DraftView { strategy: Strategy::RoundRobin, ..d },
        ),
        says(args, i, "--shim"@) && i + 1 < args.len() ==> leads_to(
            args,
            rows,
            wide,
            i,
            d,
            i + 2,
            DraftView { shim: Some(args[i + 1]), ..d },
        ),
{
    lemma_literals();
    config_laws::lemma_digits(n as nat, u64::MAX as int);
    if n <= u32::MAX {
        config_laws::lemma_digits(n as nat, u32::MAX as int);
    }
    env_laws::law_seed_reads_back(n);
    let t = text::dec(n as nat);
    if says(args, i, "--seed"@) && says(args, i + 1, t) {
        lemma_takes_text(args, rows, wide, i, d, Flag::Seed, t);
    }
    if says(args, i, "--nodes"@) && says(args, i + 1, t) {
        lemma_takes_text(args, rows, wide, i, d, Flag::Nodes, t);
    }
    lemma_strategies();
    if says(args, i, "--strategy"@) && says(args, i + 1, "random"@) {
        lemma_takes_text(args, rows, wide, i, d, Flag::Strategy, "random"@);
    }
    if says(args, i, "--strategy"@) && says(args, i + 1, "rr"@) {
        lemma_takes_text(args, rows, wide, i, d, Flag::Strategy, "rr"@);
    }
}

proof fn lemma_strategies()
    ensures
        crate::abi::strategy_named("random"@) == Some(Strategy::Random),
        crate::abi::strategy_named("rr"@) == Some(Strategy::RoundRobin),
{
    reveal_strlit("random");
    reveal_strlit("rand");
    reveal_strlit("rr");
    text_laws::law_trim_leaves("random"@);
    text_laws::law_trim_leaves("rr"@);
    assert(text::lower_all("random"@) =~= "random"@);
    assert(text::lower_all("rr"@) =~= "rr"@);
}

/// A network is taken as it is written where it describes one, and refused
/// where it does not.
pub proof fn law_network_option(
    args: Seq<Seq<u8>>,
    rows: Seq<Vec<Option<u64>>>,
    wide: bool,
    i: int,
    d: DraftView,
    v: Seq<char>,
)
    requires
        says(args, i, "--net"@),
        says(args, i + 1, v),
    ensures
        ({
            let m = config::model_of(
                0,
                config::clauses_of(v),
                rows[i + 1]@,
                rows[i + 1]@.len() as int,
            );
            &&& m is Ok ==> leads_to(
                args,
                rows,
                wide,
                i,
                d,
                i + 2,
                DraftView { net: Some(v), ..d },
            )
            &&& m is Err ==> refused(args, rows, wide, i, d)
        }),
{
    lemma_literals();
    lemma_takes_text(args, rows, wide, i, d, Flag::Net, v);
}

/// The numbers that a run over hosts takes: the width of a window, which is
/// not zero; the patience of the watchdog; the size of a window; the number of
/// this host.
pub proof fn law_wide_numbers(
    args: Seq<Seq<u8>>,
    rows: Seq<Vec<Option<u64>>>,
    i: int,
    d: DraftView,
    n: u64,
)
    requires
        says(args, i + 1, text::dec(n as nat)),
    ensures
        says(args, i, "--window"@) && n > 0 ==> leads_to(
            args,
            rows,
            true,
            i,
            d,
            i + 2,
            DraftView { window: n, ..d },
        ),
        says(args, i, "--window"@) && n == 0 ==> refused(args, rows, true, i, d),
        says(args, i, "--watchdog"@) ==> leads_to(
            args,
            rows,
            true,
            i,
            d,
            i + 2,
            DraftView { watchdog: n, ..d },
        ),
        says(args, i, "--window-ops"@) && n <= usize::MAX ==> leads_to(
            args,
            rows,
            true,
            i,
            d,
            i + 2,
            DraftView { window_ops: n as usize, ..d },
        ),
        says(args, i, "--host-id"@) && n <= u32::MAX ==> leads_to(
            args,
            rows,
            true,
            i,
            d,
            i + 2,
            DraftView { host_id: n as u32, ..d },
        ),
{
    lemma_wide_literals();
    config_laws::lemma_digits(n as nat, u64::MAX as int);
    if n <= u32::MAX {
        config_laws::lemma_digits(n as nat, u32::MAX as int);
    }
    if n <= usize::MAX {
        config_laws::lemma_digits(n as nat, usize::MAX as int);
    }
    let t = text::dec(n as nat);
    if says(args, i, "--window"@) {
        lemma_takes_text(args, rows, true, i, d, Flag::Window, t);
    }
    if says(args, i, "--watchdog"@) {
        lemma_takes_text(args, rows, true, i, d, Flag::Watchdog, t);
    }
    if says(args, i, "--window-ops"@) {
        lemma_takes_text(args, rows, true, i, d, Flag::WindowOps, t);
    }
    if says(args, i, "--host-id"@) {
        lemma_takes_text(args, rows, true, i, d, Flag::HostId, t);
    }
}

/// The places that a run over hosts takes: the address to listen on, that of
/// the broker to join, the file to record to, the nodes to launch.
pub proof fn law_wide_places(
    args: Seq<Seq<u8>>,
    rows: Seq<Vec<Option<u64>>>,
    i: int,
    d: DraftView,
    v: Seq<char>,
    lo: u32,
    hi: u32,
)
    requires
        says(args, i + 1, v),
    ensures
        says(args, i, "--listen"@) ==> leads_to(
            args,
            rows,
            true,
            i,
            d,
            i + 2,
            DraftView { listen: Some(v), ..d },
        ),
        says(args, i, "--broker"@) ==> leads_to(
            args,
            rows,
            true,
            i,
            d,
            i + 2,
            DraftView { broker: Some(v), ..d },
        ),
        says(args, i, "--record"@) ==> leads_to(
            args,
            rows,
            true,
            i,
            d,
            i + 2,
            DraftView { record: Some(args[i + 1]), ..d },
        ),
        says(args, i, "--spawn"@) && v == text::dec(lo as nat) + seq!['-'] + text::dec(hi as nat)
            && lo <= hi ==> leads_to(
            args,
            rows,
            true,
            i,
            d,
            i + 2,
            DraftView { spawn: Some((lo, hi)), ..d },
        ),
        says(args, i, "--spawn"@) && v == text::dec(lo as nat) + seq!['-'] + text::dec(hi as nat)
            && hi < lo ==> refused(args, rows, true, i, d),
{
    lemma_wide_literals();
    if says(args, i, "--listen"@) {
        lemma_takes_text(args, rows, true, i, d, Flag::Listen, v);
    }
    if says(args, i, "--broker"@) {
        lemma_takes_text(args, rows, true, i, d, Flag::Broker, v);
    }
    if says(args, i, "--spawn"@) {
        config_laws::lemma_digits(lo as nat, u32::MAX as int);
        config_laws::lemma_digits(hi as nat, u32::MAX as int);
        text_laws::law_split_once_undoes(text::dec(lo as nat), '-', text::dec(hi as nat));
        lemma_takes_text(args, rows, true, i, d, Flag::Spawn, v);
    }
}

/// A run on one host takes none of the options of a run over hosts.
pub proof fn law_narrow_run(
    args: Seq<Seq<u8>>,
    rows: Seq<Vec<Option<u64>>>,
    i: int,
    d: DraftView,
)
    ensures
        says(args, i, "--window"@) || says(args, i, "--watchdog"@) || says(args, i, "--window-ops"@)
            || says(args, i, "--record"@) || says(args, i, "--listen"@) || says(
            args,
            i,
            "--broker"@,
        ) || says(args, i, "--host-id"@) || says(args, i, "--spawn"@) ==> refused(
            args,
            rows,
            false,
            i,
            d,
        ),
{
    lemma_wide_literals();
}

/// Options are accepted, and then as they are, if and only if there are a seed
/// and a program, and what needs a network, a window or the hosting side comes
/// with it.
pub proof fn law_accepted(d: DraftView, wide: bool)
    ensures
        run_cmd::settled(d, wide) is Ok <==> {
            &&& d.seed is Some
            &&& d.program.len() > 0
            &&& d.net is None ==> {
                &&& d.nodes <= 1
                &&& d.record is None
                &&& d.window == 0
                &&& d.watchdog == 0
                &&& d.listen is None
                &&& d.broker is None
                &&& d.spawn is None
                &&& d.host_id == 0
            }
            &&& d.window == 0 ==> d.window_ops == 0
            &&& d.listen is None || d.broker is None
            &&& d.broker is Some ==> d.record is None && d.watchdog == 0
            &&& d.spawn is Some ==> d.spawn.unwrap().1 < d.nodes
        },
        run_cmd::settled(d, wide) matches Ok(e) ==> e == d,
{
}

/// With a seed and a program alone a run has one node, no network, no window,
/// no watchdog and no recording, and is scheduled at random.
pub proof fn law_defaults(
    args: Seq<Seq<u8>>,
    rows: Seq<Vec<Option<u64>>>,
    wide: bool,
    n: u64,
    program: Seq<Seq<u8>>,
)
    requires
        args.len() == 3 + program.len(),
        says(args, 0, "--seed"@),
        says(args, 1, text::dec(n as nat)),
        says(args, 2, "--"@),
        args.skip(3) == program,
        program.len() > 0,
    ensures
        run_cmd::options_of(args, rows, wide) == Ok::<DraftView, Seq<char>>(
            (DraftView {
                seed: Some(n),
                trace: false,
                stats: false,
                no_sched: false,
                strategy: Strategy::Random,
                net: None,
                nodes: 1,
                window: 0,
                watchdog: 0,
                window_ops: 0,
                record: None,
                listen: None,
                broker: None,
                spawn: None,
                host_id: 0,
                shim: None,
                program,
            }),
        ),
{
    let d = run_cmd::no_options();
    law_valued_options(args, rows, wide, 0, d, n);
    law_bare_options(args, rows, wide, 2, DraftView { seed: Some(n), ..d });
}

/// Every argument must be an option or the value of one, up to the separator;
/// and an option with a value must have it.
pub proof fn law_misplaced(
    args: Seq<Seq<u8>>,
    rows: Seq<Vec<Option<u64>>>,
    wide: bool,
    i: int,
    d: DraftView,
    t: Seq<char>,
)
    requires
        says(args, i, t),
    ensures
        t.len() > 0 && t[0] != '-' ==> refused(args, rows, wide, i, d),
        i + 1 == args.len() && t.len() > 2 && t != "--trace"@ && t != "--verbose"@ && t
            != "--stats"@ && t != "--no-sched"@ ==> refused(args, rows, wide, i, d),
{
    lemma_narrow_strings();
    lemma_wide_strings();
    lemma_dashes();
}

proof fn lemma_dashes()
    ensures
        "--seed"@[0] == '-' && "--strategy"@[0] == '-' && "--trace"@[0] == '-' && "--verbose"@[0]
            == '-' && "--stats"@[0] == '-' && "--no-sched"@[0] == '-' && "--net"@[0] == '-'
            && "--nodes"@[0] == '-' && "--shim"@[0] == '-' && "-h"@[0] == '-' && "--help"@[0] == '-'
            && "--"@[0] == '-' && "--window"@[0] == '-' && "--watchdog"@[0] == '-'
            && "--window-ops"@[0] == '-' && "--record"@[0] == '-' && "--listen"@[0] == '-'
            && "--broker"@[0] == '-' && "--host-id"@[0] == '-' && "--spawn"@[0] == '-',
{
    reveal_strlit("--seed");
    reveal_strlit("--strategy");
    reveal_strlit("--trace");
    reveal_strlit("--verbose");
    reveal_strlit("--stats");
    reveal_strlit("--no-sched");
    reveal_strlit("--net");
    reveal_strlit("--nodes");
    reveal_strlit("--shim");
    reveal_strlit("-h");
    reveal_strlit("--help");
    reveal_strlit("--");
    reveal_strlit("--window");
    reveal_strlit("--watchdog");
    reveal_strlit("--window-ops");
    reveal_strlit("--record");
    reveal_strlit("--listen");
    reveal_strlit("--broker");
    reveal_strlit("--host-id");
    reveal_strlit("--spawn");
}

} // verus!
