//! The laws of complaints: each names what it is about.

use vstd::prelude::*;

use crate::config;
use crate::config::ParseErrorView;
use crate::run_cmd;
use crate::run_cmd::Flag;
use crate::text;
use crate::timeline_laws::{holds, lemma_holds};

verus! {

/// A complaint on a network holds what is wrong with it.
pub proof fn law_network_complaints(e: ParseErrorView)
    ensures
        e matches ParseErrorView::NotKeyValue(a) ==> holds(
            config::error_text(e),
            text::debug_form(a),
        ),
        e matches ParseErrorView::UnknownKey(a) ==> holds(
            config::error_text(e),
            text::debug_form(a),
        ),
        e matches ParseErrorView::InvalidLatency(a, why) ==> holds(
            config::error_text(e),
            text::debug_form(a),
        ) && holds(config::error_text(e), why),
        e matches ParseErrorView::InvalidLoss(a) ==> holds(
            config::error_text(e),
            text::debug_form(a),
        ),
        e matches ParseErrorView::InvalidBandwidth(a) ==> holds(
            config::error_text(e),
            text::debug_form(a),
        ),
        e matches ParseErrorView::InvalidPartition(a) ==> holds(
            config::error_text(e),
            text::debug_form(a),
        ),
{
    let t = config::error_text(e);
    let n = Seq::<char>::empty();
    match e {
        ParseErrorView::NotKeyValue(a) => {
            lemma_holds(t, "network clause "@, text::debug_form(a), " is not key=value"@);
        },
        ParseErrorView::UnknownKey(a) => {
            lemma_holds(t, "unknown network key "@, text::debug_form(a), n);
        },
        ParseErrorView::InvalidLatency(a, why) => {
            lemma_holds(t, "latency "@, text::debug_form(a), ": "@ + why);
            lemma_holds(t, "latency "@ + text::debug_form(a) + ": "@, why, n);
        },
        ParseErrorView::InvalidLoss(a) => {
            lemma_holds(t, "loss "@, text::debug_form(a), " is not a probability in [0,1]"@);
        },
        ParseErrorView::InvalidBandwidth(a) => {
            lemma_holds(t, "bw "@, text::debug_form(a), " is not an integer"@);
        },
        ParseErrorView::InvalidPartition(a) => {
            lemma_holds(t, "partition: bad node id "@, text::debug_form(a), n);
        },
    }
}

/// A complaint on a value of an option holds the option, the value and what is
/// wrong with it.
pub proof fn law_value_complaints(flag: Seq<char>, v: Seq<char>, why: Seq<char>)
    ensures
        holds(run_cmd::bad_value(flag, v, why), flag),
        holds(run_cmd::bad_value(flag, v, why), text::debug_form(v)),
        holds(run_cmd::bad_value(flag, v, why), why),
{
    let t = run_cmd::bad_value(flag, v, why);
    let n = Seq::<char>::empty();
    lemma_holds(t, n, flag, text::debug_form(v) + why);
    lemma_holds(t, flag, text::debug_form(v), why);
    lemma_holds(t, flag + text::debug_form(v), why, n);
}

/// The name of an option that takes a value.
pub open spec fn option_name(f: Flag) -> Seq<char> {
    match f {
        Flag::Seed => "--seed"@,
        Flag::Strategy => "--strategy"@,
        Flag::Net => "--net"@,
        Flag::Nodes => "--nodes"@,
        Flag::Window => "--window"@,
        Flag::Watchdog => "--watchdog"@,
        Flag::WindowOps => "--window-ops"@,
        Flag::Record => "--record"@,
        Flag::Listen => "--listen"@,
        Flag::Broker => "--broker"@,
        Flag::HostId => "--host-id"@,
        Flag::Spawn => "--spawn"@,
        _ => "--shim"@,
    }
}

/// `t` starts with `name`.
proof fn lemma_starts(t: Seq<char>, name: Seq<char>)
    requires
        name.len() <= t.len(),
        forall|i: int| 0 <= i < name.len() ==> t[i] == name[i],
    ensures
        holds(t, name),
{
    lemma_holds(t, Seq::empty(), name, t.skip(name.len() as int));
}

/// A complaint that an option has no value names the option.
pub proof fn law_missing_values(f: Flag)
    requires
        f == Flag::Seed || f == Flag::Strategy || f == Flag::Net || f == Flag::Nodes || f == Flag::Window || f == Flag::Watchdog || f == Flag::WindowOps || f == Flag::Record || f == Flag::Listen || f == Flag::Broker || f == Flag::HostId || f == Flag::Spawn || f == Flag::Shim,
    ensures
        holds(run_cmd::missing_text(f), option_name(f)),
{
    let t = run_cmd::missing_text(f);
    match f {
        Flag::Seed => {
            reveal_strlit("--seed requires a value");
            reveal_strlit("--seed");
            lemma_starts(t, "--seed"@);
        },
        Flag::Strategy => {
            reveal_strlit("--strategy requires a value");
            reveal_strlit("--strategy");
            lemma_starts(t, "--strategy"@);
        },
        Flag::Net => {
            reveal_strlit("--net requires a spec (may be empty: \"\")");
            reveal_strlit("--net");
            lemma_starts(t, "--net"@);
        },
        Flag::Nodes => {
            reveal_strlit("--nodes requires a count");
            reveal_strlit("--nodes");
            lemma_starts(t, "--nodes"@);
        },
        Flag::Window => {
            reveal_strlit("--window requires a width in ns");
            reveal_strlit("--window");
            lemma_starts(t, "--window"@);
        },
        Flag::Watchdog => {
            reveal_strlit("--watchdog requires a value in seconds");
            reveal_strlit("--watchdog");
            lemma_starts(t, "--watchdog"@);
        },
        Flag::WindowOps => {
            reveal_strlit("--window-ops requires a count");
            reveal_strlit("--window-ops");
            lemma_starts(t, "--window-ops"@);
        },
        Flag::Record => {
            reveal_strlit("--record requires a log path");
            reveal_strlit("--record");
            lemma_starts(t, "--record"@);
        },
        Flag::Listen => {
            reveal_strlit("--listen requires an IP:PORT address");
            reveal_strlit("--listen");
            lemma_starts(t, "--listen"@);
        },
        Flag::Broker => {
            reveal_strlit("--broker requires an IP:PORT address");
            reveal_strlit("--broker");
            lemma_starts(t, "--broker"@);
        },
        Flag::HostId => {
            reveal_strlit("--host-id requires a value");
            reveal_strlit("--host-id");
            lemma_starts(t, "--host-id"@);
        },
        Flag::Spawn => {
            reveal_strlit("--spawn requires a LO-HI node id range");
            reveal_strlit("--spawn");
            lemma_starts(t, "--spawn"@);
        },
        _ => {
            reveal_strlit("--shim requires a path");
            reveal_strlit("--shim");
            lemma_starts(t, "--shim"@);
        },
    }
}

/// A complaint that the value of an option is no text names the option.
pub proof fn law_values_that_are_no_text(f: Flag)
    requires
        f == Flag::Seed || f == Flag::Strategy || f == Flag::Net || f == Flag::Nodes || f == Flag::Window || f == Flag::Watchdog || f == Flag::WindowOps || f == Flag::Listen || f == Flag::Broker || f == Flag::HostId || f == Flag::Spawn,
    ensures
        holds(run_cmd::not_text(f), option_name(f)),
{
    let t = run_cmd::not_text(f);
    match f {
        Flag::Seed => {
            reveal_strlit("--seed value is not UTF-8");
            reveal_strlit("--seed");
            lemma_starts(t, "--seed"@);
        },
        Flag::Strategy => {
            reveal_strlit("--strategy value is not UTF-8");
            reveal_strlit("--strategy");
            lemma_starts(t, "--strategy"@);
        },
        Flag::Net => {
            reveal_strlit("--net spec is not UTF-8");
            reveal_strlit("--net");
            lemma_starts(t, "--net"@);
        },
        Flag::Nodes => {
            reveal_strlit("--nodes value is not UTF-8");
            reveal_strlit("--nodes");
            lemma_starts(t, "--nodes"@);
        },
        Flag::Window => {
            reveal_strlit("--window value is not UTF-8");
            reveal_strlit("--window");
            lemma_starts(t, "--window"@);
        },
        Flag::Watchdog => {
            reveal_strlit("--watchdog value is not UTF-8");
            reveal_strlit("--watchdog");
            lemma_starts(t, "--watchdog"@);
        },
        Flag::WindowOps => {
            reveal_strlit("--window-ops value is not UTF-8");
            reveal_strlit("--window-ops");
            lemma_starts(t, "--window-ops"@);
        },
        Flag::Listen => {
            reveal_strlit("--listen address is not UTF-8");
            reveal_strlit("--listen");
            lemma_starts(t, "--listen"@);
        },
        Flag::Broker => {
            reveal_strlit("--broker address is not UTF-8");
            reveal_strlit("--broker");
            lemma_starts(t, "--broker"@);
        },
        Flag::HostId => {
            reveal_strlit("--host-id value is not UTF-8");
            reveal_strlit("--host-id");
            lemma_starts(t, "--host-id"@);
        },
        _ => {
            reveal_strlit("--spawn range is not UTF-8");
            reveal_strlit("--spawn");
            lemma_starts(t, "--spawn"@);
        },
    }
}

} // verus!
