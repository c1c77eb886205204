//! The laws of what a target is told: it reads back as what was asked for.

use vstd::prelude::*;

use crate::abi;
use crate::abi::Strategy;
use crate::cluster;
use crate::cluster::{ValueView, VarView};
use crate::run_cmd::DraftView;
use crate::text;

verus! {

/// The environment gives `name` the value `x`, and no other.
pub open spec fn tells(v: Seq<VarView>, name: Seq<char>, x: ValueView) -> bool {
    &&& exists|i: int| 0 <= i < v.len() && (#[trigger] v[i]).name == name
    &&& forall|i: int| 0 <= i < v.len() && (#[trigger] v[i]).name == name ==> v[i].value == x
    &&& forall|i: int, j: int|
        0 <= i < v.len() && 0 <= j < v.len() && (#[trigger] v[i]).name == name && (
        #[trigger] v[j]).name == name ==> i == j
}

/// The environment gives `name` no value.
pub open spec fn silent(v: Seq<VarView>, name: Seq<char>) -> bool {
    forall|i: int| 0 <= i < v.len() ==> (#[trigger] v[i]).name != name
}

/// `name` has the value `x` where `b`, else none.
pub open spec fn tells_if(v: Seq<VarView>, b: bool, name: Seq<char>, x: Seq<char>) -> bool {
    if b {
        tells(v, name, ValueView::Text(x))
    } else {
        silent(v, name)
    }
}

proof fn lemma_names()
    ensures
        "LD_PRELOAD"@.len() == 10 && "LD_PRELOAD"@[0] == 'L',
        "WEFT_SEED"@.len() == 9,
        "WEFT_STRATEGY"@.len() == 13,
        "WEFT_TRACE"@.len() == 10 && "WEFT_TRACE"@[0] == 'W' && "WEFT_TRACE"@[5] == 'T',
        "WEFT_SCHED_STATS"@.len() == 16,
        "WEFT_SCHED"@.len() == 10 && "WEFT_SCHED"@[0] == 'W' && "WEFT_SCHED"@[5] == 'S',
        "WEFT_BROKER"@.len() == 11,
        "WEFT_NODE_ID"@.len() == 12 && "WEFT_NODE_ID"@[5] == 'N',
        "WEFT_NET"@.len() == 8,
        "WEFT_WINDOW_NS"@.len() == 14,
        "WEFT_HOST_ID"@.len() == 12 && "WEFT_HOST_ID"@[5] == 'H',
{
    reveal_strlit("LD_PRELOAD");
    reveal_strlit("WEFT_SEED");
    reveal_strlit("WEFT_STRATEGY");
    reveal_strlit("WEFT_TRACE");
    reveal_strlit("WEFT_SCHED_STATS");
    reveal_strlit("WEFT_SCHED");
    reveal_strlit("WEFT_BROKER");
    reveal_strlit("WEFT_NODE_ID");
    reveal_strlit("WEFT_NET");
    reveal_strlit("WEFT_WINDOW_NS");
    reveal_strlit("WEFT_HOST_ID");
}

/// A seed in decimal is read back.
pub proof fn law_seed_reads_back(n: u64)
    ensures
        abi::seed_value(text::dec(n as nat)) == Some(n as int),
{
    let t = text::dec(n as nat);
    text::lemma_dec(n as nat);
    assert forall|i: int| 0 <= i < t.len() implies !text::is_white(#[trigger] t[i]) by {
        assert(text::digit(t[i], 10) is Some);
    }
    assert(text::trim_start(t) == t);
    assert(text::trim(t) == t);
    if t.len() >= 2 {
        assert(text::digit(t[1], 10) is Some);
    }
    assert(text::digit(t[0], 10) is Some);
}

/// A target is told the seed and the strategy that were asked for, each once,
/// in words that read back as they are; the shim is the first thing to be
/// preloaded, in front of what was preloaded anyway; and tracing, statistics
/// and free scheduling are asked for if and only if they were.
#[verifier::spinoff_prover]
#[verifier::rlimit(40)]
pub proof fn law_target_is_told(d: DraftView, shim: Seq<u8>, existing: Option<Seq<u8>>)
    requires
        d.seed is Some,
    ensures
        ({
            let v = cluster::target_vars(d, shim, existing);
            let seed = v[1].value->Text_0;
            let how = v[2].value->Text_0;
            let load = v[0].value->Raw_0;
            &&& tells(v, "WEFT_SEED"@, ValueView::Text(seed))
            &&& abi::seed_value(seed) == Some(d.seed.unwrap() as int)
            &&& tells(v, "WEFT_STRATEGY"@, ValueView::Text(how))
            &&& abi::strategy_named(how) == Some(d.strategy)
            &&& d.strategy == Strategy::Random ==> how == "random"@
            &&& d.strategy == Strategy::RoundRobin ==> how == "rr"@
            &&& tells(v, "LD_PRELOAD"@, ValueView::Raw(load))
            &&& shim.len() <= load.len() && load.take(shim.len() as int) == shim
            &&& existing is Some && existing.unwrap().len() > 0 ==> load.len() == shim.len() + 1
                + existing.unwrap().len() && load[shim.len() as int] == 58 && load.skip(
                shim.len() as int + 1,
            ) == existing.unwrap()
            &&& existing is None || existing.unwrap().len() == 0 ==> load == shim
            &&& tells_if(v, d.trace, "WEFT_TRACE"@, "1"@)
            &&& tells_if(v, d.stats, "WEFT_SCHED_STATS"@, "1"@)
            &&& tells_if(v, d.no_sched, "WEFT_SCHED"@, "0"@)
        }),
{
    let v = cluster::target_vars(d, shim, existing);
    let load = cluster::preload_of(shim, existing);
    lemma_names();
    law_seed_reads_back(d.seed.unwrap());
    abi::law_strategy_round_trip(d.strategy);
    assert(load.take(shim.len() as int) =~= shim);
    if existing is Some && existing.unwrap().len() > 0 {
        assert(load.skip(shim.len() as int + 1) =~= existing.unwrap());
    }
    let a = cluster::told_if(d.trace, "WEFT_TRACE"@, "1"@);
    let b = cluster::told_if(d.stats, "WEFT_SCHED_STATS"@, "1"@);
    let c = cluster::told_if(d.no_sched, "WEFT_SCHED"@, "0"@);
    let head = seq![v[0], v[1], v[2]];
    assert(v =~= head + a + b + c);
    assert(v[0].name == "LD_PRELOAD"@ && v[1].name == "WEFT_SEED"@ && v[2].name
        == "WEFT_STRATEGY"@);
    assert forall|i: int| 3 <= i < v.len() implies {
        let n = #[trigger] v[i].name;
        ||| i == 3 && d.trace && v[i] == a[0]
        ||| i == 3 + a.len() && d.stats && v[i] == b[0]
        ||| i == 3 + a.len() + b.len() && d.no_sched && v[i] == c[0]
    } by {
        if i < 3 + a.len() {
            assert(v[i] == a[i - 3]);
        } else if i < 3 + a.len() + b.len() {
            assert(v[i] == b[i - 3 - a.len()]);
        } else {
            assert(v[i] == c[i - 3 - a.len() - b.len()]);
        }
    }
    if d.trace {
        assert(v[3] == a[0]);
    }
    if d.stats {
        assert(v[(3 + a.len()) as int] == b[0]);
    }
    if d.no_sched {
        assert(v[(3 + a.len() + b.len()) as int] == c[0]);
    }
}

/// Options that differ in what a target is to do give it different
/// environments.
pub proof fn law_different_options_are_told_apart(
    d: DraftView,
    e: DraftView,
    shim: Seq<u8>,
    existing: Option<Seq<u8>>,
)
    requires
        d.seed is Some,
        e.seed is Some,
        cluster::target_vars(d, shim, existing) == cluster::target_vars(e, shim, existing),
    ensures
        d.seed == e.seed,
        d.strategy == e.strategy,
        d.trace == e.trace,
        d.stats == e.stats,
        d.no_sched == e.no_sched,
{
    law_target_is_told(d, shim, existing);
    law_target_is_told(e, shim, existing);
}

/// A node of a cluster is told where the broker is, which node it is and what
/// the network is like; and, if and only if there are windows, how wide they
/// are, and if and only if it is not the first host, which host it is. The
/// numbers read back as they are.
#[verifier::spinoff_prover]
#[verifier::rlimit(40)]
pub proof fn law_node_is_told(d: DraftView, node: u32, endpoint: Seq<u8>)
    ensures
        ({
            let v = cluster::node_vars(d, node, endpoint);
            let who = v[1].value->Text_0;
            let net = v[2].value->Text_0;
            &&& tells(v, "WEFT_BROKER"@, ValueView::Raw(endpoint))
            &&& tells(v, "WEFT_NODE_ID"@, ValueView::Text(who))
            &&& text::parse_uint(who, 10, u32::MAX as int) == Some(node as int)
            &&& tells(v, "WEFT_NET"@, ValueView::Text(net))
            &&& d.net matches Some(s) ==> net == s
            &&& d.net is None ==> net.len() == 0
            &&& d.window == 0 ==> silent(v, "WEFT_WINDOW_NS"@)
            &&& d.window > 0 ==> {
                let x = v[3].value->Text_0;
                tells(v, "WEFT_WINDOW_NS"@, ValueView::Text(x)) && text::parse_uint(
                    x,
                    10,
                    u64::MAX as int,
                ) == Some(d.window as int)
            }
            &&& d.host_id == 0 ==> silent(v, "WEFT_HOST_ID"@)
            &&& d.host_id > 0 ==> {
                let x = v.last().value->Text_0;
                tells(v, "WEFT_HOST_ID"@, ValueView::Text(x)) && text::parse_uint(
                    x,
                    10,
                    u32::MAX as int,
                ) == Some(d.host_id as int)
            }
        }),
{
    let v = cluster::node_vars(d, node, endpoint);
    lemma_names();
    lemma_reads(node as nat, u32::MAX as int);
    lemma_reads(d.window as nat, u64::MAX as int);
    lemma_reads(d.host_id as nat, u32::MAX as int);
    let a = cluster::told_if(d.window > 0, "WEFT_WINDOW_NS"@, text::dec(d.window as nat));
    let b = cluster::told_if(d.host_id > 0, "WEFT_HOST_ID"@, text::dec(d.host_id as nat));
    let head = seq![v[0], v[1], v[2]];
    assert(v =~= head + a + b);
    assert(v[0].name == "WEFT_BROKER"@ && v[1].name == "WEFT_NODE_ID"@ && v[2].name
        == "WEFT_NET"@);
    assert forall|i: int| 3 <= i < v.len() implies {
        let n = #[trigger] v[i].name;
        ||| i == 3 && d.window > 0 && v[i] == a[0]
        ||| i == 3 + a.len() && d.host_id > 0 && v[i] == b[0]
    } by {
        if i < 3 + a.len() {
            assert(v[i] == a[i - 3]);
        } else {
            assert(v[i] == b[i - 3 - a.len()]);
        }
    }
    if d.window > 0 {
        assert(v[3] == a[0]);
    }
    if d.host_id > 0 {
        assert(v[(3 + a.len()) as int] == b[0]);
        assert(v.last() == b[0]);
    }
}

proof fn lemma_reads(n: nat, max: int)
    requires
        n <= max,
    ensures
        text::parse_uint(text::dec(n), 10, max) == Some(n as int),
{
    text::lemma_dec(n);
    assert(text::digit(text::dec(n)[0], 10) is Some);
}

} // verus!
