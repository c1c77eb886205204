//! The laws of the commands on recordings and on seeds: each option sets what
//! it names, and the exit code says what was found.

use vstd::prelude::*;

use crate::config;
use crate::config_laws;
use crate::fuzz_cmd;
use crate::fuzz_config;
use crate::fuzz_config::{ConfigFields, ConfigView, WorkloadFields};
use crate::option_laws::says;
use crate::replay::OutcomeView;
use crate::replay_cmd;
use crate::text;
use crate::text_laws;

verus! {

// ---------------------------------------------------------------------------
// Replaying
// ---------------------------------------------------------------------------

proof fn lemma_replay_strings()
    ensures
        "--until"@.len() == 7 && "--until"@[2] == 'u',
        "--check"@.len() == 7 && "--check"@[2] == 'c',
        "-h"@.len() == 2,
        "--help"@.len() == 6,
        "--until"@[0] == '-' && "--check"@[0] == '-' && "-h"@[0] == '-' && "--help"@[0] == '-',
{
    reveal_strlit("--until");
    reveal_strlit("--check");
    reveal_strlit("-h");
    reveal_strlit("--help");
}

/// How far to replay and what to check are taken from the options of that
/// name, the checks of all of them together; the one other argument is the
/// recording.
pub proof fn law_replay_options(
    args: Seq<Seq<u8>>,
    i: int,
    d: replay_cmd::OptsView,
    n: u64,
    v: Seq<char>,
    rules: Seq<Seq<char>>,
)
    ensures
        says(args, i, "--until"@) && says(args, i + 1, text::dec(n as nat)) ==> replay_cmd::parsed(
            args,
            i,
            d,
        ) == replay_cmd::parsed(
            args,
            i + 2,
            replay_cmd::OptsView { until: Some(n), ..d },
        ),
        says(args, i, "--check"@) && says(args, i + 1, v) && replay_cmd::rules_of(v) == Ok::<
            Seq<Seq<char>>,
            Seq<char>,
        >(rules) ==> replay_cmd::parsed(args, i, d) == replay_cmd::parsed(
            args,
            i + 2,
            replay_cmd::OptsView { checks: d.checks + rules, ..d },
        ),
        says(args, i, "--check"@) && says(args, i + 1, v) && replay_cmd::rules_of(v) is Err
            ==> replay_cmd::parsed(args, i, d) is Err,
        says(args, i, "--help"@) || says(args, i, "-h"@) ==> replay_cmd::parsed(args, i, d) is Err,
        says(args, i, v) && (v.len() == 0 || v[0] != '-') && d.log is None ==> replay_cmd::parsed(
            args,
            i,
            d,
        ) == replay_cmd::parsed(args, i + 1, replay_cmd::OptsView { log: Some(args[i]), ..d }),
        says(args, i, v) && (v.len() == 0 || v[0] != '-') && d.log is Some ==> replay_cmd::parsed(
            args,
            i,
            d,
        ) is Err,
        i == args.len() ==> replay_cmd::parsed(args, i, d) == Ok::<
            replay_cmd::OptsView,
            Seq<char>,
        >(d),
{
    lemma_replay_strings();
    config_laws::lemma_digits(n as nat, u64::MAX as int);
}

/// A recording must be named; with nothing else all of it is replayed and
/// nothing checked.
pub proof fn law_replay_needs_a_recording(args: Seq<Seq<u8>>, v: Seq<char>)
    requires
        v.len() == 0 || v[0] != '-',
    ensures
        args.len() == 0 ==> replay_cmd::options_of(args) is Err,
        args.len() == 1 && says(args, 0, v) ==> replay_cmd::options_of(args) == Ok::<
            replay_cmd::OptsView,
            Seq<char>,
        >(replay_cmd::OptsView { log: Some(args[0]), until: None, checks: Seq::empty() }),
{
    let d = replay_cmd::no_options();
    law_replay_options(args, 0, d, 0, v, Seq::empty());
    law_replay_options(
        args,
        1,
        replay_cmd::OptsView { log: Some(args[0]), ..d },
        0,
        v,
        Seq::empty(),
    );
}

/// A list of rules is taken as it is written, each rule under its own name;
/// one that is unknown refuses the list; and `all` is both.
pub proof fn law_rules_are_named(names: Seq<Seq<char>>)
    requires
        names.len() > 0,
        forall|i: int| 0 <= i < names.len() ==> text_laws::free_of(#[trigger] names[i], ','),
    ensures
        (forall|i: int|
            0 <= i < names.len() ==> #[trigger] names[i] == "fifo"@ || names[i] == "dup"@
                || names[i] == "per-channel-fifo"@ || names[i] == "no-duplicate-delivery"@)
            ==> replay_cmd::rules_of(text_laws::joined(names, ',')) == Ok::<
            Seq<Seq<char>>,
            Seq<char>,
        >(names),
        (exists|i: int|
            0 <= i < names.len() && #[trigger] names[i] != "fifo"@ && names[i] != "dup"@ && names[i]
                != "per-channel-fifo"@ && names[i] != "no-duplicate-delivery"@ && names[i] != "all"@
                && names[i].len() > 0) ==> replay_cmd::rules_of(text_laws::joined(names, ','))
            is Err,
        names == seq!["all"@] ==> replay_cmd::rules_of(text_laws::joined(names, ',')) == Ok::<
            Seq<Seq<char>>,
            Seq<char>,
        >(seq!["fifo"@, "dup"@]),
{
    text_laws::law_split_undoes(names, ',');
    reveal_strlit("fifo");
    reveal_strlit("dup");
    reveal_strlit("per-channel-fifo");
    reveal_strlit("no-duplicate-delivery");
    reveal_strlit("all");
    if forall|i: int|
        0 <= i < names.len() ==> #[trigger] names[i] == "fifo"@ || names[i] == "dup"@ || names[i]
            == "per-channel-fifo"@ || names[i] == "no-duplicate-delivery"@ {
        lemma_known(names, names.len() as int);
        assert(names.take(names.len() as int) =~= names);
    }
    if exists|i: int|
        0 <= i < names.len() && #[trigger] names[i] != "fifo"@ && names[i] != "dup"@ && names[i]
            != "per-channel-fifo"@ && names[i] != "no-duplicate-delivery"@ && names[i] != "all"@
            && names[i].len() > 0 {
        let k = choose|i: int|
            0 <= i < names.len() && #[trigger] names[i] != "fifo"@ && names[i] != "dup"@ && names[i]
                != "per-channel-fifo"@ && names[i] != "no-duplicate-delivery"@ && names[i] != "all"@
                && names[i].len() > 0;
        lemma_unknown(names, k, names.len() as int);
    }
    if names == seq!["all"@] {
        reveal_with_fuel(replay_cmd::rules_named, 2);
        assert(replay_cmd::rules_named(names, 1) == Ok::<Seq<Seq<char>>, Seq<char>>(
            Seq::empty().push("fifo"@).push("dup"@),
        ));
        assert(Seq::empty().push("fifo"@).push("dup"@) =~= seq!["fifo"@, "dup"@]);
    }
}

proof fn lemma_known(names: Seq<Seq<char>>, n: int)
    requires
        0 <= n <= names.len(),
        "fifo"@.len() > 0 && "dup"@.len() > 0 && "per-channel-fifo"@.len() > 0
            && "no-duplicate-delivery"@.len() > 0,
        forall|i: int|
            0 <= i < names.len() ==> #[trigger] names[i] == "fifo"@ || names[i] == "dup"@
                || names[i] == "per-channel-fifo"@ || names[i] == "no-duplicate-delivery"@,
    ensures
        replay_cmd::rules_named(names, n) == Ok::<Seq<Seq<char>>, Seq<char>>(names.take(n)),
    decreases n,
{
    if n > 0 {
        lemma_known(names, n - 1);
        assert(names.take(n) =~= names.take(n - 1).push(names[n - 1]));
    } else {
        assert(names.take(0) =~= Seq::<Seq<char>>::empty());
    }
}

proof fn lemma_unknown(names: Seq<Seq<char>>, k: int, n: int)
    requires
        0 <= k < n <= names.len(),
        names[k] != "fifo"@ && names[k] != "dup"@ && names[k] != "per-channel-fifo"@ && names[k]
            != "no-duplicate-delivery"@ && names[k] != "all"@ && names[k].len() > 0,
    ensures
        replay_cmd::rules_named(names, n) is Err,
    decreases n,
{
    if k < n - 1 {
        lemma_unknown(names, k, n - 1);
    }
}

/// A replay that diverges ends with 1, one that repeats a violation with 2,
/// and only one that does neither with 0; and it tells of a divergence, and of
/// nothing else, as an error.
pub proof fn law_replay_code(o: OutcomeView)
    ensures
        replay_cmd::code_of(o) == 1 <==> o.divergence is Some,
        replay_cmd::code_of(o) == 2 <==> o.divergence is None && o.violations.len() > 0,
        replay_cmd::code_of(o) == 0 <==> o.divergence is None && o.violations.len() == 0,
        replay_cmd::err_text(o).len() > 0 <==> o.divergence is Some,
{
    reveal_strlit("weft replay: DIVERGED at op ");
}

// ---------------------------------------------------------------------------
// Fuzzing
// ---------------------------------------------------------------------------

proof fn lemma_fuzz_strings()
    ensures
        "--config"@.len() == 8,
        "--seeds"@.len() == 7,
        "--time-budget"@.len() == 13 && "--time-budget"@[2] == 't',
        "--jobs"@.len() == 6 && "--jobs"@[2] == 'j',
        "--out"@.len() == 5,
        "--no-shrink"@.len() == 11,
        "--regressions"@.len() == 13 && "--regressions"@[2] == 'r',
        "-h"@.len() == 2,
        "--help"@.len() == 6 && "--help"@[2] == 'h',
{
    reveal_strlit("--config");
    reveal_strlit("--seeds");
    reveal_strlit("--time-budget");
    reveal_strlit("--jobs");
    reveal_strlit("--out");
    reveal_strlit("--no-shrink");
    reveal_strlit("--regressions");
    reveal_strlit("-h");
    reveal_strlit("--help");
}

/// The options of fuzzing, each with what it sets.
pub proof fn law_fuzz_options(
    args: Seq<Seq<u8>>,
    i: int,
    d: fuzz_cmd::OptsView,
    v: Seq<char>,
    n: u64,
    m: u64,
)
    ensures
        says(args, i, "--config"@) && says(args, i + 1, v) ==> fuzz_cmd::parsed(args, i, d)
            == fuzz_cmd::parsed(args, i + 2, fuzz_cmd::OptsView { config: Some(v), ..d }),
        says(args, i, "--seeds"@) && says(
            args,
            i + 1,
            text::dec(n as nat) + seq![':'] + text::dec(m as nat),
        ) ==> fuzz_cmd::parsed(args, i, d) == fuzz_cmd::parsed(
            args,
            i + 2,
            fuzz_cmd::OptsView { seeds: Some((n, m)), ..d },
        ),
        says(args, i, "--time-budget"@) && says(args, i + 1, text::dec(n as nat))
            ==> fuzz_cmd::parsed(args, i, d) == fuzz_cmd::parsed(
            args,
            i + 2,
            fuzz_cmd::OptsView { time_budget: Some(n), ..d },
        ),
        says(args, i, "--jobs"@) && says(args, i + 1, text::dec(n as nat)) && n <= usize::MAX
            ==> fuzz_cmd::parsed(args, i, d) == fuzz_cmd::parsed(
            args,
            i + 2,
            fuzz_cmd::OptsView { jobs: Some(n as usize), ..d },
        ),
        says(args, i, "--out"@) && says(args, i + 1, v) ==> fuzz_cmd::parsed(args, i, d)
            == fuzz_cmd::parsed(args, i + 2, fuzz_cmd::OptsView { out: Some(v), ..d }),
        says(args, i, "--regressions"@) && says(args, i + 1, v) ==> fuzz_cmd::parsed(args, i, d)
            == fuzz_cmd::parsed(args, i + 2, fuzz_cmd::OptsView { regressions: Some(v), ..d }),
        says(args, i, "--no-shrink"@) ==> fuzz_cmd::parsed(args, i, d) == fuzz_cmd::parsed(
            args,
            i + 1,
            fuzz_cmd::OptsView { no_shrink: true, ..d },
        ),
        says(args, i, "--help"@) || says(args, i, "-h"@) ==> fuzz_cmd::parsed(args, i, d) is Err,
        i == args.len() ==> fuzz_cmd::parsed(args, i, d) == Ok::<fuzz_cmd::OptsView, Seq<char>>(d),
{
    lemma_fuzz_strings();
    config_laws::lemma_digits(n as nat, u64::MAX as int);
    config_laws::lemma_digits(m as nat, u64::MAX as int);
    if n <= usize::MAX {
        config_laws::lemma_digits(n as nat, usize::MAX as int);
    }
    text_laws::law_split_once_undoes(text::dec(n as nat), ':', text::dec(m as nat));
}

/// A configuration must be named, and with it alone nothing in it is changed.
pub proof fn law_fuzz_needs_a_configuration(args: Seq<Seq<u8>>, v: Seq<char>, c: ConfigView)
    ensures
        args.len() == 0 ==> fuzz_cmd::options_of(args) is Err,
        args.len() == 2 && says(args, 0, "--config"@) && says(args, 1, v) ==> {
            let r = fuzz_cmd::options_of(args);
            r is Ok && r->Ok_0.config == Some(v) && fuzz_cmd::overridden(c, r->Ok_0, Seq::empty())
                == c
        },
{
    let d = fuzz_cmd::no_options();
    law_fuzz_options(args, 0, d, v, 0, 0);
    law_fuzz_options(args, 2, fuzz_cmd::OptsView { config: Some(v), ..d }, v, 0, 0);
    assert(c.regression_seeds + Seq::<u64>::empty() =~= c.regression_seeds);
}

/// What an option says counts in place of the configuration, and what none
/// says is left as it was configured; shrinking can only be turned off, and
/// seeds to try again only be added.
pub proof fn law_options_override(
    c: ConfigView,
    o: fuzz_cmd::OptsView,
    more: Seq<u64>,
    seed: u64,
)
    ensures
        ({
            let r = fuzz_cmd::overridden(c, o, more);
            &&& o.seeds matches Some(s) ==> (r.seed_start, r.seed_count) == s
            &&& o.seeds is None ==> r.seed_start == c.seed_start && r.seed_count == c.seed_count
            &&& r.time_budget_secs == o.time_budget.unwrap_or(c.time_budget_secs)
            &&& r.jobs == o.jobs.unwrap_or(c.jobs)
            &&& o.out matches Some(dir) ==> r.out_dir == dir
            &&& o.out is None ==> r.out_dir == c.out_dir
            &&& r.shrink <==> c.shrink && !o.no_shrink
            &&& c.regression_seeds.contains(seed) || more.contains(seed)
                <==> r.regression_seeds.contains(seed)
            &&& r.workload == c.workload && r.net == c.net && r.invariants == c.invariants
        }),
{
    let all = c.regression_seeds + more;
    if c.regression_seeds.contains(seed) {
        let k = choose|k: int| 0 <= k < c.regression_seeds.len() && c.regression_seeds[k] == seed;
        assert(all[k] == seed);
    }
    if more.contains(seed) {
        let k = choose|k: int| 0 <= k < more.len() && more[k] == seed;
        assert(all[c.regression_seeds.len() + k] == seed);
    }
    if all.contains(seed) {
        let k = choose|k: int| 0 <= k < all.len() && all[k] == seed;
        if k < c.regression_seeds.len() {
            assert(c.regression_seeds[k] == seed);
        } else {
            assert(more[k - c.regression_seeds.len()] == seed);
        }
    }
}

proof fn lemma_first_unknown(names: Seq<Seq<char>>, i: int)
    requires
        0 <= i <= names.len(),
    ensures
        fuzz_config::first_unknown(names, i) is None <==> forall|j: int|
            i <= j < names.len() ==> #[trigger] names[j] == "fifo"@ || names[j]
                == "per-channel-fifo"@ || names[j] == "dup"@ || names[j]
                == "no-duplicate-delivery"@,
    decreases names.len() - i,
{
    if i < names.len() && fuzz_config::known(names[i]) {
        lemma_first_unknown(names, i + 1);
    }
}

/// A configuration is accepted if and only if it describes a network, has a
/// seed to try, a worker to try it, two nodes to talk and a rule to check, and
/// names no rule but those there are.
pub proof fn law_configuration_is_accepted(c: ConfigView, readings: Seq<Option<u64>>)
    ensures
        fuzz_config::config_error(c, readings) is None <==> {
            &&& config::model_of(
                0,
                config::clauses_of(c.net),
                readings,
                readings.len() as int,
            ) is Ok
            &&& c.seed_count >= 1
            &&& c.jobs >= 1
            &&& c.workload.nodes >= 2
            &&& c.invariants.len() > 0
            &&& forall|j: int|
                0 <= j < c.invariants.len() ==> #[trigger] c.invariants[j] == "fifo"@
                    || c.invariants[j] == "per-channel-fifo"@ || c.invariants[j] == "dup"@
                    || c.invariants[j] == "no-duplicate-delivery"@
        },
{
    lemma_first_unknown(c.invariants, 0);
}

/// What a configuration states counts; what it leaves open is a thousand seeds
/// from zero, no limit in time, both rules, shrinking, and a worker for each
/// core.
pub proof fn law_configuration_is_filled(f: ConfigFields, cores: usize)
    ensures
        ({
            let c = fuzz_config::filled(f, cores);
            &&& c.net == f.net@
            &&& c.seed_start == f.seed_start.unwrap_or(0)
            &&& c.seed_count == f.seed_count.unwrap_or(1000)
            &&& c.jobs == f.jobs.unwrap_or(cores)
            &&& c.time_budget_secs == f.time_budget_secs.unwrap_or(0)
            &&& c.shrink == f.shrink.unwrap_or(true)
            &&& f.invariants matches Some(v) ==> c.invariants.len() == v@.len() && forall|i: int|
                0 <= i < v@.len() ==> #[trigger] c.invariants[i] == v@[i]@
            &&& f.invariants is None ==> c.invariants.len() == 2 && c.invariants[0] == "fifo"@
                && c.invariants[1] == "dup"@
            &&& f.out_dir matches Some(d) ==> c.out_dir == d@
            &&& f.regression_seeds matches Some(s) ==> c.regression_seeds == s@
            &&& f.regression_seeds is None ==> c.regression_seeds.len() == 0
        }),
{
}

/// What the workload of a configuration states counts; what it leaves open is
/// two nodes that send 24 datagrams of four bytes.
pub proof fn law_workload_is_filled(f: ConfigFields, w: WorkloadFields, cores: usize)
    ensures
        ({
            let c = fuzz_config::resolved(fuzz_config::filled(f, cores).workload);
            &&& f.workload == Some(w) ==> c.nodes == w.nodes.unwrap_or(2) && c.sends
                == w.sends.unwrap_or(24) && c.payload_len == w.payload_len.unwrap_or(4)
                && c.workload_seed == w.workload_seed.unwrap_or(0)
            &&& f.workload is None ==> c.nodes == 2 && c.sends == 24 && c.payload_len == 4
                && c.workload_seed == 0
        }),
{
}

} // verus!
