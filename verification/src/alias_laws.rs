//! The laws of names that mean the same: whichever is used, the same is read.

use vstd::prelude::*;

use crate::abi;
use crate::abi::Strategy;
use crate::config;
use crate::config_laws::{clause, kinded, tight};
use crate::fault::ModelView;
use crate::hash;
use crate::json;
use crate::run_cmd;
use crate::text;
use crate::text_laws;
use crate::text_laws::free_of;

verus! {

proof fn lemma_kind(k: Seq<char>, v: Seq<char>)
    requires
        free_of(k, ':'),
    ensures
        config::kind_and_arg(kinded(k, v)) == (k, v),
{
    text_laws::law_split_once_undoes(k, ':', v);
}

/// A latency may be `const` for `fixed`, `unif` for `uniform` and `exponential`
/// for `exp`.
pub proof fn law_kinds_of_latency(v: Seq<char>)
    ensures
        config::latency_of(kinded("const"@, v)) == config::latency_of(kinded("fixed"@, v)),
        config::latency_of(kinded("unif"@, v)) == config::latency_of(kinded("uniform"@, v)),
        config::latency_of(kinded("exponential"@, v)) == config::latency_of(kinded("exp"@, v)),
{
    reveal_strlit("const");
    reveal_strlit("fixed");
    reveal_strlit("unif");
    reveal_strlit("uniform");
    reveal_strlit("exponential");
    reveal_strlit("exp");
    assert("const"@.len() == 5 && "fixed"@.len() == 5 && "unif"@.len() == 4 && "uniform"@.len() == 7
        && "exponential"@.len() == 11 && "exp"@.len() == 3);
    lemma_kind("const"@, v);
    lemma_kind("fixed"@, v);
    lemma_kind("unif"@, v);
    lemma_kind("uniform"@, v);
    lemma_kind("exponential"@, v);
    lemma_kind("exp"@, v);
}

proof fn lemma_clause(k: Seq<char>, v: Seq<char>)
    requires
        tight(k),
        tight(v),
        free_of(k, '='),
    ensures
        clause(k, v).len() > 0,
        text::trim(clause(k, v)) == clause(k, v),
        text::split_once(clause(k, v), '=') == Some((k, v)),
        text::trim(k) == k,
{
    let s = clause(k, v);
    assert(s[0] == k[0]);
    assert(s.last() == v.last());
    text_laws::law_trim_leaves(s);
    text_laws::law_trim_leaves(k);
    text_laws::law_split_once_undoes(k, '=', v);
}

/// A clause may be `lat` for `latency`, `bandwidth` for `bw` and `part` for
/// `partition`; and any other name than these and `loss` is refused.
pub proof fn law_names_of_clauses(
    m: ModelView,
    k: Seq<char>,
    v: Seq<char>,
    reading: Option<u64>,
)
    requires
        tight(v),
    ensures
        config::with_clause(m, clause("lat"@, v), reading) == config::with_clause(
            m,
            clause("latency"@, v),
            reading,
        ),
        config::with_clause(m, clause("bandwidth"@, v), reading) == config::with_clause(
            m,
            clause("bw"@, v),
            reading,
        ),
        config::with_clause(m, clause("part"@, v), reading) == config::with_clause(
            m,
            clause("partition"@, v),
            reading,
        ),
        tight(k) && free_of(k, '=') && k != "lat"@ && k != "latency"@ && k != "loss"@ && k != "bw"@
            && k != "bandwidth"@ && k != "part"@ && k != "partition"@ ==> config::with_clause(
            m,
            clause(k, v),
            reading,
        ) is Err,
{
    reveal_strlit("lat");
    reveal_strlit("latency");
    reveal_strlit("loss");
    reveal_strlit("bandwidth");
    reveal_strlit("bw");
    reveal_strlit("part");
    reveal_strlit("partition");
    assert("lat"@.len() == 3 && "latency"@.len() == 7 && "loss"@.len() == 4 && "bandwidth"@.len()
        == 9 && "bw"@.len() == 2 && "part"@.len() == 4 && "partition"@.len() == 9);
    assert("loss"@[0] == 'l' && "part"@[0] == 'p' && "bandwidth"@[0] == 'b' && "partition"@[0]
        == 'p');
    lemma_clause("lat"@, v);
    lemma_clause("latency"@, v);
    lemma_clause("bandwidth"@, v);
    lemma_clause("bw"@, v);
    lemma_clause("part"@, v);
    lemma_clause("partition"@, v);
    if tight(k) && free_of(k, '=') {
        lemma_clause(k, v);
    }
}

/// A clause without an equals sign is refused.
pub proof fn law_clauses_have_values(m: ModelView, s: Seq<char>, reading: Option<u64>)
    requires
        tight(s),
        free_of(s, '='),
    ensures
        config::with_clause(m, s, reading) is Err,
{
    text_laws::law_trim_leaves(s);
    text_laws::law_split_once(s, '=');
}

/// The strategies go by `random` and `rand`, and by `rr`, `round-robin` and
/// `roundrobin`, in letters of either case; there are no others.
pub proof fn law_names_of_strategies(s: Seq<char>)
    requires
        tight(s),
    ensures
        ({
            let t = text::lower_all(s);
            &&& abi::strategy_named(s) == Some(Strategy::Random) <==> t == "random"@ || t
                == "rand"@
            &&& abi::strategy_named(s) == Some(Strategy::RoundRobin) <==> t == "rr"@ || t
                == "round-robin"@ || t == "roundrobin"@
            &&& text::lower_all(t) == t
        }),
{
    text_laws::law_trim_leaves(s);
    reveal_strlit("random");
    reveal_strlit("rand");
    reveal_strlit("rr");
    reveal_strlit("round-robin");
    reveal_strlit("roundrobin");
    assert("random"@.len() == 6 && "rand"@.len() == 4 && "rr"@.len() == 2 && "round-robin"@.len()
        == 11 && "roundrobin"@.len() == 10);
    let t = text::lower_all(s);
    assert forall|i: int| 0 <= i < t.len() implies #[trigger] text::lower_all(t)[i] == t[i] by {
        assert(t[i] == text::lower(s[i]));
    }
    assert(text::lower_all(t) =~= t);
}

/// Letters of upper case become those of lower case, and nothing else changes.
pub proof fn law_lower_case(c: char)
    ensures
        'A' <= c <= 'Z' ==> text::lower(c) as int - 'a' as int == c as int - 'A' as int,
        !('A' <= c <= 'Z') ==> text::lower(c) == c,
{
}

/// `--verbose` is `--trace`, and `-h` is `--help`.
pub proof fn law_names_of_options(wide: bool)
    ensures
        run_cmd::flag_of(Some("--verbose"@), wide) == run_cmd::flag_of(Some("--trace"@), wide),
        run_cmd::flag_of(Some("-h"@), wide) == run_cmd::flag_of(Some("--help"@), wide),
{
    crate::option_laws::lemma_literals();
    crate::option_laws::lemma_narrow_strings();
}

// ---------------------------------------------------------------------------
// Seeds
// ---------------------------------------------------------------------------

proof fn lemma_hex_digits(n: nat, k: nat)
    ensures
        json::hex_digits(n, k).len() == k,
        text::all_digits(json::hex_digits(n, k), 16),
        k > 0 ==> json::hex_digits(n, k)[0] != '+',
    decreases k,
{
    if k > 0 {
        lemma_hex_digits(n / 16, (k - 1) as nat);
        let s = json::hex_digits(n, k);
        let p = json::hex_digits(n / 16, (k - 1) as nat);
        let d = (n % 16) as int;
        assert(text::digit(hash::hex_char(d), 16) == Some(d));
        assert forall|i: int| 0 <= i < s.len() implies (#[trigger] text::digit(s[i], 16))
            is Some by {
            if i < p.len() {
                assert(text::digit(p[i], 16) is Some);
            }
        }
        assert(text::digit(s[0], 16) is Some);
    }
}

proof fn lemma_hex_value(n: nat, k: nat)
    requires
        n < vstd::arithmetic::power::pow(16, k),
    ensures
        text::digits_value(json::hex_digits(n, k), 16) == n,
    decreases k,
{
    reveal_with_fuel(vstd::arithmetic::power::pow, 2);
    if k > 0 {
        let m = (k - 1) as nat;
        lemma_hex_value(n / 16, m);
        let s = json::hex_digits(n, k);
        assert(s.drop_last() =~= json::hex_digits(n / 16, m));
        let d = (n % 16) as int;
        assert(text::digit(hash::hex_char(d), 16) == Some(d));
    }
}

/// A seed may be written in hexadecimal, behind `0x` or `0X`.
pub proof fn law_hexadecimal_seeds(n: u64)
    ensures
        abi::seed_value(seq!['0', 'x'] + json::hex_digits(n as nat, 16)) == Some(n as int),
        abi::seed_value(seq!['0', 'X'] + json::hex_digits(n as nat, 16)) == Some(n as int),
{
    let s = json::hex_digits(n as nat, 16);
    lemma_hex_digits(n as nat, 16);
    assert(vstd::arithmetic::power::pow(16, 16) == 0x1_0000_0000_0000_0000) by {
        reveal_with_fuel(vstd::arithmetic::power::pow, 17);
    }
    lemma_hex_value(n as nat, 16);
    let a = seq!['0', 'x'] + s;
    let b = seq!['0', 'X'] + s;
    assert(a.skip(2) =~= s && b.skip(2) =~= s);
    assert(text::digit(s[15], 16) is Some);
    assert(a.last() == s[15] && b.last() == s[15]);
    text_laws::law_trim_leaves(a);
    text_laws::law_trim_leaves(b);
}

} // verus!
