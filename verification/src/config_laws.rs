//! The laws of a network description: each clause sets what it names.

use vstd::prelude::*;

use crate::config;
use crate::config::ParseErrorView;
use crate::fault;
use crate::fault::{Latency, ModelView};
use crate::text;
use crate::text_laws;
use crate::text_laws::{free_of, joined};

verus! {

/// `k=v`.
pub open spec fn clause(k: Seq<char>, v: Seq<char>) -> Seq<char> {
    k + seq!['='] + v
}

/// `k:v`.
pub open spec fn kinded(k: Seq<char>, v: Seq<char>) -> Seq<char> {
    k + seq![':'] + v
}

/// Neither end of `s` is whitespace.
pub open spec fn tight(s: Seq<char>) -> bool {
    s.len() > 0 && !text::is_white(s[0]) && !text::is_white(s.last())
}

/// A number in decimal is read back, and holds none of the separators.
pub proof fn lemma_digits(n: nat, max: int)
    requires
        n <= max,
    ensures
        tight(text::dec(n)),
        text::trim(text::dec(n)) == text::dec(n),
        text::parse_uint(text::dec(n), 10, max) == Some(n as int),
        free_of(text::dec(n), '-'),
        free_of(text::dec(n), '+'),
        free_of(text::dec(n), '|'),
        free_of(text::dec(n), ':'),
{
    text::lemma_dec(n);
    let s = text::dec(n);
    assert(text::digit(s[0], 10) is Some);
    assert(text::digit(s[s.len() - 1], 10) is Some);
    assert forall|i: int| 0 <= i < s.len() implies '0' <= #[trigger] s[i] <= '9' by {
        assert(text::digit(s[i], 10) is Some);
    }
    assert(s.last() == s[s.len() - 1]);
    text_laws::law_trim_leaves(s);
}

/// `k=v` is read as the key `k` and the value `v`.
proof fn lemma_clause(k: Seq<char>, v: Seq<char>)
    requires
        tight(k),
        tight(v),
        free_of(k, '='),
    ensures
        clause(k, v).len() > 0,
        text::trim(clause(k, v)) == clause(k, v),
        text::split_once(clause(k, v), '=') == Some((k, v)),
        text::trim(k) == k,
        text::trim(v) == v,
{
    let s = clause(k, v);
    assert(s[0] == k[0]);
    assert(s.last() == v.last());
    text_laws::law_trim_leaves(s);
    text_laws::law_trim_leaves(k);
    text_laws::law_trim_leaves(v);
    text_laws::law_split_once_undoes(k, '=', v);
}

proof fn lemma_keys()
    ensures
        tight("latency"@) && free_of("latency"@, '='),
        tight("loss"@) && free_of("loss"@, '='),
        tight("bw"@) && free_of("bw"@, '='),
        tight("partition"@) && free_of("partition"@, '='),
        tight("fixed"@) && free_of("fixed"@, ':'),
        tight("uniform"@) && free_of("uniform"@, ':'),
        tight("exp"@) && free_of("exp"@, ':'),
        "latency"@.len() == 7 && "lat"@.len() == 3 && "loss"@.len() == 4 && "bw"@.len() == 2,
        "bandwidth"@.len() == 9 && "partition"@.len() == 9 && "part"@.len() == 4,
        "bandwidth"@[0] == 'b' && "partition"@[0] == 'p' && "part"@[0] == 'p' && "loss"@[0] == 'l',
        "fixed"@.len() == 5 && "const"@.len() == 5 && "uniform"@.len() == 7 && "unif"@.len() == 4,
        "exp"@.len() == 3 && "exponential"@.len() == 11,
{
    reveal_strlit("latency");
    reveal_strlit("lat");
    reveal_strlit("loss");
    reveal_strlit("bw");
    reveal_strlit("bandwidth");
    reveal_strlit("partition");
    reveal_strlit("part");
    reveal_strlit("fixed");
    reveal_strlit("const");
    reveal_strlit("uniform");
    reveal_strlit("unif");
    reveal_strlit("exp");
    reveal_strlit("exponential");
}

proof fn lemma_kinded(k: Seq<char>, v: Seq<char>)
    requires
        tight(k),
        tight(v),
        free_of(k, ':'),
    ensures
        tight(kinded(k, v)),
        config::kind_and_arg(kinded(k, v)) == (k, v),
{
    let s = kinded(k, v);
    assert(s[0] == k[0]);
    assert(s.last() == v.last());
    text_laws::law_split_once_undoes(k, ':', v);
}

/// `latency=fixed:d` makes the latency `d`, and changes nothing else.
pub proof fn law_fixed_latency(m: ModelView, d: u64, reading: Option<u64>)
    ensures
        config::with_clause(
            m,
            clause("latency"@, kinded("fixed"@, text::dec(d as nat))),
            reading,
        ) == Ok::<ModelView, ParseErrorView>(ModelView { latency: Latency::Fixed(d), ..m }),
{
    lemma_keys();
    lemma_digits(d as nat, u64::MAX as int);
    lemma_kinded("fixed"@, text::dec(d as nat));
    lemma_clause("latency"@, kinded("fixed"@, text::dec(d as nat)));
}

/// `latency=exp:mean` makes the latency exponential with that mean, and
/// changes nothing else.
pub proof fn law_exponential_latency(m: ModelView, mean: u64, reading: Option<u64>)
    ensures
        config::with_clause(
            m,
            clause("latency"@, kinded("exp"@, text::dec(mean as nat))),
            reading,
        ) == Ok::<ModelView, ParseErrorView>(
            ModelView { latency: Latency::Exponential { mean }, ..m },
        ),
{
    lemma_keys();
    lemma_digits(mean as nat, u64::MAX as int);
    lemma_kinded("exp"@, text::dec(mean as nat));
    lemma_clause("latency"@, kinded("exp"@, text::dec(mean as nat)));
}

/// `latency=uniform:lo-hi` makes the latency uniform over that range where it
/// is one, and changes nothing else; a range that ends before it starts is
/// refused.
pub proof fn law_uniform_latency(m: ModelView, lo: u64, hi: u64, reading: Option<u64>)
    ensures
        ({
            let r = config::with_clause(
                m,
                clause(
                    "latency"@,
                    kinded("uniform"@, text::dec(lo as nat) + seq!['-'] + text::dec(hi as nat)),
                ),
                reading,
            );
            &&& lo <= hi ==> r == Ok::<ModelView, ParseErrorView>(
                ModelView { latency: Latency::Uniform { lo, hi }, ..m },
            )
            &&& hi < lo ==> r is Err
        }),
{
    lemma_keys();
    lemma_digits(lo as nat, u64::MAX as int);
    lemma_digits(hi as nat, u64::MAX as int);
    let a = text::dec(lo as nat);
    let b = text::dec(hi as nat);
    let v = a + seq!['-'] + b;
    assert(v[0] == a[0]);
    assert(v.last() == b.last());
    text_laws::law_split_once_undoes(a, '-', b);
    lemma_kinded("uniform"@, v);
    lemma_clause("latency"@, kinded("uniform"@, v));
}

/// `bw=n` makes the bandwidth `n`, and changes nothing else.
pub proof fn law_bandwidth(m: ModelView, n: u64, reading: Option<u64>)
    ensures
        config::with_clause(m, clause("bw"@, text::dec(n as nat)), reading) == Ok::<
            ModelView,
            ParseErrorView,
        >(ModelView { bandwidth_bps: n, ..m }),
{
    lemma_keys();
    lemma_digits(n as nat, u64::MAX as int);
    lemma_clause("bw"@, text::dec(n as nat));
}

/// `loss=p` makes the loss what `p` reads as where that is from zero to one,
/// and changes nothing else; any other `p` is refused.
pub proof fn law_loss(m: ModelView, p: Seq<char>, reading: Option<u64>)
    requires
        tight(p),
    ensures
        config::loss_text(clause("loss"@, p)) == Some(p),
        reading matches Some(bits) ==> (bits <= 0x3ff0_0000_0000_0000 ==> config::with_clause(
            m,
            clause("loss"@, p),
            reading,
        ) == Ok::<ModelView, ParseErrorView>(ModelView { loss: bits, ..m })),
        reading matches Some(bits) ==> (0x3ff0_0000_0000_0000 < bits && bits
            != 0x8000_0000_0000_0000 ==> config::with_clause(m, clause("loss"@, p), reading)
            is Err),
        reading is None ==> config::with_clause(m, clause("loss"@, p), reading) is Err,
{
    lemma_keys();
    lemma_clause("loss"@, p);
}

/// The nodes of a group, with a plus sign between each two.
pub open spec fn group_text(g: Seq<u32>) -> Seq<char> {
    joined(g.map_values(|n: u32| text::dec(n as nat)), '+')
}

/// The groups, with a bar between each two.
pub open spec fn groups_text(groups: Seq<Seq<u32>>) -> Seq<char> {
    joined(groups.map_values(|g: Seq<u32>| group_text(g)), '|')
}

proof fn lemma_nodes(g: Seq<u32>, n: int)
    requires
        0 <= n <= g.len(),
    ensures
        config::nodes_of(g.map_values(|n: u32| text::dec(n as nat)), n) == Ok::<
            Seq<u32>,
            Seq<char>,
        >(g.take(n)),
    decreases n,
{
    let pieces = g.map_values(|n: u32| text::dec(n as nat));
    if n > 0 {
        lemma_nodes(g, n - 1);
        assert(pieces[n - 1] == text::dec(g[n - 1] as nat));
        lemma_digits(g[n - 1] as nat, u32::MAX as int);
        assert(g.take(n) =~= g.take(n - 1).push(g[n - 1]));
    } else {
        assert(g.take(0) =~= Seq::<u32>::empty());
    }
}

/// Pieces with tight ends make a text with tight ends.
pub proof fn lemma_joined_ends(pieces: Seq<Seq<char>>, sep: char)
    requires
        pieces.len() > 0,
        forall|i: int| 0 <= i < pieces.len() ==> tight(#[trigger] pieces[i]),
    ensures
        tight(joined(pieces, sep)),
    decreases pieces.len(),
{
    if pieces.len() == 1 {
        assert(tight(pieces[0]));
    } else {
        let front = pieces.drop_last();
        assert forall|i: int| 0 <= i < front.len() implies tight(#[trigger] front[i]) by {
            assert(tight(pieces[i]));
        }
        lemma_joined_ends(front, sep);
        assert(tight(pieces[pieces.len() - 1]));
        let s = joined(pieces, sep);
        assert(s[0] == joined(front, sep)[0]);
        assert(s.last() == pieces.last().last());
    }
}

/// Pieces without a character make a text without it.
pub proof fn lemma_joined_free(pieces: Seq<Seq<char>>, sep: char, c: char)
    requires
        sep != c,
        forall|i: int| 0 <= i < pieces.len() ==> free_of(#[trigger] pieces[i], c),
    ensures
        free_of(joined(pieces, sep), c),
    decreases pieces.len(),
{
    if pieces.len() == 1 {
        assert(free_of(pieces[0], c));
    } else if pieces.len() > 1 {
        let front = pieces.drop_last();
        assert forall|i: int| 0 <= i < front.len() implies free_of(#[trigger] front[i], c) by {
            assert(free_of(pieces[i], c));
        }
        lemma_joined_free(front, sep, c);
        assert(free_of(pieces[pieces.len() - 1], c));
        let a = joined(front, sep);
        let s = joined(pieces, sep);
        assert forall|i: int| 0 <= i < s.len() implies #[trigger] s[i] != c by {
            if i < a.len() {
                assert(a[i] != c);
            } else if i > a.len() {
                assert(pieces.last()[i - a.len() - 1] != c);
            }
        }
    }
}

proof fn lemma_group(g: Seq<u32>)
    requires
        g.len() > 0,
    ensures
        tight(group_text(g)),
        free_of(group_text(g), '|'),
        text::split(group_text(g), '+') == g.map_values(|n: u32| text::dec(n as nat)),
{
    let pieces = g.map_values(|n: u32| text::dec(n as nat));
    assert forall|i: int| 0 <= i < pieces.len() implies tight(#[trigger] pieces[i]) && free_of(
        pieces[i],
        '+',
    ) && free_of(pieces[i], '|') by {
        lemma_digits(g[i] as nat, u32::MAX as int);
    }
    lemma_joined_ends(pieces, '+');
    lemma_joined_free(pieces, '+', '|');
    text_laws::law_split_undoes(pieces, '+');
}

proof fn lemma_groups(groups: Seq<Seq<u32>>, n: int)
    requires
        0 <= n <= groups.len(),
        forall|i: int| 0 <= i < groups.len() ==> (#[trigger] groups[i]).len() > 0,
    ensures
        config::groups_of(groups.map_values(|g: Seq<u32>| group_text(g)), n) == Ok::<
            Seq<Seq<u32>>,
            Seq<char>,
        >(groups.take(n)),
    decreases n,
{
    let sides = groups.map_values(|g: Seq<u32>| group_text(g));
    if n > 0 {
        lemma_groups(groups, n - 1);
        let g = groups[n - 1];
        assert(g.len() > 0);
        assert(sides[n - 1] == group_text(g));
        lemma_group(g);
        lemma_nodes(g, g.len() as int);
        assert(g.take(g.len() as int) =~= g);
        assert(groups.take(n) =~= groups.take(n - 1).push(g));
    } else {
        assert(groups.take(0) =~= Seq::<Seq<u32>>::empty());
    }
}

/// A partition that is written out is read back, group by group and node by
/// node, and changes nothing else.
pub proof fn law_partition(m: ModelView, groups: Seq<Seq<u32>>, reading: Option<u64>)
    requires
        groups.len() > 0,
        forall|i: int| 0 <= i < groups.len() ==> (#[trigger] groups[i]).len() > 0,
    ensures
        config::with_clause(m, clause("partition"@, groups_text(groups)), reading) == Ok::<
            ModelView,
            ParseErrorView,
        >(ModelView { groups, ..m }),
{
    let sides = groups.map_values(|g: Seq<u32>| group_text(g));
    assert forall|i: int| 0 <= i < sides.len() implies tight(#[trigger] sides[i]) && free_of(
        sides[i],
        '|',
    ) by {
        assert(groups[i].len() > 0);
        lemma_group(groups[i]);
    }
    lemma_joined_ends(sides, '|');
    text_laws::law_split_undoes(sides, '|');
    lemma_groups(groups, groups.len() as int);
    assert(groups.take(groups.len() as int) =~= groups);
    lemma_keys();
    lemma_clause("partition"@, groups_text(groups));
}

/// Without a clause the network loses nothing, holds up nothing and cuts
/// nothing off.
pub proof fn law_no_clause(
    seed: u64,
    clauses: Seq<Seq<char>>,
    readings: Seq<Option<u64>>,
    src: crate::wire::VAddr,
    dst: crate::wire::VAddr,
    seq: u64,
    len: nat,
    tail: u64,
)
    requires
        forall|i: int| 0 <= i < clauses.len() ==> text_laws::blank(#[trigger] clauses[i]),
    ensures
        config::model_of(seed, clauses, readings, clauses.len() as int) matches Ok(m)
            && m.seed == seed && !fault::fate_of(m, src, dst, seq, len, tail).dropped
            && fault::fate_of(m, src, dst, seq, len, tail).delay_ns == 0,
{
    lemma_blank_clauses(seed, clauses, readings, clauses.len() as int);
    fault::law_loss_extremes(fault::loss_deviate(seed, src, dst, seq));
}

proof fn lemma_blank_clauses(
    seed: u64,
    clauses: Seq<Seq<char>>,
    readings: Seq<Option<u64>>,
    n: int,
)
    requires
        0 <= n <= clauses.len(),
        forall|i: int| 0 <= i < clauses.len() ==> text_laws::blank(#[trigger] clauses[i]),
    ensures
        config::model_of(seed, clauses, readings, n) == Ok::<ModelView, ParseErrorView>(
            config::reliable_model(seed),
        ),
    decreases n,
{
    if n > 0 {
        lemma_blank_clauses(seed, clauses, readings, n - 1);
        let s = clauses[n - 1];
        assert(text_laws::blank(s));
        let (l, r) = text_laws::law_trim(s);
        if text::trim(s).len() > 0 {
            assert(s[l.len() as int] == text::trim(s)[0]);
        }
    }
}

/// A clause adds to what stands before it: the network that all the clauses
/// describe is that of all but the last, changed by the last.
pub proof fn law_clauses_in_order(
    seed: u64,
    clauses: Seq<Seq<char>>,
    readings: Seq<Option<u64>>,
    last: Seq<char>,
    reading: Option<u64>,
)
    requires
        clauses.len() == readings.len(),
    ensures
        ({
            let before = config::model_of(seed, clauses, readings, clauses.len() as int);
            let all = config::model_of(
                seed,
                clauses.push(last),
                readings.push(reading),
                clauses.len() as int + 1,
            );
            &&& before matches Ok(m) ==> all == config::with_clause(m, last, reading)
            &&& before is Err ==> all == before
        }),
{
    lemma_prefix(seed, clauses, readings, last, reading, clauses.len() as int);
}

proof fn lemma_prefix(
    seed: u64,
    clauses: Seq<Seq<char>>,
    readings: Seq<Option<u64>>,
    last: Seq<char>,
    reading: Option<u64>,
    n: int,
)
    requires
        0 <= n <= clauses.len(),
        clauses.len() == readings.len(),
    ensures
        config::model_of(seed, clauses.push(last), readings.push(reading), n) == config::model_of(
            seed,
            clauses,
            readings,
            n,
        ),
    decreases n,
{
    if n > 0 {
        lemma_prefix(seed, clauses, readings, last, reading, n - 1);
    }
}

} // verus!
