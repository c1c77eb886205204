//! The laws of what is told of a run and of fuzzing, and of the key that a seed
//! expands to.

use vstd::prelude::*;

use crate::abi;
use crate::chord;
use crate::cluster;
use crate::cluster::{Lag, Stats};
use crate::fuzz;
use crate::fuzz::{FoundView, ReportView};
use crate::fuzz_config::ConfigView;
use crate::net_laws;
use crate::shrink;
use crate::shrink::ShrinkStats;
use crate::text;
use crate::timeline_laws::{holds, lemma_append, lemma_ends, lemma_holds, lemma_within};

verus! {

// ---------------------------------------------------------------------------
// Runs
// ---------------------------------------------------------------------------

/// The statistics tell how many datagrams were sent and how many dropped, and
/// of a windowed run the skew and every lag; a host without the broker has
/// none to tell.
pub proof fn law_statistics(window: u64, s: Stats, lags: Seq<Lag>, i: int)
    ensures
        ({
            let t = cluster::stats_text(window, Some(s), lags);
            &&& holds(t, text::dec(s.sent as nat) + " datagram(s) sent"@)
            &&& holds(t, text::dec(s.dropped as nat) + " dropped"@)
            &&& window > 0 ==> holds(t, "skew: "@ + text::dec(s.max_skew_ns as nat))
            &&& window > 0 && 0 <= i < lags.len() ==> holds(
                t,
                "host "@ + text::dec(lags[i].host as nat) + " node "@ + text::dec(
                    lags[i].node as nat,
                ) + ": max "@ + text::dec(lags[i].ns as nat),
            )
        }),
        cluster::stats_text(window, None, lags) == cluster::stats_text(0, None, Seq::empty()),
{
    let t = cluster::stats_text(window, Some(s), lags);
    let sent = text::dec(s.sent as nat);
    let dropped = text::dec(s.dropped as nat);
    let skew = text::dec(s.max_skew_ns as nat);
    reveal_strlit(" datagram(s) sent, ");
    reveal_strlit(" datagram(s) sent");
    reveal_strlit(" dropped\n");
    reveal_strlit(" dropped");
    reveal_strlit("[weft] max clock skew: ");
    reveal_strlit("skew: ");
    let a = " datagram(s) sent, "@;
    let b = " dropped\n"@;
    let top = "[weft] network: "@;
    let head = top + sent + a + dropped + b;
    let lines = cluster::lag_lines(lags, lags.len() as int);
    let c = "[weft] max clock skew: "@;
    let more = if window > 0 {
        c + skew + " ns\n"@ + lines
    } else {
        Seq::empty()
    };
    assert(t =~= head + more);
    assert(a =~= " datagram(s) sent"@ + a.skip(17));
    lemma_holds(head, top, sent + " datagram(s) sent"@, a.skip(17) + dropped + b);
    lemma_append(head, more, sent + " datagram(s) sent"@);
    assert(b =~= " dropped"@ + b.skip(8));
    lemma_holds(head, top + sent + a, dropped + " dropped"@, b.skip(8));
    lemma_append(head, more, dropped + " dropped"@);
    if window > 0 {
        assert(c =~= c.take(17) + "skew: "@);
        lemma_holds(more, c.take(17), "skew: "@ + skew, " ns\n"@ + lines);
        lemma_within(head, more, Seq::empty(), "skew: "@ + skew);
        assert(head + more + Seq::<char>::empty() =~= t);
        if 0 <= i < lags.len() {
            lemma_lags(lags, lags.len() as int, i);
            let part = "host "@ + text::dec(lags[i].host as nat) + " node "@ + text::dec(
                lags[i].node as nat,
            ) + ": max "@ + text::dec(lags[i].ns as nat);
            lemma_within(head + (c + skew + " ns\n"@), lines, Seq::empty(), part);
            assert(head + (c + skew + " ns\n"@) + lines + Seq::<char>::empty() =~= t);
        }
    }
}

proof fn lemma_lags(lags: Seq<Lag>, n: int, i: int)
    requires
        0 <= i < n <= lags.len(),
    ensures
        holds(
            cluster::lag_lines(lags, n),
            "host "@ + text::dec(lags[i].host as nat) + " node "@ + text::dec(lags[i].node as nat)
                + ": max "@ + text::dec(lags[i].ns as nat),
        ),
    decreases n,
{
    let x = lags[i];
    let part = "host "@ + text::dec(x.host as nat) + " node "@ + text::dec(x.node as nat)
        + ": max "@ + text::dec(x.ns as nat);
    let front = cluster::lag_lines(lags, n - 1);
    let line = cluster::lag_line(lags[n - 1]);
    if i == n - 1 {
        reveal_strlit("[weft] frontier lag host ");
        reveal_strlit("host ");
        let h = "[weft] frontier lag host "@;
        assert(h =~= h.take(20) + "host "@);
        lemma_holds(front + line, front + h.take(20), part, " ns\n"@);
    } else {
        lemma_lags(lags, n - 1, i);
        lemma_append(front, line, part);
    }
}

/// A recording is told of with its place, and how to see it again.
pub proof fn law_recorded(path: Seq<char>)
    ensures
        holds(cluster::recorded_text(path), "recorded to "@ + path),
        holds(cluster::recorded_text(path), "weft replay "@ + path),
{
    let t = cluster::recorded_text(path);
    reveal_strlit("[weft] recorded to ");
    reveal_strlit("recorded to ");
    reveal_strlit(" (verify: weft replay ");
    reveal_strlit("weft replay ");
    let a = "[weft] recorded to "@;
    let b = " (verify: weft replay "@;
    assert(a =~= a.take(7) + "recorded to "@);
    assert(b =~= b.take(10) + "weft replay "@);
    lemma_holds(t, a.take(7), "recorded to "@ + path, b + path + ")"@);
    lemma_holds(t, a + path + b.take(10), "weft replay "@ + path, ")"@);
}

// ---------------------------------------------------------------------------
// Fuzzing
// ---------------------------------------------------------------------------

/// What was swept is told: how many seeds were tried, how many failed, and
/// whether time ran out.
pub proof fn law_sweep_is_told(r: ReportView, took: Seq<char>)
    ensures
        ({
            let t = fuzz::swept_text(r, took);
            &&& holds(t, text::dec(r.seeds_tested as nat) + " seed(s)"@)
            &&& holds(t, text::dec(r.seeds_failed as nat) + " failing"@)
            &&& r.budget_exhausted ==> holds(t, "[time budget hit]"@)
        }),
{
    let t = fuzz::swept_text(r, took);
    let n = text::dec(r.seeds_tested as nat);
    let f = text::dec(r.seeds_failed as nat);
    reveal_strlit(" seed(s) in ");
    reveal_strlit(" seed(s)");
    reveal_strlit(" failing)");
    reveal_strlit(" failing");
    reveal_strlit("  [time budget hit]");
    reveal_strlit("[time budget hit]");
    let a = " seed(s) in "@;
    let b = " failing)"@;
    let c = if r.budget_exhausted {
        "  [time budget hit]"@
    } else {
        Seq::<char>::empty()
    };
    let top = "swept     : "@;
    let e = Seq::<char>::empty();
    assert(a =~= " seed(s)"@ + a.skip(8));
    assert(b =~= " failing"@ + b.skip(8));
    let s1 = top + n + a;
    let s2 = s1 + took + " ("@ + f + b;
    lemma_holds(s1, top, n + " seed(s)"@, a.skip(8));
    lemma_append(s1, took, n + " seed(s)"@);
    lemma_append(s1 + took, " ("@, n + " seed(s)"@);
    lemma_append(s1 + took + " ("@, f, n + " seed(s)"@);
    lemma_append(s1 + took + " ("@ + f, b, n + " seed(s)"@);
    lemma_append(s2, c, n + " seed(s)"@);
    lemma_append(s2 + c, "\n"@, n + " seed(s)"@);
    lemma_holds(s2, s1 + took + " ("@, f + " failing"@, b.skip(8));
    lemma_append(s2, c, f + " failing"@);
    lemma_append(s2 + c, "\n"@, f + " failing"@);
    if r.budget_exhausted {
        assert(c =~= c.take(2) + "[time budget hit]"@);
        lemma_holds(s2 + c, s2 + c.take(2), "[time budget hit]"@, e);
        lemma_append(s2 + c, "\n"@, "[time budget hit]"@);
    }
}

/// A finding is told with its failure, its message, how many seeds show it and
/// the first of them, how far it was shrunk, and where it can be seen again.
pub proof fn law_finding_is_told(
    f: FoundView,
    tested: u64,
    names: Seq<Seq<char>>,
    s: ShrinkStats,
    path: Seq<char>,
)
    ensures
        ({
            let t = fuzz::found_text(f, tested, names);
            &&& holds(t, shrink::key_text(f.key))
            &&& holds(t, f.message)
            &&& holds(t, text::dec(f.seeds_hit.len()) + " of "@ + text::dec(tested as nat))
            &&& holds(t, "first: "@ + text::dec(f.seed as nat))
            &&& f.shrink == Some(s) ==> holds(t, fuzz::shrink_text(s))
            &&& f.log_path == Some(path) ==> holds(t, fuzz::repro_text(path, names))
        }),
{
    let key = shrink::key_text(f.key);
    let hit = text::dec(f.seeds_hit.len());
    let all = text::dec(tested as nat);
    let first = text::dec(f.seed as nat);
    let small = match f.shrink {
        Some(s) => fuzz::shrink_text(s),
        None => Seq::empty(),
    };
    let again = match f.log_path {
        Some(p) => fuzz::repro_text(p, names),
        None => Seq::empty(),
    };
    reveal_strlit(" tested (first: ");
    reveal_strlit("first: ");
    let d = " tested (first: "@;
    assert(d =~= d.take(9) + "first: "@);
    let head = "\n  \u{2717} "@;
    let s1 = head + key + "\n    what   : "@;
    let s2 = s1 + f.message + "\n    seeds  : "@;
    let s3 = s2 + hit + " of "@ + all;
    let s4 = s3 + d + first;
    let s5 = s4 + ")\n"@;
    let s6 = s5 + small;
    let e = Seq::<char>::empty();
    lemma_ends(head, key);
    lemma_append(head + key, "\n    what   : "@, key);
    lemma_append(s1, f.message, key);
    lemma_append(s1 + f.message, "\n    seeds  : "@, key);
    lemma_append(s2, hit, key);
    lemma_append(s2 + hit, " of "@, key);
    lemma_append(s2 + hit + " of "@, all, key);
    lemma_tail(s3, d, first, small, again, key);
    lemma_ends(s1, f.message);
    lemma_append(s1 + f.message, "\n    seeds  : "@, f.message);
    lemma_append(s2, hit, f.message);
    lemma_append(s2 + hit, " of "@, f.message);
    lemma_append(s2 + hit + " of "@, all, f.message);
    lemma_tail(s3, d, first, small, again, f.message);
    let count = hit + " of "@ + all;
    lemma_holds(s3, s2, count, e);
    lemma_tail(s3, d, first, small, again, count);
    lemma_holds(s4, s3 + d.take(9), "first: "@ + first, e);
    lemma_append(s4, ")\n"@, "first: "@ + first);
    lemma_append(s5, small, "first: "@ + first);
    lemma_append(s6, again, "first: "@ + first);
    lemma_ends(s5, small);
    lemma_append(s6, again, small);
    lemma_ends(s6, again);
}

proof fn lemma_tail(
    s: Seq<char>,
    d: Seq<char>,
    first: Seq<char>,
    small: Seq<char>,
    again: Seq<char>,
    part: Seq<char>,
)
    requires
        holds(s, part),
    ensures
        holds(s + d + first + ")\n"@ + small + again, part),
{
    lemma_append(s, d, part);
    lemma_append(s + d, first, part);
    lemma_append(s + d + first, ")\n"@, part);
    lemma_append(s + d + first + ")\n"@, small, part);
    lemma_append(s + d + first + ")\n"@ + small, again, part);
}

/// How far a failure was shrunk is told with the number of operations before,
/// that after, and whether the search was cut short.
pub proof fn law_shrinking_is_told(s: ShrinkStats)
    ensures
        holds(
            fuzz::shrink_text(s),
            text::dec(s.ops_before as nat) + " \u{2192} "@ + text::dec(s.ops_after as nat) + " ops"@,
        ),
        s.budget_exhausted ==> holds(fuzz::shrink_text(s), "[budget hit]"@),
{
    let t = fuzz::shrink_text(s);
    let a = text::dec(s.ops_before as nat);
    let b = text::dec(s.ops_after as nat);
    let n = text::dec(s.executions as nat);
    reveal_strlit(" ops in ");
    reveal_strlit(" ops");
    reveal_strlit(" [budget hit]");
    reveal_strlit("[budget hit]");
    let o = " ops in "@;
    let c = if s.budget_exhausted {
        " [budget hit]"@
    } else {
        Seq::<char>::empty()
    };
    assert(o =~= " ops"@ + o.skip(4));
    let part = a + " \u{2192} "@ + b + " ops"@;
    let top = "    shrunk : "@;
    let s1 = top + a + " \u{2192} "@ + b + o;
    let s2 = s1 + n + " execution(s)"@;
    lemma_holds(s1, top, part, o.skip(4));
    lemma_append(s1, n, part);
    lemma_append(s1 + n, " execution(s)"@, part);
    lemma_append(s2, c, part);
    lemma_append(s2 + c, "\n"@, part);
    if s.budget_exhausted {
        assert(c =~= c.take(1) + "[budget hit]"@);
        lemma_holds(s2 + c, s2 + c.take(1), "[budget hit]"@, Seq::empty());
        lemma_append(s2 + c, "\n"@, "[budget hit]"@);
    }
}

/// A report of fuzzing tells what was swept and with what, and every finding;
/// it says that there is none only where there is none.
pub proof fn law_fuzzing_is_told(r: ReportView, c: ConfigView, took: Seq<char>, i: int)
    ensures
        ({
            let t = fuzz::report_text(r, c, took);
            &&& holds(t, fuzz::swept_text(r, took))
            &&& holds(t, fuzz::setting_text(c))
            &&& r.violations.len() == 0 ==> holds(t, "No invariant violations found."@)
            &&& 0 <= i < r.violations.len() ==> holds(
                t,
                fuzz::found_text(r.violations[i], r.seeds_tested, c.invariants),
            ) && holds(t, text::dec(r.violations.len()) + " distinct violation(s)"@)
        }),
{
    let t = fuzz::report_text(r, c, took);
    let top = "==================== WEFT FUZZ REPORT ====================\n"@;
    let end = "==========================================================\n"@;
    let a = fuzz::swept_text(r, took);
    let b = fuzz::setting_text(c);
    let n = r.violations.len();
    let lines = fuzz::all_found_text(r.violations, r.seeds_tested, c.invariants, n as int);
    let found = if n == 0 {
        "\nNo invariant violations found.\n"@
    } else {
        "\n"@ + text::dec(n) + " distinct violation(s):\n"@ + lines
    };
    let s1 = top + a;
    let s2 = s1 + b;
    lemma_ends(top, a);
    lemma_append(s1, b, a);
    lemma_append(s2, found, a);
    lemma_append(s2 + found, end, a);
    lemma_ends(s1, b);
    lemma_append(s2, found, b);
    lemma_append(s2 + found, end, b);
    if n == 0 {
        reveal_strlit("\nNo invariant violations found.\n");
        reveal_strlit("No invariant violations found.");
        lemma_holds(found, found.take(1), "No invariant violations found."@, found.skip(31));
        lemma_within(s2, found, end, "No invariant violations found."@);
    } else if 0 <= i < n {
        let part = fuzz::found_text(r.violations[i], r.seeds_tested, c.invariants);
        lemma_all_found(r.violations, r.seeds_tested, c.invariants, n as int, i);
        lemma_within(
            "\n"@ + text::dec(n) + " distinct violation(s):\n"@,
            lines,
            Seq::empty(),
            part,
        );
        assert("\n"@ + text::dec(n) + " distinct violation(s):\n"@ + lines + Seq::<char>::empty()
            =~= found);
        lemma_within(s2, found, end, part);
        reveal_strlit(" distinct violation(s):\n");
        reveal_strlit(" distinct violation(s)");
        let d = " distinct violation(s):\n"@;
        assert(d =~= " distinct violation(s)"@ + d.skip(22));
        lemma_holds(
            found,
            "\n"@,
            text::dec(n) + " distinct violation(s)"@,
            d.skip(22) + lines,
        );
        lemma_within(s2, found, end, text::dec(n) + " distinct violation(s)"@);
    }
}

proof fn lemma_all_found(f: Seq<FoundView>, tested: u64, names: Seq<Seq<char>>, n: int, i: int)
    requires
        0 <= i < n <= f.len(),
    ensures
        holds(
            fuzz::all_found_text(f, tested, names, n),
            fuzz::found_text(f[i], tested, names),
        ),
    decreases n,
{
    let front = fuzz::all_found_text(f, tested, names, n - 1);
    let part = fuzz::found_text(f[i], tested, names);
    if i == n - 1 {
        lemma_ends(front, part);
    } else {
        lemma_all_found(f, tested, names, n - 1, i);
        lemma_append(front, fuzz::found_text(f[n - 1], tested, names), part);
    }
}

// ---------------------------------------------------------------------------
// Details of a ring
// ---------------------------------------------------------------------------

/// The details of a violation name what it concerns: how many members the
/// rings have and how many one of them, the node that lies between two
/// neighbours, the node that is astray.
pub proof fn law_details(members: nat, first: i32, cycle: int, a: i32, b: i32, c: i32)
    requires
        cycle >= 0,
    ensures
        holds(chord::split_text(members, first, cycle), text::dec(members) + " ring members"@),
        holds(
            chord::split_text(members, first, cycle),
            text::dec_int(first as int) + " has "@ + text::dec(cycle as nat),
        ),
        holds(
            chord::order_text(a, b, c),
            text::dec_int(c as int) + " lies between adjacent "@ + text::dec_int(a as int)
                + " -> "@ + text::dec_int(b as int),
        ),
        holds(chord::stray_text(a), text::dec_int(a as int) + " cannot reach the ring"@),
{
    let t = chord::split_text(members, first, cycle);
    reveal_strlit(" ring members but the cycle through ");
    reveal_strlit(" ring members");
    let m = " ring members but the cycle through "@;
    assert(m =~= " ring members"@ + m.skip(13));
    let tail = text::dec_int(first as int) + " has "@ + text::dec(cycle as nat);
    lemma_holds(
        t,
        "ring split: "@,
        text::dec(members) + " ring members"@,
        m.skip(13) + tail,
    );
    lemma_holds(t, "ring split: "@ + text::dec(members) + m, tail, Seq::empty());
    lemma_ends(
        "ring member "@,
        text::dec_int(c as int) + " lies between adjacent "@ + text::dec_int(a as int) + " -> "@
            + text::dec_int(b as int),
    );
    assert(chord::order_text(a, b, c) =~= "ring member "@ + (text::dec_int(c as int)
        + " lies between adjacent "@ + text::dec_int(a as int) + " -> "@ + text::dec_int(
        b as int,
    )));
    reveal_strlit(" cannot reach the ring via best successors");
    reveal_strlit(" cannot reach the ring");
    let s = " cannot reach the ring via best successors"@;
    assert(s =~= " cannot reach the ring"@ + s.skip(22));
    lemma_holds(
        chord::stray_text(a),
        "appendage member "@,
        text::dec_int(a as int) + " cannot reach the ring"@,
        s.skip(22),
    );
}

// ---------------------------------------------------------------------------
// Keys
// ---------------------------------------------------------------------------

proof fn lemma_le_len(x: nat, n: nat)
    ensures
        abi::le_bytes(x, n).len() == n,
    decreases n,
{
    if n > 0 {
        lemma_le_len(x / 256, (n - 1) as nat);
    }
}

/// Four words of eight bytes, one behind the other.
proof fn lemma_words(a: Seq<u8>, b: Seq<u8>, c: Seq<u8>, d: Seq<u8>, e: Seq<u8>)
    requires
        a.len() == 8 && b.len() == 8 && c.len() == 8 && d.len() == 8 && e.len() == 8,
    ensures
        (a + b + c + d).len() == 32,
        (a + b + c + d).skip(8) == (b + c + d + e).take(24),
        (a + b + c + d).take(8) == a,
{
    assert((a + b + c + d).skip(8) =~= (b + c + d + e).take(24));
    assert((a + b + c + d).take(8) =~= a);
}

/// The key of a seed has 32 bytes; all but the first eight are the first of the
/// key of the next state; and different seeds have different keys.
pub proof fn law_keys(seed: u64, other: u64)
    ensures
        abi::expanded(seed).len() == 32,
        abi::expanded(seed).skip(8) == abi::expanded(abi::splitmix_next(seed)).take(24),
        abi::expanded(seed).take(8) == abi::le_bytes(abi::splitmix_out(seed) as nat, 8),
        seed != other ==> abi::expanded(seed) != abi::expanded(other),
{
    lemma_key(seed);
    lemma_key(other);
    if seed != other && abi::expanded(seed) == abi::expanded(other) {
        net_laws::law_generator_keeps_apart(seed, other);
        lemma_256();
        lemma_le_apart(abi::splitmix_out(seed) as nat, abi::splitmix_out(other) as nat, 8);
    }
}

proof fn lemma_key(seed: u64)
    ensures
        abi::expanded(seed).len() == 32,
        abi::expanded(seed).skip(8) == abi::expanded(abi::splitmix_next(seed)).take(24),
        abi::expanded(seed).take(8) == abi::le_bytes(abi::splitmix_out(seed) as nat, 8),
{
    let next = abi::splitmix_next(seed);
    let w0 = abi::seed_word(seed, 0);
    let w1 = abi::seed_word(seed, 1);
    let w2 = abi::seed_word(seed, 2);
    let w3 = abi::seed_word(seed, 3);
    let w4 = abi::seed_word(next, 3);
    assert(w1 == abi::seed_word(next, 0));
    assert(w2 == abi::seed_word(next, 1));
    assert(w3 == abi::seed_word(next, 2));
    lemma_le_len(w0 as nat, 8);
    lemma_le_len(w1 as nat, 8);
    lemma_le_len(w2 as nat, 8);
    lemma_le_len(w3 as nat, 8);
    lemma_le_len(w4 as nat, 8);
    lemma_words(
        abi::le_bytes(w0 as nat, 8),
        abi::le_bytes(w1 as nat, 8),
        abi::le_bytes(w2 as nat, 8),
        abi::le_bytes(w3 as nat, 8),
        abi::le_bytes(w4 as nat, 8),
    );
}

proof fn lemma_256()
    ensures
        vstd::arithmetic::power::pow(256, 8) == 0x1_0000_0000_0000_0000,
{
    reveal_with_fuel(vstd::arithmetic::power::pow, 9);
}

proof fn lemma_le_apart(a: nat, b: nat, n: nat)
    requires
        abi::le_bytes(a, n) == abi::le_bytes(b, n),
        a < vstd::arithmetic::power::pow(256, n),
        b < vstd::arithmetic::power::pow(256, n),
    ensures
        a == b,
    decreases n,
{
    reveal_with_fuel(vstd::arithmetic::power::pow, 2);
    if n > 0 {
        let m = (n - 1) as nat;
        let x = abi::le_bytes(a, n);
        let y = abi::le_bytes(b, n);
        assert(x[0] == (a % 256) as u8 && y[0] == (b % 256) as u8);
        assert(x.skip(1) =~= abi::le_bytes(a / 256, m));
        assert(y.skip(1) =~= abi::le_bytes(b / 256, m));
        lemma_le_apart(a / 256, b / 256, m);
    }
}

} // verus!
