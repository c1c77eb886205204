//! The laws of what fuzzing tries and what it reports.

use vstd::prelude::*;

use crate::fault::TailSource;
use crate::fuzz;
use crate::fuzz::HitView;
use crate::fuzz_config;
use crate::fuzz_config::ConfigView;
use crate::fuzz_laws;
use crate::monitor;
use crate::monitor::{Invariant, Seen, ViolationView};
use crate::rule_laws;
use crate::shrink;
use crate::shrink::KeyView;

verus! {

// ---------------------------------------------------------------------------
// What is tried
// ---------------------------------------------------------------------------

/// The seeds that are tried are those to try again and then those of the
/// range, from its start, one by one, and no others; the range ends before the
/// greatest seed there is.
pub proof fn law_what_is_tried(c: ConfigView, i: int)
    requires
        c.seed_start + c.seed_count <= u64::MAX,
    ensures
        fuzz::queue_of(c).len() == c.regression_seeds.len() + c.seed_count,
        0 <= i < c.regression_seeds.len() ==> fuzz::queue_of(c)[i] == c.regression_seeds[i],
        0 <= i < c.seed_count ==> fuzz::queue_of(c)[c.regression_seeds.len() + i] == c.seed_start
            + i,
{
}

/// The next seed is the next of the queue; once time is up only seeds to try
/// again come.
pub proof fn law_next_seed(queue: Seq<u64>, regressions: int, i: int)
    requires
        0 <= i,
        0 <= regressions <= queue.len(),
    ensures
        i < queue.len() ==> fuzz::next_of(queue, regressions, i, false) == Some(queue[i]),
        i < regressions ==> fuzz::next_of(queue, regressions, i, true) == Some(queue[i]),
        regressions <= i ==> fuzz::next_of(queue, regressions, i, true) is None,
        queue.len() <= i ==> fuzz::next_of(queue, regressions, i, false) is None,
{
}

/// Time is up once the seconds that were allowed have passed; it never is where
/// none were stated.
pub proof fn law_time_is_up(c: ConfigView, secs: u64, later: u64)
    requires
        secs <= later,
    ensures
        c.time_budget_secs == 0 ==> !fuzz::over_budget(c, secs),
        c.time_budget_secs > 0 ==> fuzz::over_budget(c, c.time_budget_secs),
        secs < c.time_budget_secs ==> !fuzz::over_budget(c, secs),
        fuzz::over_budget(c, secs) ==> fuzz::over_budget(c, later),
{
}

/// A rule goes by either of its names, and each name by its own rule.
pub proof fn law_rules_by_name(names: Seq<Seq<char>>, i: int, h: Seq<Seen>, now: Seen)
    requires
        0 <= i < names.len(),
    ensures
        fuzz::rules_of(names).len() == names.len(),
        names[i] == "fifo"@ || names[i] == "per-channel-fifo"@ ==> fuzz::rules_of(names)[i].title()
            == "per-channel-fifo"@ && fuzz::rules_of(names)[i].verdict(h, now)
            == monitor::fifo_verdict(h, now.e),
        names[i] == "dup"@ || names[i] == "no-duplicate-delivery"@ ==> fuzz::rules_of(
            names,
        )[i].title() == "no-duplicate-delivery"@ && fuzz::rules_of(names)[i].verdict(h, now)
            == monitor::duplicate_verdict(h, now.e),
{
    reveal_strlit("fifo");
    reveal_strlit("per-channel-fifo");
    reveal_strlit("dup");
    reveal_strlit("no-duplicate-delivery");
    let name = names[i];
    assert(fuzz::rules_of(names)[i] == fuzz::rule_of(name));
    if name == "dup"@ || name == "no-duplicate-delivery"@ {
        assert(name.len() == 3 || name.len() == 21);
        assert(!fuzz_config::is_fifo(name));
        assert(fuzz::rule_of(name) is Dup);
    }
    rule_laws::law_built_in_rules(fuzz::rule_of(name), h, now);
}

// ---------------------------------------------------------------------------
// What is reported
// ---------------------------------------------------------------------------

/// No two entries are about the same failure, and none is without a seed.
pub open spec fn apart(hits: Seq<HitView>) -> bool {
    &&& forall|i: int, j: int|
        0 <= i < j < hits.len() ==> (#[trigger] hits[i]).key != (#[trigger] hits[j]).key
    &&& forall|i: int| 0 <= i < hits.len() ==> (#[trigger] hits[i]).seeds.len() > 0
}

/// A failure that is met again keeps its place, its key and the message it was
/// first met with; one that is new comes last, with its own message and the
/// seed that shows it.
pub proof fn law_first_message_stays(hits: Seq<HitView>, seed: u64, v: ViolationView, i: int)
    ensures
        ({
            let r = fuzz::noted_one(hits, seed, v);
            let known = exists|j: int|
                0 <= j < hits.len() && (#[trigger] hits[j]).key == shrink::key_of(v);
            &&& 0 <= i < hits.len() ==> r[i].key == hits[i].key && r[i].message == hits[i].message
            &&& known ==> r.len() == hits.len()
            &&& !known ==> r.len() == hits.len() + 1 && r.last().key == shrink::key_of(v)
                && r.last().message == v.message && r.last().seeds == seq![seed]
        }),
{
    fuzz::lemma_find_hit(hits, shrink::key_of(v), 0);
}

proof fn lemma_apart_one(hits: Seq<HitView>, seed: u64, v: ViolationView)
    requires
        apart(hits),
    ensures
        apart(fuzz::noted_one(hits, seed, v)),
{
    let key = shrink::key_of(v);
    let i = fuzz::find_hit(hits, key, 0);
    fuzz::lemma_find_hit(hits, key, 0);
    let r = fuzz::noted_one(hits, seed, v);
    if i < hits.len() {
        assert forall|a: int, b: int| 0 <= a < b < r.len() implies (#[trigger] r[a]).key != (
        #[trigger] r[b]).key by {
            assert(hits[a].key != hits[b].key);
        }
        assert forall|a: int| 0 <= a < r.len() implies (#[trigger] r[a]).seeds.len() > 0 by {
            assert(hits[a].seeds.len() > 0);
        }
    } else {
        assert forall|a: int, b: int| 0 <= a < b < r.len() implies (#[trigger] r[a]).key != (
        #[trigger] r[b]).key by {
            assert(a < hits.len());
            assert(r[a] == hits[a]);
            if b < hits.len() {
                assert(r[b] == hits[b]);
            }
        }
        assert forall|a: int| 0 <= a < r.len() implies (#[trigger] r[a]).seeds.len() > 0 by {
            if a < hits.len() {
                assert(hits[a].seeds.len() > 0);
            }
        }
    }
}

proof fn lemma_apart_noted(hits: Seq<HitView>, seed: u64, v: Seq<ViolationView>, n: int)
    requires
        apart(hits),
    ensures
        apart(fuzz::noted(hits, seed, v, n)),
    decreases n,
{
    if n > 0 {
        lemma_apart_noted(hits, seed, v, n - 1);
        lemma_apart_one(fuzz::noted(hits, seed, v, n - 1), seed, v[n - 1]);
    }
}

proof fn lemma_apart(finds: spec_fn(u64) -> Seq<ViolationView>, seeds: Seq<u64>, n: int)
    ensures
        apart(fuzz::swept(finds, seeds, n).hits),
    decreases n,
{
    if n > 0 {
        lemma_apart(finds, seeds, n - 1);
        let v = finds(seeds[n - 1]);
        lemma_apart_noted(
            fuzz::swept(finds, seeds, n - 1).hits,
            seeds[n - 1],
            v,
            v.len() as int,
        );
    }
}

/// The finding at `k` is about the failure `key`, which `seed` shows.
pub open spec fn reports(all: Seq<HitView>, k: int, key: KeyView, seed: u64) -> bool {
    0 <= k < all.len() && all[k].key == key && all[k].seeds.contains(seed)
}

/// A finding is reported for a failure, with a seed, if and only if that seed
/// was tried and shows it; each failure is reported once.
pub proof fn law_findings_are_reported(
    finds: spec_fn(u64) -> Seq<ViolationView>,
    seeds: Seq<u64>,
    n: int,
    key: KeyView,
    seed: u64,
)
    requires
        0 <= n <= seeds.len(),
    ensures
        ({
            let all = fuzz::findings_of(fuzz::swept(finds, seeds, n).hits);
            &&& (exists|k: int| #[trigger] reports(all, k, key, seed)) <==> fuzz_laws::shown_by(
                finds,
                seeds,
                n,
                key,
                seed,
            )
            &&& forall|i: int, j: int|
                0 <= i < j < all.len() ==> (#[trigger] all[i]).key != (#[trigger] all[j]).key
        }),
{
    let hits = fuzz::swept(finds, seeds, n).hits;
    let sorted = fuzz::arranged(hits, fuzz::by_key());
    let all = fuzz::findings_of(hits);
    fuzz_laws::law_sweep_is_exact(finds, seeds, n, key, seed);
    lemma_apart(finds, seeds, n);
    fuzz::lemma_arranged_members(hits, fuzz::by_key());
    fuzz::lemma_find_hit(hits, key, 0);
    let i = fuzz::find_hit(hits, key, 0);
    if fuzz_laws::is_noted(hits, key, seed) {
        assert(hits.contains(hits[i]));
        assert(sorted.contains(hits[i]));
        let k = choose|k: int| 0 <= k < sorted.len() && sorted[k] == hits[i];
        fuzz_laws::law_seeds_in_order(hits[i]);
        assert(all[k] == fuzz::settled(hits[i]));
        assert(reports(all, k, key, seed));
    }
    if exists|k: int| #[trigger] reports(all, k, key, seed) {
        let k = choose|k: int| #[trigger] reports(all, k, key, seed);
        let h = sorted[k];
        assert(all[k] == fuzz::settled(h));
        assert(sorted.contains(h));
        assert(hits.contains(h));
        let j = choose|j: int| 0 <= j < hits.len() && hits[j] == h;
        fuzz_laws::law_seeds_in_order(h);
        assert(h.seeds.contains(seed));
        assert(hits[j].key == key);
        assert(i == j) by {
            if i < j {
                assert(hits[i].key != hits[j].key);
            }
        }
    }
    assert forall|a: int, b: int| 0 <= a < b < all.len() implies (#[trigger] all[a]).key != (
    #[trigger] all[b]).key by {
        lemma_keys_apart(hits, sorted, a, b);
    }
}

proof fn lemma_keys_apart(hits: Seq<HitView>, sorted: Seq<HitView>, a: int, b: int)
    requires
        apart(hits),
        sorted.to_multiset() == hits.to_multiset(),
        0 <= a < b < sorted.len(),
    ensures
        sorted[a].key != sorted[b].key,
{
    assert(hits.no_duplicates()) by {
        assert forall|i: int, j: int|
            0 <= i < hits.len() && 0 <= j < hits.len() && i != j implies hits[i] != hits[j] by {
            if i < j {
                assert(hits[i].key != hits[j].key);
            } else {
                assert(hits[j].key != hits[i].key);
            }
        }
    }
    broadcast use vstd::seq_lib::group_to_multiset_ensures;

    hits.lemma_multiset_has_no_duplicates();
    assert(sorted.no_duplicates()) by {
        assert forall|x: HitView| sorted.to_multiset().contains(x) implies
            sorted.to_multiset().count(x) == 1 by {
            assert(hits.to_multiset().contains(x));
        }
        sorted.lemma_multiset_has_no_duplicates_conv();
    }
    assert(sorted.to_multiset().contains(sorted[a]) && sorted.to_multiset().contains(sorted[b]));
    assert(hits.contains(sorted[a]) && hits.contains(sorted[b]));
    let i = choose|i: int| 0 <= i < hits.len() && hits[i] == sorted[a];
    let j = choose|j: int| 0 <= j < hits.len() && hits[j] == sorted[b];
    assert(sorted[a] != sorted[b]);
    if i < j {
        assert(hits[i].key != hits[j].key);
    } else {
        assert(hits[j].key != hits[i].key);
    }
}

/// What fuzzing reports is what it found in the seeds it tried, each with the
/// lowest seed that shows it; it says how many were tried, and that time ran
/// out exactly where some were not.
#[verifier::spinoff_prover]
#[verifier::rlimit(60)]
pub proof fn law_report<T: TailSource>(
    c: ConfigView,
    readings: Seq<Option<u64>>,
    n: int,
    tails: T,
    k: int,
    seed: u64,
)
    requires
        0 <= n <= fuzz::queue_of(c).len() <= u64::MAX,
    ensures
        ({
            let (report, repros) = fuzz::fuzzed(c, readings, n, tails);
            let all = fuzz::findings_of(
                fuzz::swept(fuzz::finds(c, readings, tails), fuzz::queue_of(c), n).hits,
            );
            &&& report.seeds_tested == n
            &&& report.seeds_failed == fuzz::queue_of(c).take(n).filter(
                |s: u64| fuzz::finds(c, readings, tails)(s).len() > 0,
            ).len()
            &&& report.budget_exhausted <==> n < fuzz::queue_of(c).len()
            &&& report.violations.len() == all.len() && repros.len() == all.len()
            &&& 0 <= k < all.len() ==> {
                let f = report.violations[k];
                &&& f.key == all[k].key
                &&& f.seeds_hit == all[k].seeds
                &&& f.seeds_hit.contains(f.seed)
                &&& f.seeds_hit.contains(seed) ==> f.seed <= seed
                &&& f.message == all[k].message
            }
        }),
{
    let finds = fuzz::finds(c, readings, tails);
    let queue = fuzz::queue_of(c);
    let s = fuzz::swept(finds, queue, n);
    fuzz_laws::law_sweep_counts(finds, queue, n);
    queue.take(n).lemma_filter_len(|s: u64| finds(s).len() > 0);
    lemma_lowest(finds, queue, n, k, seed);
}

proof fn lemma_lowest(
    finds: spec_fn(u64) -> Seq<ViolationView>,
    queue: Seq<u64>,
    n: int,
    k: int,
    seed: u64,
)
    ensures
        ({
            let all = fuzz::findings_of(fuzz::swept(finds, queue, n).hits);
            0 <= k < all.len() ==> all[k].seeds.len() > 0 && all[k].seeds.contains(all[k].seeds[0])
                && (all[k].seeds.contains(seed) ==> all[k].seeds[0] <= seed)
        }),
{
    let s = fuzz::swept(finds, queue, n);
    let all = fuzz::findings_of(s.hits);
    if 0 <= k < all.len() {
        let sorted = fuzz::arranged(s.hits, fuzz::by_key());
        let h = sorted[k];
        lemma_apart(finds, queue, n);
        fuzz::lemma_arranged_members(s.hits, fuzz::by_key());
        assert(sorted.contains(h));
        assert(s.hits.contains(h));
        let j = choose|j: int| 0 <= j < s.hits.len() && s.hits[j] == h;
        assert(s.hits[j].seeds.len() > 0);
        fuzz_laws::law_seeds_in_order(h);
        fuzz::lemma_arranged_members(h.seeds, fuzz::by_value());
        assert(all[k] == fuzz::settled(h));
        assert(all[k].seeds.contains(all[k].seeds[0]));
    }
}

/// Texts are ordered as in a dictionary: by the first character in which they
/// differ, and where there is none the shorter comes first.
pub proof fn law_dictionary_order(p: Seq<char>, a: Seq<char>, b: Seq<char>)
    ensures
        a.len() > 0 && b.len() > 0 && a[0] < b[0] ==> fuzz::text_lt(p + a, p + b)
            && !fuzz::text_lt(p + b, p + a),
        b.len() > 0 ==> fuzz::text_lt(p, p + b) && !fuzz::text_lt(p + b, p),
        !fuzz::text_lt(p, p),
    decreases p.len(),
{
    if p.len() > 0 {
        let q = p.drop_first();
        law_dictionary_order(q, a, b);
        assert((p + a).drop_first() =~= q + a);
        assert((p + b).drop_first() =~= q + b);
        assert((p + a)[0] == p[0] && (p + b)[0] == p[0]);
    } else {
        assert(p + a =~= a);
        assert(p + b =~= b);
    }
}

// ---------------------------------------------------------------------------
// Names of files
// ---------------------------------------------------------------------------

/// A letter or a digit.
pub open spec fn letter(c: char) -> bool {
    ('0' <= c <= '9') || ('a' <= c <= 'z') || ('A' <= c <= 'Z')
}

/// Letters, digits and dashes alone.
pub open spec fn safe(s: Seq<char>) -> bool {
    forall|i: int| 0 <= i < s.len() ==> letter(#[trigger] s[i]) || s[i] == '-'
}

/// The letters and digits of a text, in their order.
pub open spec fn letters(s: Seq<char>) -> Seq<char>
    decreases s.len(),
{
    if s.len() == 0 {
        s
    } else if letter(s.last()) {
        letters(s.drop_last()).push(s.last())
    } else {
        letters(s.drop_last())
    }
}

proof fn lemma_letters_behind(c: char, s: Seq<char>)
    requires
        !letter(c),
    ensures
        letters(seq![c] + s) == letters(s),
    decreases s.len(),
{
    let t = seq![c] + s;
    if s.len() == 0 {
        assert(t.drop_last() =~= s);
    } else {
        assert(t.drop_last() =~= seq![c] + s.drop_last());
        assert(t.last() == s.last());
        lemma_letters_behind(c, s.drop_last());
    }
}

proof fn lemma_dashed(s: Seq<char>)
    ensures
        safe(fuzz::dashed(s)),
        letters(fuzz::dashed(s)) == letters(s),
    decreases s.len(),
{
    if s.len() > 0 {
        let p = fuzz::dashed(s.drop_last());
        lemma_dashed(s.drop_last());
        assert(p.push(s.last()).drop_last() =~= p);
        assert(p.push('-').drop_last() =~= p);
    }
}

proof fn lemma_no_leading(s: Seq<char>)
    requires
        safe(s),
    ensures
        safe(fuzz::no_leading(s)),
        letters(fuzz::no_leading(s)) == letters(s),
        fuzz::no_leading(s).len() > 0 ==> letter(fuzz::no_leading(s)[0]),
    decreases s.len(),
{
    if s.len() > 0 && s[0] == '-' {
        let q = s.drop_first();
        assert(safe(q)) by {
            assert forall|i: int| 0 <= i < q.len() implies letter(#[trigger] q[i]) || q[i]
                == '-' by {
                assert(q[i] == s[i + 1]);
            }
        }
        lemma_no_leading(q);
        lemma_letters_behind('-', q);
        assert(seq!['-'] + q =~= s);
    }
}

proof fn lemma_no_trailing(s: Seq<char>)
    requires
        safe(s),
        s.len() > 0 ==> letter(s[0]),
    ensures
        safe(fuzz::no_trailing(s)),
        letters(fuzz::no_trailing(s)) == letters(s),
        fuzz::no_trailing(s).len() > 0 ==> letter(fuzz::no_trailing(s)[0]) && letter(
            fuzz::no_trailing(s).last(),
        ),
    decreases s.len(),
{
    if s.len() > 0 && s.last() == '-' {
        let q = s.drop_last();
        assert(safe(q)) by {
            assert forall|i: int| 0 <= i < q.len() implies letter(#[trigger] q[i]) || q[i]
                == '-' by {
                assert(q[i] == s[i]);
            }
        }
        lemma_no_trailing(q);
    } else if s.len() > 0 {
        assert(letter(s[s.len() - 1]) || s[s.len() - 1] == '-');
    }
}

/// The name of a file holds the letters and digits of what it is named after,
/// in their order, with dashes for the rest, and no dash at either end.
pub proof fn law_file_names(s: Seq<char>)
    ensures
        safe(fuzz::sanitized(s)),
        letters(fuzz::sanitized(s)) == letters(s),
        fuzz::sanitized(s).len() > 0 ==> letter(fuzz::sanitized(s)[0]) && letter(
            fuzz::sanitized(s).last(),
        ),
{
    lemma_dashed(s);
    lemma_no_leading(fuzz::dashed(s));
    lemma_no_trailing(fuzz::no_leading(fuzz::dashed(s)));
}

} // verus!
