//! Laws of fuzzing: a sweep reports exactly what the seeds show, from the
//! smallest seed that shows it, and seeds that failed before come first.

use vstd::prelude::*;

use crate::fault::TailSource;
use crate::fuzz;
use crate::fuzz::HitView;
use crate::fuzz_config;
use crate::fuzz_config::ConfigView;
use crate::monitor::ViolationView;
use crate::shrink;
use crate::shrink::KeyView;
use crate::workload;

verus! {

/// Whether the violations show the failure `key`.
pub open spec fn raises(v: Seq<ViolationView>, key: KeyView) -> bool {
    exists|k: int| 0 <= k < v.len() && shrink::key_of(#[trigger] v[k]) == key
}

/// Whether `seed` is noted under the failure `key`.
pub open spec fn is_noted(hits: Seq<HitView>, key: KeyView, seed: u64) -> bool {
    let i = fuzz::find_hit(hits, key, 0);
    i < hits.len() && hits[i].seeds.contains(seed)
}

proof fn lemma_same_keys(a: Seq<HitView>, b: Seq<HitView>, key: KeyView, i: int)
    requires
        a.len() == b.len(),
        forall|j: int| 0 <= j < a.len() ==> (#[trigger] a[j]).key == b[j].key,
        0 <= i <= a.len(),
    ensures
        fuzz::find_hit(a, key, i) == fuzz::find_hit(b, key, i),
    decreases a.len() - i,
{
    if i < a.len() {
        assert(a[i].key == b[i].key);
        lemma_same_keys(a, b, key, i + 1);
    }
}

proof fn lemma_find_pushed(hits: Seq<HitView>, x: HitView, key: KeyView, i: int)
    requires
        0 <= i <= hits.len(),
    ensures
        ({
            let f = fuzz::find_hit(hits, key, i);
            fuzz::find_hit(hits.push(x), key, i) == if f < hits.len() {
                f
            } else if x.key == key {
                hits.len() as int
            } else {
                hits.len() as int + 1
            }
        }),
    decreases hits.len() - i,
{
    let p = hits.push(x);
    if i < hits.len() {
        assert(p[i] == hits[i]);
        lemma_find_pushed(hits, x, key, i + 1);
    } else {
        assert(p[i] == x);
        reveal_with_fuel(fuzz::find_hit, 2);
    }
}

proof fn lemma_noted_one(hits: Seq<HitView>, seed: u64, v: ViolationView, key: KeyView, s: u64)
    ensures
        is_noted(fuzz::noted_one(hits, seed, v), key, s) <==> is_noted(hits, key, s) || (s == seed
            && key == shrink::key_of(v)),
{
    let k = shrink::key_of(v);
    let i = fuzz::find_hit(hits, k, 0);
    fuzz::lemma_find_hit(hits, k, 0);
    fuzz::lemma_find_hit(hits, key, 0);
    let next = fuzz::noted_one(hits, seed, v);
    if i < hits.len() {
        let h = hits[i];
        lemma_same_keys(hits, next, key, 0);
        if !h.seeds.contains(seed) {
            let more = h.seeds.push(seed);
            assert(more[h.seeds.len() as int] == seed);
            assert(more.contains(s) <==> h.seeds.contains(s) || s == seed) by {
                if h.seeds.contains(s) {
                    let j = choose|j: int| 0 <= j < h.seeds.len() && h.seeds[j] == s;
                    assert(more[j] == s);
                }
                if more.contains(s) && s != seed {
                    let j = choose|j: int| 0 <= j < more.len() && more[j] == s;
                    assert(h.seeds[j] == s);
                }
            }
        }
        if key == k {
            assert(fuzz::find_hit(hits, key, 0) == i);
        } else if fuzz::find_hit(hits, key, 0) < hits.len() {
            assert(fuzz::find_hit(hits, key, 0) != i);
        }
    } else {
        let x = HitView { key: k, message: v.message, seeds: seq![seed] };
        lemma_find_pushed(hits, x, key, 0);
        assert(seq![seed][0] == seed);
        assert(x.seeds.contains(s) <==> s == seed);
    }
}

proof fn lemma_noted(
    hits: Seq<HitView>,
    seed: u64,
    v: Seq<ViolationView>,
    n: int,
    key: KeyView,
    s: u64,
)
    requires
        0 <= n <= v.len(),
    ensures
        is_noted(fuzz::noted(hits, seed, v, n), key, s) <==> is_noted(hits, key, s) || (s == seed
            && raises(v.take(n), key)),
    decreases n,
{
    if n > 0 {
        lemma_noted(hits, seed, v, n - 1, key, s);
        lemma_noted_one(fuzz::noted(hits, seed, v, n - 1), seed, v[n - 1], key, s);
        let a = v.take(n - 1);
        let b = v.take(n);
        assert(b[n - 1] == v[n - 1]);
        assert(raises(b, key) <==> raises(a, key) || shrink::key_of(v[n - 1]) == key) by {
            if raises(a, key) {
                let k = choose|k: int| 0 <= k < a.len() && shrink::key_of(#[trigger] a[k]) == key;
                assert(b[k] == a[k]);
            }
            if raises(b, key) {
                let k = choose|k: int| 0 <= k < b.len() && shrink::key_of(#[trigger] b[k]) == key;
                if k < n - 1 {
                    assert(a[k] == b[k]);
                }
            }
        }
    }
}

/// Whether `seed` is among the first `n` and shows the failure `key`.
pub open spec fn shown_by(
    finds: spec_fn(u64) -> Seq<ViolationView>,
    seeds: Seq<u64>,
    n: int,
    key: KeyView,
    seed: u64,
) -> bool {
    exists|j: int| 0 <= j < n && #[trigger] seeds[j] == seed && raises(finds(seed), key)
}

/// A sweep finds exactly what is there: a seed is noted under a failure where
/// it was tried and shows it, and nowhere else.
pub proof fn law_sweep_is_exact(
    finds: spec_fn(u64) -> Seq<ViolationView>,
    seeds: Seq<u64>,
    n: int,
    key: KeyView,
    seed: u64,
)
    requires
        0 <= n <= seeds.len(),
    ensures
        is_noted(fuzz::swept(finds, seeds, n).hits, key, seed) <==> shown_by(
            finds,
            seeds,
            n,
            key,
            seed,
        ),
    decreases n,
{
    if n > 0 {
        law_sweep_is_exact(finds, seeds, n - 1, key, seed);
        let m = fuzz::swept(finds, seeds, n - 1);
        let x = seeds[n - 1];
        let v = finds(x);
        lemma_noted(m.hits, x, v, v.len() as int, key, seed);
        assert(v.take(v.len() as int) =~= v);
        if shown_by(finds, seeds, n, key, seed) {
            let j = choose|j: int|
                0 <= j < n && #[trigger] seeds[j] == seed && raises(finds(seed), key);
            if j < n - 1 {
                assert(shown_by(finds, seeds, n - 1, key, seed));
            }
        }
        if shown_by(finds, seeds, n - 1, key, seed) {
            let j = choose|j: int|
                0 <= j < n - 1 && #[trigger] seeds[j] == seed && raises(finds(seed), key);
            assert(seeds[j] == seed);
        }
        if seed == x && raises(v, key) {
            assert(seeds[n - 1] == seed);
        }
    }
}

/// A sweep counts every seed that it tries, and fails those that raise
/// anything.
pub proof fn law_sweep_counts(
    finds: spec_fn(u64) -> Seq<ViolationView>,
    seeds: Seq<u64>,
    n: int,
)
    requires
        0 <= n <= seeds.len(),
    ensures
        fuzz::swept(finds, seeds, n).tested == n,
        fuzz::swept(finds, seeds, n).failed == seeds.take(n).filter(
            |s: u64| finds(s).len() > 0,
        ).len(),
    decreases n,
{
    let p = |s: u64| finds(s).len() > 0;
    if n > 0 {
        law_sweep_counts(finds, seeds, n - 1);
        let a = seeds.take(n - 1);
        let b = seeds.take(n);
        assert(b.drop_last() =~= a);
        reveal(Seq::filter);
    } else {
        assert(seeds.take(0) =~= Seq::<u64>::empty());
        reveal(Seq::filter);
    }
}

/// Seeds that failed before are tried before anything else.
pub proof fn law_regressions_first(c: ConfigView, i: int)
    requires
        0 <= i < c.regression_seeds.len(),
    ensures
        fuzz::queue_of(c)[i] == c.regression_seeds[i],
{
}

/// Every seed of the range is tried.
pub proof fn law_range_is_tried(c: ConfigView, seed: u64)
    requires
        c.seed_start <= seed < c.seed_start + c.seed_count,
        seed < u64::MAX,
    ensures
        fuzz::queue_of(c).contains(seed),
{
    let i = c.regression_seeds.len() + (seed - c.seed_start);
    assert(fuzz::queue_of(c)[i] == seed);
}

pub open spec fn in_order(s: Seq<u64>) -> bool {
    forall|i: int, j: int| 0 <= i < j < s.len() ==> s[i] <= s[j]
}

proof fn lemma_put_order(s: Seq<u64>, x: u64)
    requires
        in_order(s),
    ensures
        in_order(fuzz::put(s, x, fuzz::by_value())),
        fuzz::put(s, x, fuzz::by_value()).len() == s.len() + 1,
        forall|i: int|
            0 <= i < s.len() + 1 ==> (#[trigger] fuzz::put(s, x, fuzz::by_value())[i] == x
                || s.contains(fuzz::put(s, x, fuzz::by_value())[i])),
    decreases s.len(),
{
    let r = fuzz::put(s, x, fuzz::by_value());
    if s.len() == 0 || !(x < s.last()) {
        assert(r == s.push(x));
        assert forall|i: int| 0 <= i < r.len() implies (#[trigger] r[i] == x || s.contains(
            r[i],
        )) by {
            if i < s.len() {
                assert(s[i] == r[i]);
            }
        }
    } else {
        let p = s.drop_last();
        let q = fuzz::put(p, x, fuzz::by_value());
        lemma_put_order(p, x);
        assert(r == q.push(s.last()));
        assert forall|i: int| 0 <= i < r.len() implies (#[trigger] r[i] == x || s.contains(
            r[i],
        )) by {
            if i < q.len() {
                assert(q[i] == x || p.contains(q[i]));
                if q[i] != x {
                    let k = choose|k: int| 0 <= k < p.len() && p[k] == q[i];
                    assert(s[k] == r[i]);
                }
            } else {
                assert(s[s.len() - 1] == r[i]);
            }
        }
        assert forall|i: int, j: int| 0 <= i < j < r.len() implies r[i] <= r[j] by {
            if j == q.len() {
                assert(q[i] == x || p.contains(q[i]));
                if q[i] != x {
                    let k = choose|k: int| 0 <= k < p.len() && p[k] == q[i];
                    assert(s[k] <= s[s.len() - 1]);
                }
            }
        }
    }
}

/// The seeds of a finding are those that were noted, in order; the one that it
/// is shrunk from is the smallest.
pub proof fn law_seeds_in_order(h: HitView)
    ensures
        in_order(fuzz::settled(h).seeds),
        forall|x: u64| fuzz::settled(h).seeds.contains(x) <==> h.seeds.contains(x),
        h.seeds.len() > 0 ==> forall|x: u64|
            h.seeds.contains(x) ==> fuzz::settled(h).seeds[0] <= x,
{
    lemma_arranged_order(h.seeds);
    fuzz::lemma_arranged_members(h.seeds, fuzz::by_value());
    let s = fuzz::settled(h).seeds;
    if h.seeds.len() > 0 {
        assert forall|x: u64| h.seeds.contains(x) implies s[0] <= x by {
            assert(s.contains(x));
            let k = choose|k: int| 0 <= k < s.len() && s[k] == x;
            if k > 0 {
                assert(s[0] <= s[k]);
            }
        }
    }
}

proof fn lemma_arranged_order(s: Seq<u64>)
    ensures
        in_order(fuzz::arranged(s, fuzz::by_value())),
    decreases s.len(),
{
    if s.len() > 0 {
        lemma_arranged_order(s.drop_last());
        lemma_put_order(fuzz::arranged(s.drop_last(), fuzz::by_value()), s.last());
    }
}

pub open spec fn ascending(s: Seq<u64>) -> bool {
    forall|i: int, j: int| 0 <= i < j < s.len() ==> s[i] < s[j]
}

/// No seed is noted twice under a failure.
pub open spec fn noted_once(hits: Seq<HitView>) -> bool {
    forall|i: int| 0 <= i < hits.len() ==> (#[trigger] hits[i]).seeds.no_duplicates()
}

proof fn lemma_noted_once(hits: Seq<HitView>, seed: u64, v: Seq<ViolationView>, n: int)
    requires
        noted_once(hits),
    ensures
        noted_once(fuzz::noted(hits, seed, v, n)),
    decreases n,
{
    if n > 0 {
        lemma_noted_once(hits, seed, v, n - 1);
        let p = fuzz::noted(hits, seed, v, n - 1);
        let q = fuzz::noted(hits, seed, v, n);
        fuzz::lemma_find_hit(p, shrink::key_of(v[n - 1]), 0);
        assert forall|i: int| 0 <= i < q.len() implies (#[trigger] q[i]).seeds.no_duplicates() by {
            if i < p.len() {
                assert(p[i].seeds.no_duplicates());
            }
        }
    }
}

proof fn lemma_swept_once(
    finds: spec_fn(u64) -> Seq<ViolationView>,
    seeds: Seq<u64>,
    n: int,
)
    requires
        0 <= n <= seeds.len(),
    ensures
        noted_once(fuzz::swept(finds, seeds, n).hits),
    decreases n,
{
    if n > 0 {
        lemma_swept_once(finds, seeds, n - 1);
        let v = finds(seeds[n - 1]);
        lemma_noted_once(fuzz::swept(finds, seeds, n - 1).hits, seeds[n - 1], v, v.len() as int);
    }
}

/// The seeds of every finding of a sweep go up, each once.
pub proof fn law_found_seeds_go_up(
    finds: spec_fn(u64) -> Seq<ViolationView>,
    seeds: Seq<u64>,
    n: int,
    k: int,
)
    requires
        0 <= n <= seeds.len(),
        0 <= k < fuzz::findings_of(fuzz::swept(finds, seeds, n).hits).len(),
    ensures
        ascending(fuzz::findings_of(fuzz::swept(finds, seeds, n).hits)[k].seeds),
{
    let hits = fuzz::swept(finds, seeds, n).hits;
    lemma_swept_once(finds, seeds, n);
    let s = fuzz::arranged(hits, fuzz::by_key());
    fuzz::lemma_arranged_members(hits, fuzz::by_key());
    assert(s.contains(s[k]));
    assert(hits.contains(s[k]));
    let j = choose|j: int| 0 <= j < hits.len() && hits[j] == s[k];
    let h = hits[j];
    assert(h.seeds.no_duplicates());
    let r = fuzz::settled(h).seeds;
    law_seeds_in_order(h);
    fuzz::lemma_arranged_members(h.seeds, fuzz::by_value());
    lemma_no_duplicates_kept(h.seeds, r);
    assert(fuzz::findings_of(hits)[k].seeds == r);
    assert forall|a: int, b: int| 0 <= a < b < r.len() implies r[a] < r[b] by {
        assert(r[a] <= r[b]);
        assert(r[a] != r[b]);
    }
}

proof fn lemma_no_duplicates_kept(s: Seq<u64>, t: Seq<u64>)
    requires
        s.no_duplicates(),
        s.to_multiset() == t.to_multiset(),
    ensures
        t.no_duplicates(),
{
    s.lemma_multiset_has_no_duplicates();
    assert forall|x: u64| t.to_multiset().contains(x) implies t.to_multiset().count(x) == 1 by {
        assert(s.to_multiset().contains(x));
    }
    t.lemma_multiset_has_no_duplicates_conv();
}

/// A seed that failed before is tried, however late it is.
pub proof fn law_regressions_are_not_skipped(c: ConfigView, i: int, late: bool)
    requires
        0 <= i < c.regression_seeds.len(),
    ensures
        fuzz::next_of(fuzz::queue_of(c), c.regression_seeds.len() as int, i, late) == Some(
            c.regression_seeds[i],
        ),
{
}

/// What a seed that failed before shows is found again by every run, whatever
/// its clock says.
pub proof fn law_regressions_are_found_again<T: TailSource, F: Fn() -> u64>(
    c: ConfigView,
    readings: Seq<Option<u64>>,
    clock: F,
    n: int,
    tails: T,
    i: int,
    key: KeyView,
)
    requires
        fuzz::stops_at(c, clock, n),
        0 <= i < c.regression_seeds.len(),
        raises(fuzz::finds(c, readings, tails)(c.regression_seeds[i]), key),
    ensures
        is_noted(
            fuzz::swept(fuzz::finds(c, readings, tails), fuzz::queue_of(c), n).hits,
            key,
            c.regression_seeds[i],
        ),
{
    let f = fuzz::finds(c, readings, tails);
    let q = fuzz::queue_of(c);
    assert(q[i] == c.regression_seeds[i]);
    law_sweep_is_exact(f, q, n, key, q[i]);
}

/// A run does not depend on the number of its workers, nor on where its files
/// go.
pub proof fn law_run_ignores_workers<T: TailSource>(
    c: ConfigView,
    d: ConfigView,
    readings: Seq<Option<u64>>,
    n: int,
    tails: T,
)
    requires
        d == (ConfigView { jobs: d.jobs, out_dir: d.out_dir, ..c }),
    ensures
        fuzz::queue_of(c) == fuzz::queue_of(d),
        fuzz::fuzzed(c, readings, n, tails) == fuzz::fuzzed(d, readings, n, tails),
{
    let ops = workload::generated(fuzz_config::resolved(c.workload));
    assert(fuzz::finds(c, readings, tails) =~= fuzz::finds(d, readings, tails));
    let queue = fuzz::queue_of(c);
    let s = fuzz::swept(fuzz::finds(c, readings, tails), queue, n);
    let all = fuzz::findings_of(s.hits);
    let x = fuzz::fuzzed(c, readings, n, tails);
    let y = fuzz::fuzzed(d, readings, n, tails);
    assert forall|h: HitView| #[trigger]
        fuzz::reproduced(c, readings, ops, h, tails) == fuzz::reproduced(
            d,
            readings,
            ops,
            h,
            tails,
        ) by {}
    assert(x.0.violations =~= y.0.violations);
    assert(x.1 =~= y.1);
}

} // verus!
