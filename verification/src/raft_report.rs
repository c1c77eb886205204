//! What a recording of Raft shows, as text: the check of election safety.

use vstd::prelude::*;
use std::collections::BTreeMap;

use crate::chord;
use crate::chord::ints_text;
use crate::chord_report::{DISCARDED, PASSED, VIOLATED};
use crate::log::{HeaderView, Log};
use crate::raft;
use crate::raft::{check, Verdict, VerdictView, Violation, ViolationView};
use crate::report;
use crate::report::push_padded;
use crate::text;
use crate::text::{copy_text, int_text, push_dec, push_int, push_text};

verus! {

/// The numbers of a set, in order.
pub open spec fn lists(v: Seq<i32>, s: Set<i32>) -> bool {
    &&& forall|i: int, j: int| 0 <= i < j < v.len() ==> v[i] < v[j]
    &&& forall|x: i32| #[trigger] v.contains(x) == s.contains(x)
}

/// The numbers of a finite set, in order.
pub open spec fn in_order(s: Set<i32>) -> Seq<i32> {
    choose|v: Seq<i32>| lists(v, s)
}

/// There is but one list of a set.
proof fn lemma_lists(v: Seq<i32>, w: Seq<i32>, s: Set<i32>)
    requires
        lists(v, s),
        lists(w, s),
    ensures
        v == w,
    decreases v.len(),
{
    if v.len() == 0 {
        if w.len() > 0 {
            assert(w.contains(w[0]));
            assert(v.contains(w[0]));
        }
        assert(v =~= w);
    } else {
        assert(v.contains(v.last()));
        assert(w.contains(v.last()));
        let j = choose|j: int| 0 <= j < w.len() && w[j] == v.last();
        assert(w.contains(w.last()));
        assert(v.contains(w.last()));
        let i = choose|i: int| 0 <= i < v.len() && v[i] == w.last();
        assert(v[i] <= v[v.len() - 1]);
        assert(w[j] <= w[w.len() - 1]);
        let p = v.drop_last();
        let q = w.drop_last();
        let r = s.remove(v.last());
        assert forall|x: i32| #[trigger] p.contains(x) == r.contains(x) by {
            if p.contains(x) {
                let k = choose|k: int| 0 <= k < p.len() && p[k] == x;
                assert(v[k] == x && v[k] < v[v.len() - 1]);
                assert(v.contains(x));
            }
            if r.contains(x) {
                assert(v.contains(x));
                let k = choose|k: int| 0 <= k < v.len() && v[k] == x;
                assert(p[k] == x);
            }
        }
        assert forall|x: i32| #[trigger] q.contains(x) == r.contains(x) by {
            if q.contains(x) {
                let k = choose|k: int| 0 <= k < q.len() && q[k] == x;
                assert(w[k] == x && w[k] < w[w.len() - 1]);
                assert(w.contains(x));
            }
            if r.contains(x) {
                assert(w.contains(x));
                let k = choose|k: int| 0 <= k < w.len() && w[k] == x;
                assert(q[k] == x);
            }
        }
        lemma_lists(p, q, r);
        assert(v =~= p.push(v.last()));
        assert(w =~= q.push(w.last()));
    }
}

/// The terms that had a leader, in order.
fn terms(m: &BTreeMap<i32, Vec<i32>>) -> (v: Vec<i32>)
    ensures
        v@ == in_order(m@.dom()),
        lists(v@, m@.dom()),
{
    broadcast use vstd::std_specs::btree::group_btree_axioms;
    broadcast use vstd::laws_cmp::group_laws_cmp;

    let all = m.iter();
    let ghost s = vstd::std_specs::iter::IteratorSpec::remaining(&all);
    let mut v: Vec<i32> = Vec::new();
    for kv in it: all
        invariant
            it.seq() == s,
            v@.len() == it.index(),
            forall|i: int| 0 <= i < v@.len() ==> v@[i] == *(#[trigger] s[i]).0,
    {
        v.push(*kv.0);
    }
    proof {
        let keys = s.map_values(|kv: (&i32, &Vec<i32>)| *kv.0);
        assert(v@ =~= keys);
        assert forall|x: i32| #[trigger] v@.contains(x) == m@.dom().contains(x) by {
            if v@.contains(x) {
                let i = choose|i: int| 0 <= i < v@.len() && v@[i] == x;
                assert(m@.contains_key(*s[i].0));
            }
            if m@.contains_key(x) {
                assert(s.contains((&x, &m@[x])));
                let i = choose|i: int| 0 <= i < s.len() && s[i] == (&x, &m@[x]);
                assert(v@[i] == x);
            }
        }
        assert(vstd::std_specs::btree::increasing_seq(keys));
        assert forall|i: int, j: int| 0 <= i < j < v@.len() implies v@[i] < v@[j] by {
            assert(vstd::std_specs::cmp::OrdSpec::cmp_spec(&keys[i], &keys[j]) is Less);
        }
        assert(lists(v@, m@.dom()));
        lemma_lists(v@, in_order(m@.dom()), m@.dom());
    }
    v
}

pub open spec fn check_head(h: HeaderView, path: Seq<char>) -> Seq<char> {
    "=============== RAFT ELECTION-SAFETY CHECK ===============\nrecording : "@ + path
        + "  (seed "@ + text::dec(h.seed as nat) + ", net "@ + h.net + ")\n"@
}

pub open spec fn counts_text(v: VerdictView) -> Seq<char> {
    "reports   : "@ + text::dec(v.reports as nat) + " state reports, "@ + text::dec(
        v.restarts as nat,
    ) + " crash-restarts\n"@
}

pub open spec fn term_line(term: i32, leaders: Seq<i32>) -> Seq<char> {
    "term "@ + report::padded(text::dec_int(term as int), 4) + "  leaders: "@ + chord::list_text(
        leaders,
    ) + "\n"@
}

/// The lines for the first `n` of the terms.
pub open spec fn term_lines(leaders: Map<i32, Seq<i32>>, terms: Seq<i32>, n: int) -> Seq<char>
    decreases n,
{
    if n <= 0 {
        Seq::empty()
    } else {
        term_lines(leaders, terms, n - 1) + term_line(terms[n - 1], leaders[terms[n - 1]])
    }
}

pub open spec fn violation_line(v: ViolationView) -> Seq<char> {
    "  ✗ term "@ + text::dec_int(v.term as int) + ": leaders "@ + chord::list_text(v.leaders)
        + " (second leader at op "@ + text::dec(v.at_op as nat) + ")\n"@
}

/// The lines for the first `n` violations.
pub open spec fn violation_lines(v: Seq<ViolationView>, n: int) -> Seq<char>
    decreases n,
{
    if n <= 0 {
        Seq::empty()
    } else {
        violation_lines(v, n - 1) + violation_line(v[n - 1])
    }
}

/// Whether no term had a leader.
pub open spec fn shows_nothing(v: VerdictView) -> bool {
    v.leaders.dom() == Set::<i32>::empty()
}

pub open spec fn verdict_text(v: VerdictView) -> Seq<char> {
    if shows_nothing(v) {
        "\nverdict   : DISCARD — no leader elected; seed uninformative\n"@
    } else if v.violations.len() == 0 {
        "\nverdict   : OK — at most one leader per term\n"@
    } else {
        "\nverdict   : VIOLATION — ElectionSafety broken\n"@ + violation_lines(
            v.violations,
            v.violations.len() as int,
        )
    }
}

pub open spec fn check_code(v: VerdictView) -> u8 {
    if shows_nothing(v) {
        DISCARDED
    } else if v.violations.len() == 0 {
        PASSED
    } else {
        VIOLATED
    }
}

pub open spec fn check_text(h: HeaderView, path: Seq<char>, v: VerdictView) -> Seq<char> {
    let terms = in_order(v.leaders.dom());
    check_head(h, path) + counts_text(v) + term_lines(v.leaders, terms, terms.len() as int)
        + verdict_text(v) + "==========================================================\n"@
}

fn head(log: &Log, path: &str) -> (s: String)
    ensures
        s@ == check_head(log@.header, path@),
{
    let mut s = copy_text(
        "=============== RAFT ELECTION-SAFETY CHECK ===============\nrecording : ",
    );
    push_text(&mut s, path);
    push_text(&mut s, "  (seed ");
    push_dec(&mut s, log.header.seed);
    push_text(&mut s, ", net ");
    push_text(&mut s, log.header.net.as_str());
    push_text(&mut s, ")\n");
    s
}

fn counts(v: &Verdict) -> (s: String)
    ensures
        s@ == counts_text(v@),
{
    let mut s = copy_text("reports   : ");
    push_dec(&mut s, v.reports);
    push_text(&mut s, " state reports, ");
    push_dec(&mut s, v.restarts as u64);
    push_text(&mut s, " crash-restarts\n");
    s
}

fn line_of_term(term: i32, leaders: &Vec<i32>) -> (s: String)
    ensures
        s@ == term_line(term, leaders@),
{
    let mut s = copy_text("term ");
    push_padded(&mut s, int_text(term).as_str(), 4);
    push_text(&mut s, "  leaders: ");
    push_text(&mut s, ints_text(leaders).as_str());
    push_text(&mut s, "\n");
    s
}

fn line_of_violation(v: &Violation) -> (s: String)
    ensures
        s@ == violation_line(v@),
{
    let mut s = copy_text("  ✗ term ");
    push_int(&mut s, v.term);
    push_text(&mut s, ": leaders ");
    push_text(&mut s, ints_text(&v.leaders).as_str());
    push_text(&mut s, " (second leader at op ");
    push_dec(&mut s, v.at_op);
    push_text(&mut s, ")\n");
    s
}

fn lines_of_terms(v: &Verdict) -> (s: String)
    ensures
        ({
            let t = in_order(v@.leaders.dom());
            s@ == term_lines(v@.leaders, t, t.len() as int)
        }),
{
    let t = terms(&v.leaders_by_term);
    assert(v@.leaders.dom() =~= v.leaders_by_term@.dom());
    let mut s = String::new();
    let mut i: usize = 0;
    assert(s@ =~= Seq::<char>::empty());
    while i < t.len()
        invariant
            i <= t@.len(),
            lists(t@, v.leaders_by_term@.dom()),
            s@ == term_lines(v@.leaders, t@, i as int),
        decreases t@.len() - i,
    {
        assert(t@.contains(t@[i as int]));
        if let Some(l) = v.leaders_by_term.get(&t[i]) {
            push_text(&mut s, line_of_term(t[i], l).as_str());
        }
        i = i + 1;
    }
    s
}

fn verdict(v: &Verdict) -> (s: String)
    ensures
        s@ == verdict_text(v@),
{
    let ghost vv = v@.violations;
    if v.uninformative() {
        return copy_text("\nverdict   : DISCARD — no leader elected; seed uninformative\n");
    }
    if v.violations.len() == 0 {
        return copy_text("\nverdict   : OK — at most one leader per term\n");
    }
    let mut lines = String::new();
    let mut i: usize = 0;
    assert(lines@ =~= Seq::<char>::empty());
    while i < v.violations.len()
        invariant
            i <= v.violations@.len(),
            vv == raft::violation_views(v.violations@),
            lines@ == violation_lines(vv, i as int),
        decreases v.violations@.len() - i,
    {
        assert(vv[i as int] == v.violations@[i as int]@);
        push_text(&mut lines, line_of_violation(&v.violations[i]).as_str());
        i = i + 1;
    }
    let mut s = copy_text("\nverdict   : VIOLATION — ElectionSafety broken\n");
    push_text(&mut s, lines.as_str());
    s
}

/// Check a recording for election safety: the report for a reader, and the
/// exit code.
#[must_use]
pub fn check_report(log: &Log, path: &str) -> (r: (String, u8))
    requires
        log@.records.len() < u32::MAX,
    ensures
        ({
            let v = raft::scanned(log@.records, log@.records.len() as int);
            &&& r.0@ == check_text(log@.header, path@, v)
            &&& r.1 == check_code(v)
        }),
{
    let v = check(log);
    let mut s = head(log, path);
    push_text(&mut s, counts(&v).as_str());
    push_text(&mut s, lines_of_terms(&v).as_str());
    push_text(&mut s, verdict(&v).as_str());
    push_text(&mut s, "==========================================================\n");
    let code: u8 = if v.uninformative() {
        DISCARDED
    } else if v.violations.len() == 0 {
        PASSED
    } else {
        VIOLATED
    };
    assert(v@.violations.len() == v.violations@.len());
    (s, code)
}

} // verus!
