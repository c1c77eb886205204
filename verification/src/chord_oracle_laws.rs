//! The laws of holding a recording of Chord against the model: the schedule is
//! that of the recording, no more and no less, and the verdict says what the
//! search found.

use vstd::prelude::*;

use crate::chord;
use crate::chord::{InvariantKind, NodeState};
use crate::chord_check_laws;
use crate::chord_model;
use crate::chord_model::{SchedEvent, ScheduleView};
use crate::chord_oracle;
use crate::chord_oracle::{Fault, PlanView};
use crate::log::RecordView;

verus! {

// ---------------------------------------------------------------------------
// The schedule
// ---------------------------------------------------------------------------

/// The report shows that the node `id` has failed, or where `fails` is not set,
/// that it has joined: that it lives and has a successor.
pub open spec fn shows(st: NodeState, id: i8, fails: bool) -> bool {
    st.ident as i8 == id && if fails {
        !st.alive
    } else {
        st.alive && st.succ >= 0
    }
}

proof fn lemma_first(s: Seq<NodeState>, id: i8, fails: bool, i: int)
    requires
        0 <= i <= s.len(),
    ensures
        match chord_oracle::first_shown(s, id, fails, i) {
            Some(d) => exists|j: int|
                i <= j < s.len() && shows(#[trigger] s[j], id, fails) && s[j].date == d && forall|
                    k: int,
                |
                    i <= k < j ==> !shows(#[trigger] s[k], id, fails),
            None => forall|j: int| i <= j < s.len() ==> !shows(#[trigger] s[j], id, fails),
        },
    decreases s.len() - i,
{
    if i < s.len() {
        if shows(s[i], id, fails) {
            assert(i <= i < s.len() && shows(s[i], id, fails));
        } else {
            lemma_first(s, id, fails, i + 1);
            let r = chord_oracle::first_shown(s, id, fails, i + 1);
            if r is Some {
                let j = choose|j: int|
                    i + 1 <= j < s.len() && shows(#[trigger] s[j], id, fails) && s[j].date
                        == r.unwrap() && forall|k: int|
                        i + 1 <= k < j ==> !shows(#[trigger] s[k], id, fails);
                assert(shows(s[j], id, fails));
                assert forall|k: int| i <= k < j implies !shows(#[trigger] s[k], id, fails) by {}
            }
        }
    }
}

/// The date of a join or a failure is that of the first report that shows it.
pub proof fn law_fault_at_its_first_report(s: Seq<NodeState>, id: i8, fails: bool)
    ensures
        match chord_oracle::first_shown(s, id, fails, 0) {
            Some(d) => exists|j: int|
                0 <= j < s.len() && shows(#[trigger] s[j], id, fails) && s[j].date == d && forall|
                    k: int,
                |
                    0 <= k < j ==> !shows(#[trigger] s[k], id, fails),
            None => forall|j: int| 0 <= j < s.len() ==> !shows(#[trigger] s[j], id, fails),
        },
{
    lemma_first(s, id, fails, 0);
}

proof fn lemma_placed(v: Seq<Fault>, f: Fault)
    requires
        v.no_duplicates(),
    ensures
        forall|g: Fault| #[trigger]
            chord_oracle::placed(v, f).contains(g) <==> v.contains(g) || g == f,
        !v.contains(f) ==> chord_oracle::placed(v, f).no_duplicates(),
    decreases v.len(),
{
    let r = chord_oracle::placed(v, f);
    if v.len() == 0 || !chord_oracle::before(f, v.last()) {
        lemma_push(v, f);
    } else {
        let p = v.drop_last();
        let q = chord_oracle::placed(p, f);
        assert(v =~= p.push(v.last()));
        assert(p.no_duplicates()) by {
            assert forall|i: int, j: int| 0 <= i < j < p.len() implies p[i] != p[j] by {
                assert(v[i] != v[j]);
            }
        }
        lemma_placed(p, f);
        lemma_push(p, v.last());
        lemma_push(q, v.last());
        if !v.contains(f) {
            assert(!p.contains(f));
            assert(!p.contains(v.last())) by {
                if p.contains(v.last()) {
                    let k = choose|k: int| 0 <= k < p.len() && p[k] == v.last();
                    assert(v[k] != v[v.len() - 1]);
                }
            }
            assert(v.contains(v.last())) by {
                assert(v[v.len() - 1] == v.last());
            }
            assert(!q.contains(v.last()));
        }
    }
}

proof fn lemma_push(v: Seq<Fault>, f: Fault)
    ensures
        forall|g: Fault| #[trigger] v.push(f).contains(g) <==> v.contains(g) || g == f,
        v.no_duplicates() && !v.contains(f) ==> v.push(f).no_duplicates(),
{
    let r = v.push(f);
    assert forall|g: Fault| #[trigger] r.contains(g) <==> v.contains(g) || g == f by {
        if v.contains(g) {
            let k = choose|k: int| 0 <= k < v.len() && v[k] == g;
            assert(r[k] == g);
        }
        if g == f {
            assert(r[v.len() as int] == g);
        }
        if r.contains(g) && g != f {
            let k = choose|k: int| 0 <= k < r.len() && r[k] == g;
            assert(v[k] == g);
        }
    }
    if v.no_duplicates() && !v.contains(f) {
        assert forall|i: int, j: int| 0 <= i < j < r.len() implies r[i] != r[j] by {
            if j < v.len() {
                assert(v[i] != v[j]);
            } else {
                assert(v.contains(v[i]));
            }
        }
    }
}

/// `id` is one of the first `n`.
spec fn among(ids: Seq<i8>, n: int, id: i8) -> bool {
    exists|k: int| 0 <= k < n && #[trigger] ids[k] == id
}

/// The schedule holds every join and every failure of a node outside the base
/// once, and nothing else.
#[verifier::spinoff_prover]
#[verifier::rlimit(30)]
proof fn lemma_faults(s: Seq<NodeState>, ids: Seq<i8>, base: Seq<i8>, n: int)
    requires
        chord_model::ascending(ids),
        0 <= n <= ids.len(),
    ensures
        chord_oracle::faults_of(s, ids, base, n).no_duplicates(),
        forall|f: Fault| #[trigger]
            chord_oracle::faults_of(s, ids, base, n).contains(f) <==> among(ids, n, f.id)
                && !base.contains(f.id) && chord_oracle::first_shown(s, f.id, f.fails, 0) == Some(
                f.date,
            ),
    decreases n,
{
    let v = chord_oracle::faults_of(s, ids, base, n);
    if n > 0 {
        lemma_faults(s, ids, base, n - 1);
        let u = chord_oracle::faults_of(s, ids, base, n - 1);
        let id = ids[n - 1];
        assert(!among(ids, n - 1, id)) by {
            if among(ids, n - 1, id) {
                let k = choose|k: int| 0 <= k < n - 1 && #[trigger] ids[k] == id;
                assert(ids[k] < ids[n - 1]);
            }
        }
        assert forall|x: i8| #[trigger] among(ids, n, x) <==> among(ids, n - 1, x) || x == id by {
            if x == id {
                assert(ids[n - 1] == x);
            }
        }
        if !base.contains(id) {
            let a = chord_oracle::first_shown(s, id, false, 0);
            let b = chord_oracle::first_shown(s, id, true, 0);
            let w = chord_oracle::placed_if(u, a, false, id);
            if a is Some {
                let f = Fault { date: a.unwrap(), fails: false, id };
                assert(!u.contains(f));
                lemma_placed(u, f);
            }
            assert(w.no_duplicates());
            if b is Some {
                let f = Fault { date: b.unwrap(), fails: true, id };
                assert(!u.contains(f));
                assert(!w.contains(f));
                lemma_placed(w, f);
            }
        }
    } else {
        assert(v =~= Seq::<Fault>::empty());
    }
}

/// The node joins, or where `fails` fails, in the schedule.
pub open spec fn scheduled(ev: Seq<SchedEvent>, id: i8, fails: bool) -> bool {
    if fails {
        ev.contains(SchedEvent::Fail(id))
    } else {
        ev.contains(SchedEvent::Join(id))
    }
}

/// The nodes of a recording are those that report. Those are of the base that
/// report a successor at the date 0. Of the others, a node joins in the schedule
/// if and only if a report shows it alive with a successor, and fails if and
/// only if one shows it dead; each once.
pub proof fn law_schedule_is_the_recorded(s: Seq<NodeState>, id: i8, fails: bool)
    ensures
        chord_oracle::idents_of(s).contains(id) <==> exists|i: int|
            0 <= i < s.len() && (#[trigger] s[i]).ident as i8 == id,
        chord_oracle::base_of(s).contains(id) <==> exists|i: int|
            0 <= i < s.len() && (#[trigger] s[i]).ident as i8 == id && s[i].date == 0 && s[i].succ
                >= 0,
        scheduled(chord_oracle::schedule_of(s), id, fails) <==> !chord_oracle::base_of(s).contains(
            id,
        ) && exists|i: int| 0 <= i < s.len() && shows(#[trigger] s[i], id, fails),
        chord_oracle::schedule_of(s).no_duplicates(),
{
    chord_oracle::law_nodes_are_those_that_report(s);
    let ids = chord_oracle::idents_of(s);
    let base = chord_oracle::base_of(s);
    let n = ids.len() as int;
    let f = chord_oracle::faults_of(s, ids, base, n);
    let ev = chord_oracle::schedule_of(s);
    lemma_faults(s, ids, base, n);
    assert(ids.contains(id) <==> exists|i: int|
        0 <= i < s.len() && (#[trigger] s[i]).ident as i8 == id) by {
        if ids.contains(id) {
            let i = choose|i: int| 0 <= i < s.len() && chord_oracle::name_of(#[trigger] s[i]) == id;
            assert(s[i].ident as i8 == id);
        }
        if exists|i: int| 0 <= i < s.len() && (#[trigger] s[i]).ident as i8 == id {
            let i = choose|i: int| 0 <= i < s.len() && (#[trigger] s[i]).ident as i8 == id;
            assert(chord_oracle::name_of(s[i]) == id);
        }
    }
    assert(base.contains(id) <==> exists|i: int|
        0 <= i < s.len() && (#[trigger] s[i]).ident as i8 == id && s[i].date == 0 && s[i].succ
            >= 0) by {
        if base.contains(id) {
            let i = choose|i: int|
                0 <= i < s.len() && chord_oracle::shows_base(#[trigger] s[i])
                    && chord_oracle::name_of(s[i]) == id;
            assert(s[i].ident as i8 == id);
        }
        if exists|i: int|
            0 <= i < s.len() && (#[trigger] s[i]).ident as i8 == id && s[i].date == 0 && s[i].succ
                >= 0 {
            let i = choose|i: int|
                0 <= i < s.len() && (#[trigger] s[i]).ident as i8 == id && s[i].date == 0
                    && s[i].succ >= 0;
            assert(chord_oracle::shows_base(s[i]) && chord_oracle::name_of(s[i]) == id);
        }
    }
    lemma_first(s, id, fails, 0);
    let first = chord_oracle::first_shown(s, id, fails, 0);
    let e = if fails {
        SchedEvent::Fail(id)
    } else {
        SchedEvent::Join(id)
    };
    if ev.contains(e) {
        let k = choose|k: int| 0 <= k < ev.len() && ev[k] == e;
        assert(f.contains(f[k]));
        assert(f[k].id == id && f[k].fails == fails);
        assert(first is Some);
    }
    if !base.contains(id) && first is Some {
        let g = Fault { date: first.unwrap(), fails, id };
        let j = choose|j: int| 0 <= j < s.len() && shows(#[trigger] s[j], id, fails);
        assert(s[j].ident as i8 == id);
        let k = choose|k: int| 0 <= k < ids.len() && ids[k] == id;
        assert(among(ids, n, id)) by {
            assert(ids[k] == id);
        }
        assert(f.contains(g));
        let l = choose|l: int| 0 <= l < f.len() && f[l] == g;
        assert(ev[l] == e);
    }
    assert forall|i: int, j: int| 0 <= i < j < ev.len() implies ev[i] != ev[j] by {
        if ev[i] == ev[j] {
            assert(f.contains(f[i]) && f.contains(f[j]));
            assert(f[i].id == f[j].id && f[i].fails == f[j].fails);
            assert(f[i].date == f[j].date);
            assert(f[i] != f[j]);
        }
    }
}

/// The schedule goes by date, and on one date joins come before failures.
pub proof fn law_schedule_goes_by_date(s: Seq<NodeState>, i: int, j: int)
    requires
        0 <= i < j < chord_oracle::schedule_of(s).len(),
    ensures
        ({
            let ids = chord_oracle::idents_of(s);
            let f = chord_oracle::faults_of(s, ids, chord_oracle::base_of(s), ids.len() as int);
            let ev = chord_oracle::schedule_of(s);
            &&& f.len() == ev.len()
            &&& f[i].date <= f[j].date
            &&& f[i].date == f[j].date && f[i].fails ==> f[j].fails
            &&& f[i].date == f[j].date && f[i].fails == f[j].fails ==> f[i].id <= f[j].id
            &&& ev[i] == (if f[i].fails {
                SchedEvent::Fail(f[i].id)
            } else {
                SchedEvent::Join(f[i].id)
            })
        }),
{
    let ids = chord_oracle::idents_of(s);
    let f = chord_oracle::faults_of(s, ids, chord_oracle::base_of(s), ids.len() as int);
    chord_oracle::law_faults_in_order(s, ids, chord_oracle::base_of(s), ids.len() as int);
    assert(!chord_oracle::before(f[j], f[i]));
}

// ---------------------------------------------------------------------------
// The verdict
// ---------------------------------------------------------------------------

/// A recording without a report is an error; one that violates nothing is
/// settled; any other is searched, in a model of its own scenario, for exactly
/// the invariants that it violates, by their names.
pub proof fn law_plan(records: Seq<RecordView>, path: Seq<char>, fix: u8, m: u32)
    ensures
        ({
            let n = records.len() as int;
            let s = chord_oracle::reports(records, n);
            let v = chord::violations_of(chord::gathered(records, n), m as nat);
            match chord_oracle::plan_of(records, path, fix, m) {
                Err(_) => s.len() == 0,
                Ok(PlanView::Settled(_)) => s.len() > 0 && v.len() == 0,
                Ok(PlanView::Search { model, classes }) => {
                    &&& s.len() > 0
                    &&& v.len() > 0
                    &&& model.m == m && model.fix == fix
                    &&& model.idents == chord_oracle::idents_of(s) && model.base
                        == chord_oracle::base_of(s)
                    &&& model.schedule == ScheduleView::Fixed(chord_oracle::schedule_of(s))
                    &&& classes.contains("AtLeastOneRing"@) <==> chord_check_laws::found(
                        v,
                        InvariantKind::AtLeastOneRing,
                    )
                    &&& classes.contains("AtMostOneRing"@) <==> chord_check_laws::found(
                        v,
                        InvariantKind::AtMostOneRing,
                    )
                    &&& classes.contains("OrderedRing"@) <==> chord_check_laws::found(
                        v,
                        InvariantKind::OrderedRing,
                    )
                    &&& classes.contains("ConnectedAppendages"@) <==> chord_check_laws::found(
                        v,
                        InvariantKind::ConnectedAppendages,
                    )
                },
            }
        }),
{
    let n = records.len() as int;
    let v = chord::violations_of(chord::gathered(records, n), m as nat);
    lemma_names();
    lemma_classes(v, InvariantKind::AtLeastOneRing);
    lemma_classes(v, InvariantKind::AtMostOneRing);
    lemma_classes(v, InvariantKind::OrderedRing);
    lemma_classes(v, InvariantKind::ConnectedAppendages);
    let c = chord_oracle::classes_of(v);
    if v.len() > 0 {
        assert(chord_check_laws::found(v, v[0].kind));
        lemma_classes(v, v[0].kind);
    }
    if c.len() > 0 {
        lemma_some_class(v);
    }
}

proof fn lemma_names()
    ensures
        "AtLeastOneRing"@ != "AtMostOneRing"@,
        "AtLeastOneRing"@ != "OrderedRing"@,
        "AtLeastOneRing"@ != "ConnectedAppendages"@,
        "AtMostOneRing"@ != "OrderedRing"@,
        "AtMostOneRing"@ != "ConnectedAppendages"@,
        "OrderedRing"@ != "ConnectedAppendages"@,
{
    reveal_strlit("AtLeastOneRing");
    reveal_strlit("AtMostOneRing");
    reveal_strlit("OrderedRing");
    reveal_strlit("ConnectedAppendages");
    assert("AtLeastOneRing"@.len() == 14);
    assert("AtMostOneRing"@.len() == 13);
    assert("OrderedRing"@.len() == 11);
    assert("ConnectedAppendages"@.len() == 19);
}

proof fn lemma_some_class(v: Seq<chord::ViolationView>)
    requires
        chord_oracle::classes_of(v).len() > 0,
    ensures
        v.len() > 0,
{
    if v.len() == 0 {
        assert(!chord_oracle::shows_kind(v, InvariantKind::AtLeastOneRing));
        assert(!chord_oracle::shows_kind(v, InvariantKind::AtMostOneRing));
        assert(!chord_oracle::shows_kind(v, InvariantKind::OrderedRing));
        assert(!chord_oracle::shows_kind(v, InvariantKind::ConnectedAppendages));
    }
}

proof fn lemma_classes(v: Seq<chord::ViolationView>, kind: InvariantKind)
    ensures
        chord_oracle::classes_of(v).contains(chord::kind_name(kind)) <==> chord_check_laws::found(
            v,
            kind,
        ),
{
    lemma_names();
    let b1 = chord_oracle::shows_kind(v, InvariantKind::AtLeastOneRing);
    let b2 = chord_oracle::shows_kind(v, InvariantKind::AtMostOneRing);
    let b3 = chord_oracle::shows_kind(v, InvariantKind::ConnectedAppendages);
    let b4 = chord_oracle::shows_kind(v, InvariantKind::OrderedRing);
    let p = chord_oracle::name_if(b1, InvariantKind::AtLeastOneRing);
    let q = chord_oracle::name_if(b2, InvariantKind::AtMostOneRing);
    let r = chord_oracle::name_if(b3, InvariantKind::ConnectedAppendages);
    let t = chord_oracle::name_if(b4, InvariantKind::OrderedRing);
    let name = chord::kind_name(kind);
    let all = p + q + r + t;
    assert(all == chord_oracle::classes_of(v));
    lemma_either(p + q + r, t, name);
    lemma_either(p + q, r, name);
    lemma_either(p, q, name);
    lemma_named(b1, InvariantKind::AtLeastOneRing, name);
    lemma_named(b2, InvariantKind::AtMostOneRing, name);
    lemma_named(b3, InvariantKind::ConnectedAppendages, name);
    lemma_named(b4, InvariantKind::OrderedRing, name);
    assert(chord_oracle::shows_kind(v, kind) <==> chord_check_laws::found(v, kind));
}

proof fn lemma_named(b: bool, kind: InvariantKind, name: Seq<char>)
    ensures
        chord_oracle::name_if(b, kind).contains(name) <==> b && name == chord::kind_name(kind),
{
    if b {
        assert(chord_oracle::name_if(b, kind)[0] == chord::kind_name(kind));
    }
}

proof fn lemma_either(p: Seq<Seq<char>>, q: Seq<Seq<char>>, a: Seq<char>)
    ensures
        (p + q).contains(a) <==> p.contains(a) || q.contains(a),
{
    let g = p + q;
    if p.contains(a) {
        let k = choose|k: int| 0 <= k < p.len() && p[k] == a;
        assert(g[k] == a);
    }
    if q.contains(a) {
        let k = choose|k: int| 0 <= k < q.len() && q[k] == a;
        assert(g[p.len() + k] == a);
    }
    if g.contains(a) {
        let k = choose|k: int| 0 <= k < g.len() && g[k] == a;
        if k < p.len() {
            assert(p[k] == a);
        } else {
            assert(q[k - p.len()] == a);
        }
    }
}

/// A search confirms a violation if and only if it found it, and denies it if
/// and only if it went through all states without; else it leaves it open. So
/// it is for a search of all schedules.
pub proof fn law_verdict_says_what_was_found(found: bool, exhausted: bool)
    ensures
        chord_oracle::outcome_of(found, exhausted) == "BOTH_CONFIRM"@ <==> found,
        chord_oracle::outcome_of(found, exhausted) == "DYNAMIC_ONLY"@ <==> !found && exhausted,
        chord_oracle::outcome_of(found, exhausted) == "UNDECIDED"@ <==> !found && !exhausted,
        chord_oracle::reach_of(found, exhausted) == "REACHABLE"@ <==> found,
        chord_oracle::reach_of(found, exhausted) == "unreachable (exhaustive)"@ <==> !found
            && exhausted,
        crate::raft_oracle::reach_of(found, exhausted) == "REACHABLE"@ <==> found,
        crate::raft_oracle::reach_of(found, exhausted) == "unreachable (exhaustive within bounds)"@
            <==> !found && exhausted,
{
    reveal_strlit("BOTH_CONFIRM");
    reveal_strlit("DYNAMIC_ONLY");
    reveal_strlit("UNDECIDED");
    reveal_strlit("REACHABLE");
    reveal_strlit("unreachable (exhaustive)");
    reveal_strlit("unreachable (exhaustive within bounds)");
    reveal_strlit("not found (BOUNDED — state budget hit, not exhaustive)");
    reveal_strlit("not found (BOUNDED — state budget hit)");
    assert("BOTH_CONFIRM"@[0] == 'B');
    assert("DYNAMIC_ONLY"@[0] == 'D');
    assert("UNDECIDED"@[0] == 'U');
    assert("REACHABLE"@[0] == 'R');
    assert("unreachable (exhaustive)"@[0] == 'u');
    assert("unreachable (exhaustive within bounds)"@[0] == 'u');
    assert("not found (BOUNDED — state budget hit, not exhaustive)"@[0] == 'n');
    assert("not found (BOUNDED — state budget hit)"@[0] == 'n');
}

/// Each invariant is looked for by a property of its own, but for a split ring
/// and one out of order, which share one.
pub proof fn law_properties_by_class()
    ensures
        chord_oracle::property_of("AtLeastOneRing"@) == "alor-after-schedule"@,
        chord_oracle::property_of("ConnectedAppendages"@) == "connapp-after-schedule"@,
        chord_oracle::property_of("OrderedRing"@) == "ordered-or-split-after-schedule"@,
        chord_oracle::property_of("AtMostOneRing"@) == "ordered-or-split-after-schedule"@,
{
    lemma_names();
}

} // verus!
