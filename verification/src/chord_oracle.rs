//! Holding a recorded violation against the Chord model: the joins and
//! failures of a recording become the schedule of a search, and what the
//! search finds becomes a verdict.
//!
//! `BOTH_CONFIRM` says that the model reaches the same kind of violation under
//! the same schedule, `DYNAMIC_ONLY` that it provably cannot, and `UNDECIDED`
//! that the search ran out of states before it was done.

use vstd::prelude::*;

use crate::chord;
use crate::chord::{sent_report, ChordViolation, InvariantKind, NodeState, Snapshot, ViolationView};
use crate::chord_model;
use crate::chord_model::{ChordModel, ModelView, SchedEvent, Schedule, ScheduleView};
use crate::chord_model_laws;
use crate::log::{Log, RecordView};
use crate::text;
use crate::text::{copy_text, push_dec, push_text, same_text};

verus! {

// ---------------------------------------------------------------------------
// What a recording holds
// ---------------------------------------------------------------------------

/// The reports that the first `n` records send, in order.
pub open spec fn reports(records: Seq<RecordView>, n: int) -> Seq<NodeState>
    decreases n,
{
    if n <= 0 {
        Seq::empty()
    } else {
        match chord::sent_in(records[n - 1].e) {
            Some(st) => reports(records, n - 1).push(st),
            None => reports(records, n - 1),
        }
    }
}

/// An ascending list with one more member.
pub open spec fn added(v: Seq<i8>, x: i8) -> Seq<i8>
    decreases v.len(),
{
    if v.len() == 0 || v.last() < x {
        v.push(x)
    } else if v.last() == x {
        v
    } else {
        added(v.drop_last(), x).push(v.last())
    }
}

/// The name of the node that a report is of.
pub open spec fn name_of(st: NodeState) -> i8 {
    st.ident as i8
}

/// Every node that reports, in order.
pub open spec fn idents_of(s: Seq<NodeState>) -> Seq<i8>
    decreases s.len(),
{
    if s.len() == 0 {
        Seq::empty()
    } else {
        added(idents_of(s.drop_last()), name_of(s.last()))
    }
}

/// Whether a report shows a node of the base: it has a successor at the start.
pub open spec fn shows_base(st: NodeState) -> bool {
    st.date == 0 && st.succ >= 0
}

/// Every node that has a successor at the start, in order.
pub open spec fn base_of(s: Seq<NodeState>) -> Seq<i8>
    decreases s.len(),
{
    if s.len() == 0 {
        Seq::empty()
    } else if shows_base(s.last()) {
        added(base_of(s.drop_last()), name_of(s.last()))
    } else {
        base_of(s.drop_last())
    }
}

/// Whether a report shows that a node has joined.
pub open spec fn shows_join(st: NodeState, id: i8) -> bool {
    name_of(st) == id && st.alive && st.succ >= 0
}

/// Whether a report shows that a node has failed.
pub open spec fn shows_failure(st: NodeState, id: i8) -> bool {
    name_of(st) == id && !st.alive
}

/// When a node first shows that it joined or failed, from the report at `i`.
pub open spec fn first_shown(s: Seq<NodeState>, id: i8, fails: bool, i: int) -> Option<i32>
    decreases s.len() - i,
{
    if i < 0 || i >= s.len() {
        None
    } else if (if fails {
        shows_failure(s[i], id)
    } else {
        shows_join(s[i], id)
    }) {
        Some(s[i].date)
    } else {
        first_shown(s, id, fails, i + 1)
    }
}

/// A join or a failure, with its date.
#[derive(Clone, Copy, PartialEq, Eq, Structural)]
pub struct Fault {
    pub date: i32,
    pub fails: bool,
    pub id: i8,
}

/// The order of faults: by date, joins before failures, and by node.
pub open spec fn before(a: Fault, b: Fault) -> bool {
    a.date < b.date || (a.date == b.date && ((!a.fails && b.fails) || (a.fails == b.fails && a.id
        < b.id)))
}

/// Ordered faults with one more.
pub open spec fn placed(v: Seq<Fault>, f: Fault) -> Seq<Fault>
    decreases v.len(),
{
    if v.len() == 0 || !before(f, v.last()) {
        v.push(f)
    } else {
        placed(v.drop_last(), f).push(v.last())
    }
}

pub open spec fn placed_if(v: Seq<Fault>, date: Option<i32>, fails: bool, id: i8) -> Seq<Fault> {
    match date {
        Some(date) => placed(v, Fault { date, fails, id }),
        None => v,
    }
}

/// The joins and failures of the first `n` nodes that are not of the base.
pub open spec fn faults_of(s: Seq<NodeState>, ids: Seq<i8>, base: Seq<i8>, n: int) -> Seq<Fault>
    decreases n,
{
    if n <= 0 {
        Seq::empty()
    } else {
        let rest = faults_of(s, ids, base, n - 1);
        let id = ids[n - 1];
        if base.contains(id) {
            rest
        } else {
            placed_if(
                placed_if(rest, first_shown(s, id, false, 0), false, id),
                first_shown(s, id, true, 0),
                true,
                id,
            )
        }
    }
}

pub open spec fn event_of(f: Fault) -> SchedEvent {
    if f.fails {
        SchedEvent::Fail(f.id)
    } else {
        SchedEvent::Join(f.id)
    }
}

pub open spec fn events_of(v: Seq<Fault>) -> Seq<SchedEvent> {
    v.map_values(|f: Fault| event_of(f))
}

/// The joins and failures of a recording, in order.
pub open spec fn schedule_of(s: Seq<NodeState>) -> Seq<SchedEvent> {
    let ids = idents_of(s);
    events_of(faults_of(s, ids, base_of(s), ids.len() as int))
}

/// What a recording says of its scenario.
pub struct Extracted {
    pub idents: Vec<i8>,
    pub base: Vec<i8>,
    pub schedule: Vec<SchedEvent>,
}

proof fn lemma_added(v: Seq<i8>, x: i8, pos: int)
    requires
        chord_model::ascending(v),
        0 <= pos <= v.len(),
        forall|j: int| pos <= j < v.len() ==> v[j] > x,
        pos > 0 ==> v[pos - 1] <= x,
    ensures
        added(v, x) == if pos > 0 && v[pos - 1] == x {
            v
        } else {
            v.insert(pos, x)
        },
        chord_model::ascending(added(v, x)),
        forall|y: i8| #[trigger] added(v, x).contains(y) <==> v.contains(y) || y == x,
    decreases v.len(),
{
    let r = if pos > 0 && v[pos - 1] == x {
        v
    } else {
        v.insert(pos, x)
    };
    if pos < v.len() {
        let p = v.drop_last();
        lemma_added(p, x, pos);
        assert(added(v, x) =~= r);
    } else {
        if v.len() > 0 && v[pos - 1] < x {
            assert(added(v, x) =~= v.insert(pos, x));
        } else if v.len() == 0 {
            assert(added(v, x) =~= v.insert(pos, x));
        }
    }
    assert(added(v, x) == r);
    assert forall|i: int, j: int| 0 <= i < j < r.len() implies r[i] < r[j] by {
        if !(pos > 0 && v[pos - 1] == x) {
            if j == pos {
                assert(v[i] <= v[pos - 1]);
            }
        }
    }
    assert forall|y: i8| #[trigger] r.contains(y) <==> v.contains(y) || y == x by {
        if pos > 0 && v[pos - 1] == x {
        } else {
            assert(r[pos] == x);
            if v.contains(y) {
                let k = choose|k: int| 0 <= k < v.len() && v[k] == y;
                if k < pos {
                    assert(r[k] == y);
                } else {
                    assert(r[k + 1] == y);
                }
            }
            if r.contains(y) && y != x {
                let k = choose|k: int| 0 <= k < r.len() && r[k] == y;
                if k < pos {
                    assert(v[k] == y);
                } else {
                    assert(v[k - 1] == y);
                }
            }
        }
    }
}

fn put(v: &mut Vec<i8>, x: i8)
    requires
        chord_model::ascending(old(v)@),
    ensures
        final(v)@ == added(old(v)@, x),
        chord_model::ascending(final(v)@),
{
    let ghost s = v@;
    let mut pos: usize = v.len();
    while pos > 0 && v[pos - 1] > x
        invariant
            pos <= v@.len(),
            v@ == s,
            forall|j: int| pos <= j < s.len() ==> s[j] > x,
        decreases pos,
    {
        pos = pos - 1;
    }
    proof {
        lemma_added(s, x, pos as int);
    }
    if !(pos > 0 && v[pos - 1] == x) {
        v.insert(pos, x);
    }
}

fn holds(v: &Vec<i8>, x: i8) -> (b: bool)
    ensures
        b == v@.contains(x),
{
    let mut i: usize = 0;
    while i < v.len()
        invariant
            i <= v@.len(),
            forall|j: int| 0 <= j < i ==> v@[j] != x,
        decreases v@.len() - i,
    {
        if v[i] == x {
            return true;
        }
        i = i + 1;
    }
    false
}

fn named(st: &NodeState) -> (x: i8)
    ensures
        x == name_of(*st),
{
    #[verifier::truncate]
    let x: i8 = st.ident as i8;
    x
}

proof fn lemma_placed(v: Seq<Fault>, f: Fault, pos: int)
    requires
        0 <= pos <= v.len(),
        forall|j: int| pos <= j < v.len() ==> before(f, #[trigger] v[j]),
        pos > 0 ==> !before(f, v[pos - 1]),
    ensures
        placed(v, f) == v.insert(pos, f),
    decreases v.len(),
{
    if pos < v.len() {
        let p = v.drop_last();
        assert(before(f, v[v.len() - 1]));
        lemma_placed(p, f, pos);
        assert(placed(v, f) =~= v.insert(pos, f));
    } else {
        assert(placed(v, f) =~= v.insert(pos, f));
    }
}

fn comes_before(a: &Fault, b: &Fault) -> (r: bool)
    ensures
        r == before(*a, *b),
{
    a.date < b.date || (a.date == b.date && ((!a.fails && b.fails) || (a.fails == b.fails && a.id
        < b.id)))
}

fn place(v: &mut Vec<Fault>, f: Fault)
    ensures
        final(v)@ == placed(old(v)@, f),
{
    let ghost s = v@;
    let mut pos: usize = v.len();
    while pos > 0 && comes_before(&f, &v[pos - 1])
        invariant
            pos <= v@.len(),
            v@ == s,
            forall|j: int| pos <= j < s.len() ==> before(f, #[trigger] s[j]),
        decreases pos,
    {
        pos = pos - 1;
    }
    proof {
        lemma_placed(s, f, pos as int);
    }
    v.insert(pos, f);
}

fn first_date(s: &Vec<NodeState>, id: i8, fails: bool) -> (r: Option<i32>)
    ensures
        r == first_shown(s@, id, fails, 0),
{
    let mut i: usize = 0;
    while i < s.len()
        invariant
            i <= s@.len(),
            first_shown(s@, id, fails, 0) == first_shown(s@, id, fails, i as int),
        decreases s@.len() - i,
    {
        let st = s[i];
        if named(&st) == id && (if fails {
            !st.alive
        } else {
            st.alive && st.succ >= 0
        }) {
            return Some(st.date);
        }
        i = i + 1;
    }
    None
}

fn faults(s: &Vec<NodeState>, ids: &Vec<i8>, base: &Vec<i8>) -> (v: Vec<Fault>)
    ensures
        v@ == faults_of(s@, ids@, base@, ids@.len() as int),
{
    let mut v: Vec<Fault> = Vec::new();
    let mut i: usize = 0;
    while i < ids.len()
        invariant
            i <= ids@.len(),
            v@ == faults_of(s@, ids@, base@, i as int),
        decreases ids@.len() - i,
    {
        let id: i8 = ids[i];
        if !holds(base, id) {
            if let Some(date) = first_date(s, id, false) {
                place(&mut v, Fault { date, fails: false, id });
            }
            if let Some(date) = first_date(s, id, true) {
                place(&mut v, Fault { date, fails: true, id });
            }
        }
        i = i + 1;
    }
    v
}

fn scheduled(v: &Vec<Fault>) -> (r: Vec<SchedEvent>)
    ensures
        r@ == events_of(v@),
{
    let mut r: Vec<SchedEvent> = Vec::new();
    let mut i: usize = 0;
    while i < v.len()
        invariant
            i <= v@.len(),
            r@ == events_of(v@.take(i as int)),
        decreases v@.len() - i,
    {
        let f = v[i];
        if f.fails {
            r.push(SchedEvent::Fail(f.id));
        } else {
            r.push(SchedEvent::Join(f.id));
        }
        i = i + 1;
        assert(r@ =~= events_of(v@.take(i as int)));
    }
    assert(v@.take(v@.len() as int) =~= v@);
    r
}

/// What a recording says of its scenario: the nodes, those on the ring at the
/// start, and the joins and failures of the others. `None` where nothing
/// reports.
#[must_use]
pub fn extract(log: &Log) -> (r: Option<Extracted>)
    ensures
        ({
            let s = reports(log@.records, log@.records.len() as int);
            match r {
                Some(x) => s.len() > 0 && x.idents@ == idents_of(s) && x.base@ == base_of(s)
                    && x.schedule@ == schedule_of(s),
                None => s.len() == 0,
            }
        }),
{
    let mut s: Vec<NodeState> = Vec::new();
    let mut idents: Vec<i8> = Vec::new();
    let mut base: Vec<i8> = Vec::new();
    let mut i: usize = 0;
    while i < log.records.len()
        invariant
            i <= log.records@.len(),
            log@.records.len() == log.records@.len(),
            s@ == reports(log@.records, i as int),
            idents@ == idents_of(s@),
            base@ == base_of(s@),
            chord_model::ascending(idents@),
            chord_model::ascending(base@),
        decreases log.records@.len() - i,
    {
        let r = &log.records[i];
        assert(log@.records[i as int] == r@);
        if let Some(st) = sent_report(&r.e) {
            let ghost s0 = s@;
            s.push(st);
            assert(s@.drop_last() =~= s0);
            let x: i8 = named(&st);
            put(&mut idents, x);
            if st.date == 0 && st.succ >= 0 {
                put(&mut base, x);
            }
        }
        i = i + 1;
    }
    if s.len() == 0 {
        return None;
    }
    let f = faults(&s, &idents, &base);
    let schedule = scheduled(&f);
    Some(Extracted { idents, base, schedule })
}

// ---------------------------------------------------------------------------
// What a recording violates
// ---------------------------------------------------------------------------

pub open spec fn shows_kind(v: Seq<ViolationView>, kind: InvariantKind) -> bool {
    exists|i: int| 0 <= i < v.len() && (#[trigger] v[i]).kind == kind
}

pub open spec fn name_if(b: bool, kind: InvariantKind) -> Seq<Seq<char>> {
    if b {
        seq![chord::kind_name(kind)]
    } else {
        Seq::empty()
    }
}

/// The names of the kinds among some violations, each once, in the order of
/// the alphabet.
pub open spec fn classes_of(v: Seq<ViolationView>) -> Seq<Seq<char>> {
    name_if(shows_kind(v, InvariantKind::AtLeastOneRing), InvariantKind::AtLeastOneRing) + name_if(
        shows_kind(v, InvariantKind::AtMostOneRing),
        InvariantKind::AtMostOneRing,
    ) + name_if(
        shows_kind(v, InvariantKind::ConnectedAppendages),
        InvariantKind::ConnectedAppendages,
    ) + name_if(shows_kind(v, InvariantKind::OrderedRing), InvariantKind::OrderedRing)
}

fn has_kind(v: &Vec<ChordViolation>, kind: InvariantKind) -> (b: bool)
    ensures
        b == shows_kind(chord::violation_views(v@), kind),
{
    let ghost vv = chord::violation_views(v@);
    let mut i: usize = 0;
    while i < v.len()
        invariant
            i <= v@.len(),
            vv == chord::violation_views(v@),
            forall|j: int| 0 <= j < i ==> (#[trigger] vv[j]).kind != kind,
        decreases v@.len() - i,
    {
        assert(vv[i as int] == v@[i as int]@);
        if v[i].kind == kind {
            return true;
        }
        i = i + 1;
    }
    false
}

fn push_kind(names: &mut Vec<&'static str>, v: &Vec<ChordViolation>, kind: InvariantKind)
    ensures
        chord_model::names_of(final(names)@) == chord_model::names_of(old(names)@) + name_if(
            shows_kind(chord::violation_views(v@), kind),
            kind,
        ),
{
    let ghost before = chord_model::names_of(names@);
    if has_kind(v, kind) {
        let name: &'static str = kind.name();
        names.push(name);
    }
    assert(chord_model::names_of(names@) =~= before + name_if(
        shows_kind(chord::violation_views(v@), kind),
        kind,
    ));
}

/// The kinds of violations in the final state of a recording, by name, in the
/// order of the alphabet.
#[must_use]
pub fn dynamic_classes(log: &Log, m: u32) -> (r: Vec<&'static str>)
    requires
        m < 64,
    ensures
        chord_model::names_of(r@) == classes_of(
            chord::violations_of(
                chord::gathered(log@.records, log@.records.len() as int),
                m as nat,
            ),
        ),
{
    let snap = Snapshot::from_log(log);
    let v = snap.check(m);
    let mut r: Vec<&'static str> = Vec::new();
    assert(chord_model::names_of(r@) =~= Seq::<Seq<char>>::empty());
    push_kind(&mut r, &v, InvariantKind::AtLeastOneRing);
    push_kind(&mut r, &v, InvariantKind::AtMostOneRing);
    push_kind(&mut r, &v, InvariantKind::ConnectedAppendages);
    push_kind(&mut r, &v, InvariantKind::OrderedRing);
    assert(chord_model::names_of(r@) =~= classes_of(chord::violation_views(v@)));
    r
}

pub open spec fn property_of(class: Seq<char>) -> Seq<char> {
    if class == "AtLeastOneRing"@ {
        "alor-after-schedule"@
    } else if class == "ConnectedAppendages"@ {
        "connapp-after-schedule"@
    } else {
        "ordered-or-split-after-schedule"@
    }
}

/// The property of the model that looks for a kind of violation. A split ring
/// and one out of order share one.
#[must_use]
pub fn property_for(class: &str) -> (p: &'static str)
    ensures
        p@ == property_of(class@),
{
    if same_text(class, "AtLeastOneRing") {
        "alor-after-schedule"
    } else if same_text(class, "ConnectedAppendages") {
        "connapp-after-schedule"
    } else {
        "ordered-or-split-after-schedule"
    }
}

// ---------------------------------------------------------------------------
// The search, and what it says
// ---------------------------------------------------------------------------

/// What a search says of a violation.
pub open spec fn outcome_of(found: bool, exhausted: bool) -> Seq<char> {
    if found {
        "BOTH_CONFIRM"@
    } else if exhausted {
        "DYNAMIC_ONLY"@
    } else {
        "UNDECIDED"@
    }
}

/// What a search says of a violation: whether the model has it too, provably
/// has it not, or was not searched to the end.
#[must_use]
pub fn outcome(found: bool, exhausted: bool) -> (s: &'static str)
    ensures
        s@ == outcome_of(found, exhausted),
{
    if found {
        "BOTH_CONFIRM"
    } else if exhausted {
        "DYNAMIC_ONLY"
    } else {
        "UNDECIDED"
    }
}

/// The line for a recording that violates nothing.
pub open spec fn clean_line(path: Seq<char>) -> Seq<char> {
    path + "\tNO_DYNAMIC_VIOLATION\t-"@
}

/// The line for a recording that violates nothing.
#[must_use]
pub fn no_violation_line(path: &str) -> (s: String)
    ensures
        s@ == clean_line(path@),
{
    let mut s = copy_text(path);
    push_text(&mut s, "\tNO_DYNAMIC_VIOLATION\t-");
    s
}

/// What to do about a recording.
pub enum ChordPlan {
    /// Nothing: this line says it all.
    Settled(String),
    /// Search the model for the kinds of violations.
    Search { model: ChordModel, classes: Vec<&'static str> },
}

pub enum PlanView {
    Settled(Seq<char>),
    Search { model: ModelView, classes: Seq<Seq<char>> },
}

impl View for ChordPlan {
    type V = PlanView;

    open spec fn view(&self) -> PlanView {
        match *self {
            ChordPlan::Settled(line) => PlanView::Settled(line@),
            ChordPlan::Search { model, classes } => PlanView::Search {
                model: model@,
                classes: chord_model::names_of(classes@),
            },
        }
    }
}

/// The model for the scenario of a recording.
pub open spec fn model_of(s: Seq<NodeState>, fix: u8, m: u32) -> ModelView {
    ModelView {
        m,
        idents: idents_of(s),
        base: base_of(s),
        fix,
        schedule: ScheduleView::Fixed(schedule_of(s)),
        max_fails: 3,
    }
}

/// What to do about a recording.
pub open spec fn plan_of(
    records: Seq<RecordView>,
    path: Seq<char>,
    fix: u8,
    m: u32,
) -> Result<PlanView, Seq<char>> {
    let n = records.len() as int;
    let s = reports(records, n);
    let classes = classes_of(chord::violations_of(chord::gathered(records, n), m as nat));
    if s.len() == 0 {
        Err(path + ": no reports in recording"@)
    } else if classes.len() == 0 {
        Ok(PlanView::Settled(clean_line(path)))
    } else {
        Ok(PlanView::Search { model: model_of(s, fix, m), classes })
    }
}

/// What to do about a recording: report that it violates nothing, or search
/// the model of its scenario for what it violates.
pub fn plan(log: &Log, path: &str, fix: u8, m: u32) -> (r: Result<ChordPlan, String>)
    requires
        m < 64,
    ensures
        match r {
            Ok(p) => plan_of(log@.records, path@, fix, m) == Ok::<PlanView, Seq<char>>(p@),
            Err(e) => plan_of(log@.records, path@, fix, m) == Err::<PlanView, Seq<char>>(e@),
        },
{
    match extract(log) {
        None => {
            let mut e = copy_text(path);
            push_text(&mut e, ": no reports in recording");
            Err(e)
        },
        Some(x) => {
            let classes = dynamic_classes(log, m);
            assert(chord_model::names_of(classes@).len() == classes@.len());
            if classes.len() == 0 {
                return Ok(ChordPlan::Settled(no_violation_line(path)));
            }
            let Extracted { idents, base, schedule } = x;
            let model = ChordModel {
                m,
                idents,
                base,
                fix,
                schedule: Schedule::Fixed(schedule),
                max_fails: 3,
            };
            Ok(ChordPlan::Search { model, classes })
        },
    }
}

/// The verdicts on the first `n` kinds.
pub open spec fn outcomes(
    classes: Seq<Seq<char>>,
    found: Seq<bool>,
    exhausted: bool,
    n: int,
) -> Seq<char>
    decreases n,
{
    if n <= 0 {
        Seq::empty()
    } else {
        outcomes(classes, found, exhausted, n - 1) + (if n > 1 {
            ","@
        } else {
            Seq::empty()
        }) + classes[n - 1] + "="@ + outcome_of(found[n - 1], exhausted)
    }
}

pub open spec fn result_text(
    path: Seq<char>,
    classes: Seq<Seq<char>>,
    found: Seq<bool>,
    exhausted: bool,
    states: u64,
    events: u64,
) -> Seq<char> {
    path + "\t"@ + outcomes(classes, found, exhausted, classes.len() as int) + "\tstates="@
        + text::dec(states as nat) + " sched="@ + text::dec(events as nat) + " events"@
}

/// The line for a recording whose scenario was searched: `found` says of each
/// kind whether the search found it, `states` how many states it saw, and
/// `events` how many joins and failures there were.
#[must_use]
pub fn result_line(
    path: &str,
    classes: &Vec<&'static str>,
    found: &Vec<bool>,
    exhausted: bool,
    states: u64,
    events: u64,
) -> (s: String)
    requires
        found@.len() == classes@.len(),
    ensures
        s@ == result_text(
            path@,
            chord_model::names_of(classes@),
            found@,
            exhausted,
            states,
            events,
        ),
{
    let ghost names = chord_model::names_of(classes@);
    let mut v = String::new();
    let mut i: usize = 0;
    assert(v@ =~= Seq::<char>::empty());
    while i < classes.len()
        invariant
            i <= classes@.len(),
            names == chord_model::names_of(classes@),
            found@.len() == classes@.len(),
            v@ == outcomes(names, found@, exhausted, i as int),
        decreases classes@.len() - i,
    {
        let ghost start = v@;
        if i > 0 {
            push_text(&mut v, ",");
        } else {
            assert(v@ =~= start + Seq::<char>::empty());
        }
        assert(names[i as int] == classes@[i as int]@);
        push_text(&mut v, classes[i]);
        push_text(&mut v, "=");
        push_text(&mut v, outcome(found[i], exhausted));
        i = i + 1;
    }
    let mut s = copy_text(path);
    push_text(&mut s, "\t");
    push_text(&mut s, v.as_str());
    push_text(&mut s, "\tstates=");
    push_dec(&mut s, states);
    push_text(&mut s, " sched=");
    push_dec(&mut s, events);
    push_text(&mut s, " events");
    s
}

/// The model for a search of all schedules: three nodes on the ring, three
/// that may join, and up to three failures.
pub open spec fn sweep_of(fix: u8, m: u32) -> ModelView {
    ModelView {
        m,
        idents: seq![1i8, 4i8, 22i8, 25i8, 43i8, 46i8],
        base: seq![1i8, 22i8, 43i8],
        fix,
        schedule: ScheduleView::Exhaustive,
        max_fails: 3,
    }
}

/// The model for a search of all schedules.
#[must_use]
pub fn sweep_model(fix: u8, m: u32) -> (r: ChordModel)
    ensures
        r@ == sweep_of(fix, m),
{
    let idents: Vec<i8> = vec![1i8, 4i8, 22i8, 25i8, 43i8, 46i8];
    let base: Vec<i8> = vec![1i8, 22i8, 43i8];
    let r = ChordModel { m, idents, base, fix, schedule: Schedule::Exhaustive, max_fails: 3 };
    assert(r.idents@ =~= seq![1i8, 4i8, 22i8, 25i8, 43i8, 46i8]);
    assert(r.base@ =~= seq![1i8, 22i8, 43i8]);
    r
}

pub open spec fn reach_of(found: bool, exhausted: bool) -> Seq<char> {
    if found {
        "REACHABLE"@
    } else if exhausted {
        "unreachable (exhaustive)"@
    } else {
        "not found (BOUNDED — state budget hit, not exhaustive)"@
    }
}

fn reach(found: bool, exhausted: bool) -> (s: &'static str)
    ensures
        s@ == reach_of(found, exhausted),
{
    if found {
        "REACHABLE"
    } else if exhausted {
        "unreachable (exhaustive)"
    } else {
        "not found (BOUNDED — state budget hit, not exhaustive)"
    }
}

pub open spec fn truth(b: bool) -> Seq<char> {
    if b {
        "true"@
    } else {
        "false"@
    }
}

/// What a search of all schedules shows.
pub open spec fn sweep_text(
    fix: u8,
    states: u64,
    exhausted: bool,
    alor: bool,
    connapp: bool,
    split: bool,
) -> Seq<char> {
    "exhaustive fix="@ + text::dec(fix as nat) + ": states="@ + text::dec(states as nat)
        + " exhausted="@ + truth(exhausted) + "\n  alor-after-schedule: "@ + reach_of(
        alor,
        exhausted,
    ) + "\n  connapp-after-schedule: "@ + reach_of(connapp, exhausted)
        + "\n  ordered-or-split-after-schedule: "@ + reach_of(split, exhausted) + "\n"@
}

/// What a search of all schedules shows: which kinds of violations the model
/// can reach.
#[must_use]
pub fn sweep_report(
    fix: u8,
    states: u64,
    exhausted: bool,
    alor: bool,
    connapp: bool,
    split: bool,
) -> (s: String)
    ensures
        s@ == sweep_text(fix, states, exhausted, alor, connapp, split),
{
    let mut s = copy_text("exhaustive fix=");
    push_dec(&mut s, fix as u64);
    push_text(&mut s, ": states=");
    push_dec(&mut s, states);
    push_text(&mut s, " exhausted=");
    push_text(&mut s, if exhausted { "true" } else { "false" });
    push_text(&mut s, "\n  alor-after-schedule: ");
    push_text(&mut s, reach(alor, exhausted));
    push_text(&mut s, "\n  connapp-after-schedule: ");
    push_text(&mut s, reach(connapp, exhausted));
    push_text(&mut s, "\n  ordered-or-split-after-schedule: ");
    push_text(&mut s, reach(split, exhausted));
    push_text(&mut s, "\n");
    s
}

// ---------------------------------------------------------------------------
// Laws
// ---------------------------------------------------------------------------

proof fn lemma_add(v: Seq<i8>, x: i8)
    requires
        chord_model::ascending(v),
    ensures
        chord_model::ascending(added(v, x)),
        forall|y: i8| #[trigger] added(v, x).contains(y) <==> v.contains(y) || y == x,
{
    let pos = lemma_spot(v, x, v.len() as int);
    lemma_added(v, x, pos);
}

proof fn lemma_spot(v: Seq<i8>, x: i8, hi: int) -> (pos: int)
    requires
        chord_model::ascending(v),
        0 <= hi <= v.len(),
        forall|j: int| hi <= j < v.len() ==> v[j] > x,
    ensures
        0 <= pos <= v.len(),
        forall|j: int| pos <= j < v.len() ==> v[j] > x,
        pos > 0 ==> v[pos - 1] <= x,
    decreases hi,
{
    if hi > 0 && v[hi - 1] > x {
        lemma_spot(v, x, hi - 1)
    } else {
        hi
    }
}

/// The nodes of a recording are those that report, in order, and the base
/// those that have a successor at the start.
pub proof fn law_nodes_are_those_that_report(s: Seq<NodeState>)
    ensures
        chord_model::ascending(idents_of(s)),
        chord_model::ascending(base_of(s)),
        forall|x: i8| #[trigger]
            idents_of(s).contains(x) <==> exists|i: int|
                0 <= i < s.len() && name_of(#[trigger] s[i]) == x,
        forall|x: i8| #[trigger]
            base_of(s).contains(x) <==> exists|i: int|
                0 <= i < s.len() && shows_base(#[trigger] s[i]) && name_of(s[i]) == x,
    decreases s.len(),
{
    if s.len() > 0 {
        let p = s.drop_last();
        law_nodes_are_those_that_report(p);
        lemma_add(idents_of(p), name_of(s.last()));
        lemma_add(base_of(p), name_of(s.last()));
        assert forall|x: i8| #[trigger] idents_of(s).contains(x) <==> exists|i: int|
            0 <= i < s.len() && name_of(#[trigger] s[i]) == x by {
            if idents_of(p).contains(x) {
                let i = choose|i: int| 0 <= i < p.len() && name_of(#[trigger] p[i]) == x;
                assert(s[i] == p[i]);
            }
            if x == name_of(s.last()) {
                assert(s[s.len() - 1] == s.last());
            }
            if exists|i: int| 0 <= i < s.len() && name_of(#[trigger] s[i]) == x {
                let i = choose|i: int| 0 <= i < s.len() && name_of(#[trigger] s[i]) == x;
                if i < p.len() {
                    assert(p[i] == s[i]);
                    assert(idents_of(p).contains(x));
                }
            }
        }
        assert forall|x: i8| #[trigger] base_of(s).contains(x) <==> exists|i: int|
            0 <= i < s.len() && shows_base(#[trigger] s[i]) && name_of(s[i]) == x by {
            if base_of(p).contains(x) {
                let i = choose|i: int|
                    0 <= i < p.len() && shows_base(#[trigger] p[i]) && name_of(p[i]) == x;
                assert(s[i] == p[i]);
            }
            if x == name_of(s.last()) {
                assert(s[s.len() - 1] == s.last());
            }
            if exists|i: int|
                0 <= i < s.len() && shows_base(#[trigger] s[i]) && name_of(s[i]) == x {
                let i = choose|i: int|
                    0 <= i < s.len() && shows_base(#[trigger] s[i]) && name_of(s[i]) == x;
                if i < p.len() {
                    assert(p[i] == s[i]);
                    assert(base_of(p).contains(x));
                }
            }
        }
    }
}

/// The fault is one of a node outside the base.
pub open spec fn fits(f: Fault, s: Seq<NodeState>, ids: Seq<i8>, base: Seq<i8>) -> bool {
    ids.contains(f.id) && !base.contains(f.id) && first_shown(s, f.id, f.fails, 0) == Some(f.date)
}

/// Faults in order.
pub open spec fn ordered(v: Seq<Fault>) -> bool {
    forall|i: int, j: int| 0 <= i < j < v.len() ==> !before(#[trigger] v[j], #[trigger] v[i])
}

proof fn lemma_fault_spot(v: Seq<Fault>, f: Fault, hi: int) -> (pos: int)
    requires
        0 <= hi <= v.len(),
        forall|j: int| hi <= j < v.len() ==> before(f, #[trigger] v[j]),
    ensures
        0 <= pos <= v.len(),
        forall|j: int| pos <= j < v.len() ==> before(f, #[trigger] v[j]),
        pos > 0 ==> !before(f, v[pos - 1]),
    decreases hi,
{
    if hi > 0 && before(f, v[hi - 1]) {
        lemma_fault_spot(v, f, hi - 1)
    } else {
        hi
    }
}

proof fn lemma_place_more(
    v: Seq<Fault>,
    date: Option<i32>,
    fails: bool,
    id: i8,
    s: Seq<NodeState>,
    ids: Seq<i8>,
    base: Seq<i8>,
)
    requires
        ordered(v),
        forall|i: int| 0 <= i < v.len() ==> fits(#[trigger] v[i], s, ids, base),
        ids.contains(id),
        !base.contains(id),
        date == first_shown(s, id, fails, 0),
    ensures
        ordered(placed_if(v, date, fails, id)),
        forall|i: int|
            0 <= i < placed_if(v, date, fails, id).len() ==> fits(
                #[trigger] placed_if(v, date, fails, id)[i],
                s,
                ids,
                base,
            ),
{
    if let Some(d) = date {
        let f = Fault { date: d, fails, id };
        let pos = lemma_fault_spot(v, f, v.len() as int);
        lemma_placed(v, f, pos);
        let r = v.insert(pos, f);
        assert forall|i: int| 0 <= i < r.len() implies fits(#[trigger] r[i], s, ids, base) by {
            if i < pos {
                assert(r[i] == v[i]);
            } else if i > pos {
                assert(r[i] == v[i - 1]);
            }
        }
        assert forall|i: int, j: int| 0 <= i < j < r.len() implies !before(
            #[trigger] r[j],
            #[trigger] r[i],
        ) by {
            if j < pos {
                assert(!before(v[j], v[i]));
            } else if j == pos {
                if i < pos - 1 {
                    assert(!before(v[pos - 1], v[i]));
                }
            } else if i < pos {
                assert(!before(v[j - 1], v[i]));
            } else if i == pos {
                assert(before(f, v[j - 1]));
            } else {
                assert(!before(v[j - 1], v[i - 1]));
            }
        }
    }
}

/// The schedule of a recording is in order, by date and with joins before
/// failures, and is of nodes outside the base alone, each at its first report.
pub proof fn law_faults_in_order(s: Seq<NodeState>, ids: Seq<i8>, base: Seq<i8>, n: int)
    requires
        0 <= n <= ids.len(),
    ensures
        ordered(faults_of(s, ids, base, n)),
        forall|i: int|
            0 <= i < faults_of(s, ids, base, n).len() ==> fits(
                #[trigger] faults_of(s, ids, base, n)[i],
                s,
                ids,
                base,
            ),
    decreases n,
{
    if n > 0 {
        law_faults_in_order(s, ids, base, n - 1);
        let rest = faults_of(s, ids, base, n - 1);
        let id = ids[n - 1];
        if !base.contains(id) {
            assert(ids.contains(id));
            let d = first_shown(s, id, false, 0);
            lemma_place_more(rest, d, false, id, s, ids, base);
            lemma_place_more(
                placed_if(rest, d, false, id),
                first_shown(s, id, true, 0),
                true,
                id,
                s,
                ids,
                base,
            );
        }
    }
}

/// The model of a recording is sound: its schedule names nodes of the model,
/// and spares the base. So what is shown of the model with checked pointers
/// holds of it.
pub proof fn law_recorded_model_is_sound(s: Seq<NodeState>, fix: u8, m: u32)
    requires
        m < 64,
        base_of(s).len() > 0,
        forall|i: int| 0 <= i < s.len() ==> name_of(#[trigger] s[i]) >= 0,
    ensures
        chord_model::model_ok(model_of(s, fix, m)),
        chord_model::schedule_ok(model_of(s, fix, m)),
        chord_model_laws::base_ok(model_of(s, fix, m)),
{
    law_nodes_are_those_that_report(s);
    let md = model_of(s, fix, m);
    let ids = idents_of(s);
    let base = base_of(s);
    let f = faults_of(s, ids, base, ids.len() as int);
    let ev = schedule_of(s);
    law_faults_in_order(s, ids, base, ids.len() as int);
    assert forall|i: int| 0 <= i < ev.len() implies match #[trigger] ev[i] {
        SchedEvent::Join(x) => md.idents.contains(x),
        SchedEvent::Fail(x) => md.idents.contains(x),
    } by {
        assert(fits(f[i], s, ids, base));
    }
    assert forall|i: int, x: i8| 0 <= i < ev.len() && #[trigger] ev[i] == SchedEvent::Fail(
        x,
    ) implies !#[trigger] md.base.contains(x) by {
        assert(fits(f[i], s, ids, base));
    }
    assert forall|i: int| 0 <= i < md.base.len() implies (#[trigger] md.base[i]) >= 0
        && md.idents.contains(md.base[i]) by {
        let x = md.base[i];
        assert(base.contains(x));
        let k = choose|k: int|
            0 <= k < s.len() && shows_base(#[trigger] s[k]) && name_of(s[k]) == x;
        assert(name_of(s[k]) >= 0);
        assert(ids.contains(x));
    }
}

} // verus!
