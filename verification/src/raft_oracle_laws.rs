//! The laws of searching for what a recording showed of elections.

use vstd::prelude::*;

use crate::chord_oracle;
use crate::log::RecordView;
use crate::raft;
use crate::raft_oracle;
use crate::text;
use crate::timeline_laws;
use crate::timeline_laws::holds;

verus! {

/// Nothing is searched for where the recording violates nothing; else the
/// search goes by what the recording shows, and where it shows no node there
/// is nothing to search.
pub proof fn law_plan(records: Seq<RecordView>, path: Seq<char>, fix: u8)
    requires
        raft_oracle::scenario(records, records.len() as int).top_node < u8::MAX,
    ensures
        ({
            let p = raft_oracle::plan_of(records, path, fix);
            let x = raft_oracle::scenario(records, records.len() as int);
            let found = raft::scanned(records, records.len() as int).violations.len();
            &&& found == 0 ==> p is Ok && p->Ok_0 is Settled && holds(
                p->Ok_0->Settled_0,
                "NO_DYNAMIC_VIOLATION"@,
            ) && holds(p->Ok_0->Settled_0, path)
            &&& found > 0 && x.top_node == 0 ==> p is Err
            &&& found > 0 && x.top_node > 0 ==> p is Ok && p->Ok_0 is Search && {
                let m = p->Ok_0->Search_0;
                &&& m.members == x.top_node + 1
                &&& m.fix == fix
                &&& x.top_term < 255 ==> m.term_bound == x.top_term + 1
                &&& x.top_term == 255 ==> m.term_bound == 255
                &&& m.schedule is Fixed
                &&& m.schedule->Fixed_0.len() == x.restarts.len()
                &&& forall|i: int|
                    0 <= i < x.restarts.len() ==> #[trigger] m.schedule->Fixed_0[i]
                        == x.restarts[i].node
            }
        }),
{
    let line = chord_oracle::clean_line(path);
    reveal_strlit("\tNO_DYNAMIC_VIOLATION\t-");
    reveal_strlit("NO_DYNAMIC_VIOLATION");
    let rest = "\tNO_DYNAMIC_VIOLATION\t-"@;
    timeline_laws::lemma_holds(
        line,
        path + rest.take(1),
        "NO_DYNAMIC_VIOLATION"@,
        rest.skip(21),
    );
    timeline_laws::lemma_holds(line, Seq::empty(), path, rest);
}

/// The sweep is over five members, three terms, and as many restarts as are
/// asked for, at any time.
pub proof fn law_sweep(fix: u8, restarts: u8)
    ensures
        ({
            let m = raft_oracle::sweep_of(fix, restarts);
            m.members == 5 && m.term_bound == 3 && m.fix == fix && m.max_restarts == restarts
                && m.schedule is Exhaustive
        }),
{
}

/// What a search found is told: that both show it, that only the run does, or
/// that it was not searched to the end.
pub proof fn law_outcomes_are_told_apart(
    path: Seq<char>,
    states: u64,
    restarts: u64,
    term_bound: u8,
    found: bool,
    exhausted: bool,
)
    ensures
        ({
            let t = raft_oracle::result_text(path, found, exhausted, states, restarts, term_bound);
            &&& holds(t, path)
            &&& found ==> holds(t, "BOTH_CONFIRM"@)
            &&& !found && exhausted ==> holds(t, "DYNAMIC_ONLY"@)
            &&& !found && !exhausted ==> holds(t, "UNDECIDED"@)
            &&& holds(t, "states="@ + text::dec(states as nat))
            &&& holds(t, "restarts="@ + text::dec(restarts as nat))
            &&& holds(t, "term_bound="@ + text::dec(term_bound as nat))
        }),
{
    let t = raft_oracle::result_text(path, found, exhausted, states, restarts, term_bound);
    let o = chord_oracle::outcome_of(found, exhausted);
    let s = text::dec(states as nat);
    let r = text::dec(restarts as nat);
    let b = text::dec(term_bound as nat);
    reveal_strlit("\tstates=");
    reveal_strlit("states=");
    reveal_strlit(" restarts=");
    reveal_strlit("restarts=");
    reveal_strlit(" term_bound=");
    reveal_strlit("term_bound=");
    let e = Seq::<char>::empty();
    let s1 = path + "\tElectionSafety="@;
    let s2 = s1 + o;
    let s3 = s2 + "\tstates="@ + s;
    let s4 = s3 + " restarts="@ + r;
    timeline_laws::lemma_holds(t, e, path, t.skip(path.len() as int));
    assert(t =~= s2 + ("\tstates="@ + s + " restarts="@ + r + " term_bound="@ + b));
    timeline_laws::lemma_holds(
        t,
        s1,
        o,
        "\tstates="@ + s + " restarts="@ + r + " term_bound="@ + b,
    );
    assert("\tstates="@ =~= "\tstates="@.take(1) + "states="@);
    timeline_laws::lemma_holds(s3, s2 + "\tstates="@.take(1), "states="@ + s, e);
    timeline_laws::lemma_append(s3, " restarts="@, "states="@ + s);
    timeline_laws::lemma_append(s3 + " restarts="@, r, "states="@ + s);
    timeline_laws::lemma_append(s4, " term_bound="@, "states="@ + s);
    timeline_laws::lemma_append(s4 + " term_bound="@, b, "states="@ + s);
    assert(" restarts="@ =~= " restarts="@.take(1) + "restarts="@);
    timeline_laws::lemma_holds(s4, s3 + " restarts="@.take(1), "restarts="@ + r, e);
    timeline_laws::lemma_append(s4, " term_bound="@, "restarts="@ + r);
    timeline_laws::lemma_append(s4 + " term_bound="@, b, "restarts="@ + r);
    assert(" term_bound="@ =~= " term_bound="@.take(1) + "term_bound="@);
    timeline_laws::lemma_holds(t, s4 + " term_bound="@.take(1), "term_bound="@ + b, e);
}

} // verus!
