//! The laws of one step of a replay: what makes it diverge, and what does not.

use vstd::prelude::*;

use crate::fault::TailSource;
use crate::hash;
use crate::log;
use crate::log::{EventView, RecordView};
use crate::monitor::Invariant;
use crate::netcore;
use crate::replay;
use crate::replay::{Progress, ReplayModel};

verus! {

/// A replay stops at the first record beyond the one it is to stop at, and at
/// no other; with none it stops at none.
pub proof fn law_where_a_replay_stops<I: Invariant, T: TailSource>(
    s: ReplayModel,
    r: RecordView,
    rules: Seq<I>,
    until: Option<u64>,
    tails: T,
)
    ensures
        replay::replay_step(s, r, rules, until, tails) is Stopped <==> until is Some
            && until.unwrap() < r.op,
        replay::replay_step(s, r, rules, until, tails) matches Progress::Stopped(t) ==> t == s,
{
}

/// What a replay has gone through so far, behind a step.
pub open spec fn behind(p: Progress) -> Option<ReplayModel> {
    match p {
        Progress::Running(t) => Some(t),
        Progress::Diverged(t, _) => Some(t),
        _ => None,
    }
}

/// A send diverges if and only if it has another number, another fate or
/// another time than the network gives it now; one with a payload that cannot
/// be read is refused.
pub proof fn law_send_is_held_to_the_network<I: Invariant, T: TailSource>(
    s: ReplayModel,
    r: RecordView,
    rules: Seq<I>,
    tails: T,
)
    requires
        r.e is Send,
    ensures
        ({
            let p = replay::replay_step(s, r, rules, None, tails);
            let src = log::to_vaddr(r.e->src);
            let dst = log::to_vaddr(r.e->dst);
            let tail = netcore::tail_for(s.core, src, dst, tails);
            &&& hash::unhex(r.e->payload) is None ==> p == Progress::BadPayload(r.op)
            &&& hash::unhex(r.e->payload) matches Some(bytes) ==> {
                let n = netcore::core_send(s.core, src, dst, bytes, r.e->send_vt, tail);
                let answer = netcore::send_answer(
                    s.core,
                    src,
                    dst,
                    bytes.len(),
                    r.e->send_vt,
                    tail,
                );
                &&& behind(p) is Some && behind(p).unwrap().core == n && behind(p).unwrap().ops
                    == s.ops + 1
                &&& p is Running <==> r.e->chan_seq == netcore::next_seq(s.core, src, dst)
                    && r.e->Send_outcome == log::outcome_of(answer) && r.vt == n.vt
            }
        }),
{
}

/// A receive diverges if and only if it gets something else than the network
/// hands over now, or at another time.
pub proof fn law_receive_is_held_to_the_network<I: Invariant, T: TailSource>(
    s: ReplayModel,
    r: RecordView,
    rules: Seq<I>,
    tails: T,
)
    requires
        r.e is Recv,
    ensures
        ({
            let p = replay::replay_step(s, r, rules, None, tails);
            let conn = r.e->Recv_conn;
            let got = netcore::recv_answer(s.core, conn, None);
            &&& behind(p) is Some && behind(p).unwrap().core == netcore::core_recv(
                s.core,
                conn,
                None,
            )
            &&& p is Running <==> r.e->Recv_outcome == crate::recorder::recv_outcome_of(got) && r.vt
                == s.core.vt
        }),
{
}

/// The end diverges if and only if its totals are not those of the replay.
pub proof fn law_end_is_held_to_the_totals<I: Invariant, T: TailSource>(
    s: ReplayModel,
    r: RecordView,
    rules: Seq<I>,
    tails: T,
)
    requires
        r.e is End,
        r.op < u64::MAX,
    ensures
        replay::replay_step(s, r, rules, None, tails) is Running <==> r.e->events == r.op + 1
            && r.e->sent == s.core.sent && r.e->dropped == s.core.dropped && r.vt == s.core.vt,
        !(replay::replay_step(s, r, rules, None, tails) is Running) ==> replay::replay_step(
            s,
            r,
            rules,
            None,
            tails,
        ) is Diverged,
{
}

/// A violation in the recording is held to the next one that the rules raise,
/// if there are rules; without rules it is passed over.
pub proof fn law_violation_is_held_to_the_rules<I: Invariant, T: TailSource>(
    s: ReplayModel,
    r: RecordView,
    rules: Seq<I>,
    tails: T,
)
    requires
        r.e is Violation,
        0 <= s.matched,
    ensures
        ({
            let p = replay::replay_step(s, r, rules, None, tails);
            &&& rules.len() == 0 ==> (p is Running <==> r.vt == s.core.vt)
            &&& rules.len() > 0 && s.matched < s.raised.len() ==> (p is Running <==> r.e->rule
                == s.raised[s.matched].rule && r.e->message == s.raised[s.matched].message && r.vt
                == s.core.vt)
            &&& rules.len() > 0 && s.matched >= s.raised.len() ==> p is Diverged
            &&& behind(p) matches Some(t) ==> t.core == s.core && t.raised == s.raised && t.shown
                == s.shown
        }),
{
}

/// Coming, going and taking an address are done again, and diverge only in
/// time.
pub proof fn law_coming_and_going_is_done_again<I: Invariant, T: TailSource>(
    s: ReplayModel,
    r: RecordView,
    rules: Seq<I>,
    tails: T,
)
    ensures
        ({
            let p = replay::replay_step(s, r, rules, None, tails);
            &&& r.e matches EventView::Connect { conn } ==> behind(p) is Some && behind(
                p,
            ).unwrap().core == netcore::core_connect(s.core, conn)
            &&& r.e matches EventView::Disconnect { conn } ==> behind(p) is Some && behind(
                p,
            ).unwrap().core == netcore::core_disconnect(s.core, conn)
            &&& r.e matches EventView::Bind { conn, addr } ==> behind(p) is Some && behind(
                p,
            ).unwrap().core == netcore::core_bind(s.core, conn, log::to_vaddr(addr))
            &&& r.e is Connect || r.e is Disconnect || r.e is Bind || r.e is Hello ==> (p is Running
                <==> r.vt == s.core.vt)
        }),
{
}

/// A replay is identical if and only if it does not diverge; it counts the
/// records it went through and gives what the rules raised.
pub proof fn law_outcome(p: Progress)
    ensures
        ({
            let o = replay::outcome_at(p);
            &&& o is Err <==> p is BadPayload
            &&& o matches Ok(x) ==> {
                &&& x.identical <==> x.divergence is None
                &&& x.divergence is Some <==> p is Diverged
            }
            &&& p matches Progress::Diverged(t, d) ==> o->Ok_0.divergence == Some(d)
                && o->Ok_0.violations == t.raised
            &&& p matches Progress::Running(t) ==> o->Ok_0.ops_replayed == t.ops as u64
                && o->Ok_0.violations == t.raised && o->Ok_0.stream_digest == t.digest
            &&& p matches Progress::Stopped(t) ==> o->Ok_0.ops_replayed == t.ops as u64
                && o->Ok_0.violations == t.raised && o->Ok_0.stream_digest == t.digest
        }),
{
}

} // verus!
