//! The laws of watching over a run: when it ends, and with what code.

use vstd::prelude::*;

use crate::cluster;
use crate::cluster::{ExitView, Glance, NextView, Part};
use crate::run_cmd::DraftView;

verus! {

/// A node that exits well leaves the code of the run; one that fails gives its
/// own; one that crashes discards a windowed run and makes any other end with
/// 128; one that is lost makes it end with 1.
pub proof fn law_how_a_node_ends(code: i32, node: u32, window: u64, c: i32, why: Seq<char>)
    ensures
        cluster::ended(code, node, ExitView::Code(c), window).0 == if c == 0 {
            code
        } else {
            c
        },
        cluster::ended(code, node, ExitView::Signal, window).0 == if window > 0 {
            3i32
        } else {
            128i32
        },
        cluster::ended(code, node, ExitView::Lost(why), window).0 == 1,
        cluster::ended(code, node, ExitView::Code(c), window).1 is None <==> c == 0,
        cluster::ended(code, node, ExitView::Signal, window).1 is Some,
        cluster::ended(code, node, ExitView::Lost(why), window).1 is Some,
{
}

/// The exit status is the code where that fits, and a failure where it does
/// not.
pub proof fn law_status(code: i32)
    ensures
        0 <= code <= 255 ==> cluster::status_of(code) == code,
        code < 0 || code > 255 ==> cluster::status_of(code) == 1,
{
}

/// A violation of the protocol discards the run and is told; without one the
/// code stands and nothing is told.
pub proof fn law_judgement(code: i32, v: Seq<char>)
    ensures
        cluster::judged(code, Some(v)).0 == 3,
        cluster::judged(code, Some(v)).1 is Some,
        cluster::judged(code, None) == (code, None::<Seq<char>>),
{
}

/// The run has outlasted the watchdog's patience: nothing was sent since the
/// last look, for as long as was asked for.
pub open spec fn wedged(d: DraftView, g: Glance, last_sent: u64, idle: u64) -> bool {
    d.watchdog > 0 && g.sent == last_sent && d.watchdog <= idle
}

/// Nodes on other hosts are still to come or to leave: this host holds the
/// broker, which is not drained, and the run is not discarded.
pub open spec fn hosting(d: DraftView, code: i32, g: Option<Glance>) -> bool {
    d.listen is Some && code != 3 && g is Some && !g.unwrap().drained
}

/// While nodes run here or elsewhere the run goes on, until an operation was
/// rejected, nothing can go on or nothing goes on; and it ends as soon as none
/// runs.
pub proof fn law_when_a_run_stops(
    d: DraftView,
    code: i32,
    running: nat,
    g: Option<Glance>,
    last_sent: u64,
    idle: u64,
)
    ensures
        ({
            let r = cluster::next_of(d, code, running, g, last_sent, idle);
            let busy = running > 0 || hosting(d, code, g);
            &&& r is Stop <==> !busy || (g is Some && (g.unwrap().violated || g.unwrap().deadlocked
                || wedged(d, g.unwrap(), last_sent, idle)))
            &&& !busy ==> r == (NextView::Stop { code, note: None::<Seq<char>> })
            &&& busy && g is Some && g.unwrap().violated ==> r == (NextView::Stop {
                code,
                note: None::<Seq<char>>,
            })
            &&& busy && r is Stop && g is Some && !g.unwrap().violated ==> r->code == 3 && r->note
                is Some
            &&& r is Wait ==> (r->progress <==> d.watchdog > 0 && g is Some && g.unwrap().sent
                != last_sent)
        }),
{
}

/// A run that makes progress is never taken for one that is wedged, however
/// long it lasts, and one without a watchdog never is.
pub proof fn law_progress_is_not_stopped(
    d: DraftView,
    code: i32,
    running: nat,
    g: Glance,
    last_sent: u64,
    idle: u64,
)
    requires
        running > 0,
        !g.violated && !g.deadlocked,
        g.sent != last_sent || d.watchdog == 0,
    ensures
        cluster::next_of(d, code, running, Some(g), last_sent, idle) is Wait,
{
}

/// The nodes that are launched here are those that were asked for, else every
/// one; a host joins where it was told of a broker, holds the broker where it
/// was told to listen, else does all by itself.
pub proof fn law_share_of_the_run(d: DraftView, node: u32)
    requires
        d.nodes > 0,
    ensures
        d.spawn is None ==> (cluster::range_of(d).0 <= node <= cluster::range_of(d).1 <==> node
            < d.nodes),
        d.spawn matches Some(r) ==> (cluster::range_of(d).0 <= node <= cluster::range_of(d).1
            <==> r.0 <= node <= r.1),
        cluster::part_of(d) == Part::Join <==> d.broker is Some,
        cluster::part_of(d) == Part::Listen <==> d.broker is None && d.listen is Some,
        cluster::part_of(d) == Part::Local <==> d.broker is None && d.listen is None,
{
}

/// A recording carries the seed, the network and the window that it was made
/// with; and a warning is due exactly where windows are wider than the least
/// delay.
pub proof fn law_what_a_recording_carries(d: DraftView, min_delay: u64)
    requires
        d.seed is Some,
    ensures
        Some(cluster::header_of(d).seed) == d.seed,
        d.net matches Some(n) ==> cluster::header_of(d).net == n,
        d.net is None ==> cluster::header_of(d).net.len() == 0,
        cluster::header_of(d).window_ns == d.window,
        cluster::warning_of(d.window, min_delay) is Some <==> d.window > min_delay,
{
    reveal_strlit("");
}

} // verus!
