//! The laws of the built-in rules: what each finds, in terms of the events.

use vstd::prelude::*;

use crate::log::{Addr, EventView, RecvOutcomeView, SendOutcome};
use crate::monitor;
use crate::monitor::{BuiltIn, Invariant, Seen, ViolationView};
use crate::order_laws;
use crate::text;

verus! {

/// The event puts the datagram `tie` on its way.
pub open spec fn sends_tie(e: EventView, tie: u64) -> bool {
    e matches EventView::Send { outcome: SendOutcome::Enqueued { tie: t, .. }, .. } && t == tie
}

/// The event delivers the datagram `tie` on the channel.
pub open spec fn delivers(e: EventView, src: Addr, dst: Addr, tie: u64) -> bool {
    e matches EventView::Recv {
        outcome: RecvOutcomeView::Delivered { src: a, dst: b, tie: t, .. },
        ..
    } && a == src && b == dst && t == tie
}

/// The event delivers the datagram `tie`.
pub open spec fn delivers_tie(e: EventView, tie: u64) -> bool {
    e matches EventView::Recv { outcome: RecvOutcomeView::Delivered { tie: t, .. }, .. } && t == tie
}

/// The last of the first `n` events that puts `tie` on its way is the `i`-th,
/// with the number `number` on its channel.
pub open spec fn sent_as(h: Seq<Seen>, n: int, i: int, tie: u64, number: u64) -> bool {
    &&& 0 <= i < n <= h.len()
    &&& sends_tie(h[i].e, tie)
    &&& h[i].e->chan_seq == number
    &&& forall|k: int| i < k < n ==> !sends_tie((#[trigger] h[k]).e, tie)
}

proof fn lemma_scheduled(h: Seq<Seen>, tie: u64)
    ensures
        monitor::scheduled(h).contains_key(tie) ==> exists|i: int|
            #[trigger] sent_as(h, h.len() as int, i, tie, monitor::scheduled(h)[tie]),
        forall|i: int, number: u64| #[trigger]
            sent_as(h, h.len() as int, i, tie, number) ==> monitor::scheduled(h).contains_key(tie)
                && monitor::scheduled(h)[tie] == number,
    decreases h.len(),
{
    if h.len() > 0 {
        let p = h.drop_last();
        let n = h.len() as int;
        lemma_scheduled(p, tie);
        if sends_tie(h.last().e, tie) {
            assert(sent_as(h, n, n - 1, tie, h.last().e->chan_seq));
            assert forall|i: int, number: u64| #[trigger]
                sent_as(h, n, i, tie, number) implies monitor::scheduled(h).contains_key(tie)
                && monitor::scheduled(h)[tie] == number by {
                if i < n - 1 {
                    assert(!sends_tie(h[n - 1].e, tie));
                }
            }
        } else {
            if monitor::scheduled(p).contains_key(tie) {
                let s = monitor::scheduled(p)[tie];
                let i = choose|i: int| #[trigger] sent_as(p, p.len() as int, i, tie, s);
                assert(h[i] == p[i]);
                assert forall|k: int| i < k < n implies !sends_tie((#[trigger] h[k]).e, tie) by {
                    if k < n - 1 {
                        assert(p[k] == h[k]);
                    }
                }
                assert(sent_as(h, n, i, tie, s));
            }
            assert forall|i: int, number: u64| #[trigger]
                sent_as(h, n, i, tie, number) implies monitor::scheduled(h).contains_key(tie)
                && monitor::scheduled(h)[tie] == number by {
                assert(p[i] == h[i]);
                assert forall|k: int| i < k < n - 1 implies !sends_tie(
                    (#[trigger] p[k]).e,
                    tie,
                ) by {
                    assert(p[k] == h[k]);
                }
                assert(sent_as(p, n - 1, i, tie, number));
            }
        }
    }
}

proof fn lemma_sent_before(h: Seq<Seen>, j: int, i: int, tie: u64, number: u64)
    requires
        0 <= j <= h.len(),
    ensures
        sent_as(h, j, i, tie, number) <==> sent_as(h.take(j), j, i, tie, number),
{
    let p = h.take(j);
    if sent_as(h, j, i, tie, number) {
        assert(p[i] == h[i]);
        assert forall|k: int| i < k < j implies !sends_tie((#[trigger] p[k]).e, tie) by {
            assert(p[k] == h[k]);
        }
    }
    if sent_as(p, j, i, tie, number) {
        assert(p[i] == h[i]);
        assert forall|k: int| i < k < j implies !sends_tie((#[trigger] h[k]).e, tie) by {
            assert(p[k] == h[k]);
        }
    }
}

/// The `j`-th event delivers, on the channel from `src` to `dst`, a datagram
/// that was sent there as the number `number`.
pub open spec fn delivers_number(
    h: Seq<Seen>,
    j: int,
    src: Addr,
    dst: Addr,
    tie: u64,
    i: int,
    number: u64,
) -> bool {
    0 <= j < h.len() && delivers(h[j].e, src, dst, tie) && sent_as(h, j, i, tie, number)
}

proof fn lemma_number_at(h: Seq<Seen>, j: int, src: Addr, dst: Addr, number: u64)
    requires
        0 <= j < h.len(),
    ensures
        order_laws::number_at(h, j, monitor::channel_of(src, dst)) == Some(number) <==> exists|
            tie: u64,
            i: int,
        | #[trigger] delivers_number(h, j, src, dst, tie, i, number),
{
    let ch = monitor::channel_of(src, dst);
    let p = h.take(j);
    if order_laws::number_at(h, j, ch) == Some(number) {
        let tie = h[j].e->Recv_outcome->tie;
        lemma_scheduled(p, tie);
        let i = choose|i: int| #[trigger] sent_as(p, p.len() as int, i, tie, number);
        lemma_sent_before(h, j, i, tie, number);
        assert(delivers_number(h, j, src, dst, tie, i, number));
    }
    if exists|tie: u64, i: int| #[trigger] delivers_number(h, j, src, dst, tie, i, number) {
        let (tie, i): (u64, int) = choose|tie: u64, i: int| #[trigger]
            delivers_number(h, j, src, dst, tie, i, number);
        lemma_sent_before(h, j, i, tie, number);
        lemma_scheduled(p, tie);
        assert(sent_as(p, p.len() as int, i, tie, number));
    }
}

/// A delivery breaks the order of its channel if and only if the datagram was
/// sent there with a lower number than one that was delivered there before.
pub proof fn law_order_rule(h: Seq<Seen>, now: Seen, src: Addr, dst: Addr, tie: u64)
    requires
        delivers(now.e, src, dst, tie),
    ensures
        monitor::fifo_verdict(h, now.e) is Some <==> exists|i: int, number: u64, j: int, t: u64, k: int, higher: u64|
            #![trigger sent_as(h, h.len() as int, i, tie, number), delivers_number(h, j, src, dst, t, k, higher)]
            sent_as(h, h.len() as int, i, tie, number) && delivers_number(
                h,
                j,
                src,
                dst,
                t,
                k,
                higher,
            ) && number < higher,
{
    let ch = monitor::channel_of(src, dst);
    order_laws::law_fifo_finds_overtaking(h, now);
    lemma_scheduled(h, tie);
    if monitor::fifo_verdict(h, now.e) is Some {
        let number = monitor::scheduled(h)[tie];
        let i = choose|i: int| #[trigger] sent_as(h, h.len() as int, i, tie, number);
        let j = choose|j: int|
            0 <= j < h.len() && (#[trigger] order_laws::number_at(h, j, ch)) is Some
                && order_laws::number_at(h, j, ch).unwrap() > number;
        let higher = order_laws::number_at(h, j, ch).unwrap();
        lemma_number_at(h, j, src, dst, higher);
        let (t, k): (u64, int) = choose|t: u64, k: int| #[trigger]
            delivers_number(h, j, src, dst, t, k, higher);
        assert(sent_as(h, h.len() as int, i, tie, number) && delivers_number(
            h,
            j,
            src,
            dst,
            t,
            k,
            higher,
        ) && number < higher);
    }
    if exists|i: int, number: u64, j: int, t: u64, k: int, higher: u64|
        #![trigger sent_as(h, h.len() as int, i, tie, number), delivers_number(h, j, src, dst, t, k, higher)]
        sent_as(h, h.len() as int, i, tie, number) && delivers_number(h, j, src, dst, t, k, higher)
            && number < higher {
        let (i, number, j, t, k, higher): (int, u64, int, u64, int, u64) = choose|
            i: int,
            number: u64,
            j: int,
            t: u64,
            k: int,
            higher: u64,
        |
            #![trigger sent_as(h, h.len() as int, i, tie, number), delivers_number(h, j, src, dst, t, k, higher)]
            sent_as(h, h.len() as int, i, tie, number) && delivers_number(
                h,
                j,
                src,
                dst,
                t,
                k,
                higher,
            ) && number < higher;
        lemma_number_at(h, j, src, dst, higher);
        assert(order_laws::number_at(h, j, ch) is Some);
    }
}

proof fn lemma_delivered(h: Seq<Seen>, tie: u64)
    ensures
        monitor::delivered_at(h).contains_key(tie) <==> exists|i: int|
            0 <= i < h.len() && delivers_tie((#[trigger] h[i]).e, tie),
        monitor::delivered_at(h).contains_key(tie) ==> exists|i: int|
            #[trigger] first_delivery(h, i, tie) && h[i].op == monitor::delivered_at(h)[tie],
    decreases h.len(),
{
    if h.len() > 0 {
        let p = h.drop_last();
        let n = h.len() as int;
        lemma_delivered(p, tie);
        if monitor::delivered_at(p).contains_key(tie) {
            let i = choose|i: int| #[trigger]
                first_delivery(p, i, tie) && p[i].op == monitor::delivered_at(p)[tie];
            assert(h[i] == p[i]);
            assert forall|k: int| 0 <= k < i implies !delivers_tie((#[trigger] h[k]).e, tie) by {
                assert(p[k] == h[k]);
            }
            assert(first_delivery(h, i, tie));
        } else {
            assert forall|k: int| 0 <= k < n - 1 implies !delivers_tie(
                (#[trigger] h[k]).e,
                tie,
            ) by {
                assert(p[k] == h[k]);
            }
            if delivers_tie(h[n - 1].e, tie) {
                assert(first_delivery(h, n - 1, tie));
            }
        }
    }
}

/// The `i`-th event is the first that delivers `tie`.
pub open spec fn first_delivery(h: Seq<Seen>, i: int, tie: u64) -> bool {
    &&& 0 <= i < h.len()
    &&& delivers_tie(h[i].e, tie)
    &&& forall|k: int| 0 <= k < i ==> !delivers_tie((#[trigger] h[k]).e, tie)
}

/// A delivery is one too many if and only if the datagram was delivered
/// before, to whomever; the finding names the datagram and where it was first
/// delivered.
pub proof fn law_duplicate_rule(h: Seq<Seen>, now: Seen, tie: u64)
    requires
        delivers_tie(now.e, tie),
    ensures
        monitor::duplicate_verdict(h, now.e) is Some <==> exists|i: int|
            0 <= i < h.len() && delivers_tie((#[trigger] h[i]).e, tie),
        forall|i: int| #[trigger]
            first_delivery(h, i, tie) ==> monitor::duplicate_verdict(h, now.e) == Some(
                "datagram tie="@ + text::dec(tie as nat) + " delivered twice (first at op "@
                    + text::dec(h[i].op as nat) + ")"@,
            ),
{
    lemma_delivered(h, tie);
    assert forall|i: int| #[trigger] first_delivery(h, i, tie) implies monitor::duplicate_verdict(
        h,
        now.e,
    ) == Some(
        "datagram tie="@ + text::dec(tie as nat) + " delivered twice (first at op "@ + text::dec(
            h[i].op as nat,
        ) + ")"@,
    ) by {
        assert(delivers_tie(h[i].e, tie));
        let j = choose|j: int| #[trigger]
            first_delivery(h, j, tie) && h[j].op == monitor::delivered_at(h)[tie];
        assert(i == j) by {
            if i < j {
                assert(!delivers_tie(h[i].e, tie));
            }
            if j < i {
                assert(!delivers_tie(h[j].e, tie));
            }
        }
    }
}

/// The rules find nothing but in deliveries.
pub proof fn law_rules_look_at_deliveries(h: Seq<Seen>, now: Seen)
    requires
        forall|tie: u64| !#[trigger] delivers_tie(now.e, tie),
    ensures
        monitor::fifo_verdict(h, now.e) is None,
        monitor::duplicate_verdict(h, now.e) is None,
{
    if let EventView::Recv { outcome: RecvOutcomeView::Delivered { tie, .. }, .. } = now.e {
        assert(delivers_tie(now.e, tie));
    }
}

/// Whatever a rule finds in an event is raised, under its name and with the
/// place of the event, and nothing else is.
pub proof fn law_findings_are_raised<I: Invariant>(
    rules: Seq<I>,
    past: Seq<Seen>,
    now: Seen,
    n: int,
    v: ViolationView,
)
    requires
        0 <= n <= rules.len(),
    ensures
        monitor::raised(rules, past, now, n).contains(v) <==> exists|i: int|
            0 <= i < n && (#[trigger] rules[i]).verdict(rules[i].history() + past, now) == Some(
                v.message,
            ) && v.rule == rules[i].title() && v.op == now.op && v.vt == now.vt && v.event == now.e,
        monitor::raised(rules, past, now, n).len() <= n,
    decreases n,
{
    if n > 0 {
        let r = monitor::raised(rules, past, now, n - 1);
        let all = monitor::raised(rules, past, now, n);
        law_findings_are_raised(rules, past, now, n - 1, v);
        let rule = rules[n - 1];
        if let Some(message) = rule.verdict(rule.history() + past, now) {
            assert(all[r.len() as int].message == message);
            if r.contains(v) {
                let k = choose|k: int| 0 <= k < r.len() && r[k] == v;
                assert(all[k] == v);
            }
            if all.contains(v) {
                let k = choose|k: int| 0 <= k < all.len() && all[k] == v;
                if k < r.len() {
                    assert(r[k] == v);
                }
            }
            if v.message == message && v.rule == rule.title() && v.op == now.op && v.vt == now.vt
                && v.event == now.e {
                assert(all[r.len() as int] == v);
            }
        }
    }
}

/// The built-in rules are the one on order and the one on duplicates, each
/// under its own name and with its own findings.
pub proof fn law_built_in_rules(b: BuiltIn, h: Seq<Seen>, now: Seen)
    ensures
        b is Fifo ==> b.title() == "per-channel-fifo"@ && b.verdict(h, now)
            == monitor::fifo_verdict(h, now.e),
        b is Dup ==> b.title() == "no-duplicate-delivery"@ && b.verdict(h, now)
            == monitor::duplicate_verdict(h, now.e),
{
}

} // verus!
