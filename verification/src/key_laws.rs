//! The laws of telling failures apart: what a sweep counts as one failure and
//! what as two, and how it is named.

use vstd::prelude::*;

use crate::canon_laws;
use crate::log::{Addr, EventView, RecvOutcomeView};
use crate::monitor::ViolationView;
use crate::report;
use crate::shrink;
use crate::shrink::KeyView;
use crate::text;
use crate::wire;

verus! {

// ---------------------------------------------------------------------------
// Addresses and channels as text
// ---------------------------------------------------------------------------

/// The text of an address is its four octets, from the highest on, with points
/// between them, and its port behind a colon.
pub proof fn law_address_text(a: nat, b: nat, c: nat, d: nat, ip: u32, port: u16)
    requires
        a < 256,
        b < 256,
        c < 256,
        d < 256,
        ip == a * 0x100_0000 + b * 0x1_0000 + c * 0x100 + d,
    ensures
        wire::addr_text(ip, port) == text::dec(a) + seq!['.'] + text::dec(b) + seq!['.']
            + text::dec(c) + seq!['.'] + text::dec(d) + seq![':'] + text::dec(port as nat),
{
    assert((ip / 0x100_0000) as nat == a);
    assert((ip / 0x1_0000 % 256) as nat == b);
    assert((ip / 0x100 % 256) as nat == c);
    assert((ip % 256) as nat == d);
}

proof fn lemma_regrouped(
    a: Seq<char>,
    b: Seq<char>,
    c: Seq<char>,
    d: Seq<char>,
    p: Seq<char>,
    x: Seq<char>,
)
    ensures
        a + seq!['.'] + b + seq!['.'] + c + seq!['.'] + d + seq![':'] + p + x == a + (seq!['.'] + (b
            + (seq!['.'] + (c + (seq!['.'] + (d + (seq![':'] + (p + x)))))))),
{
    let l = seq!['.'];
    let r = seq![':'];
    canon_laws::lemma_three(a + l + b + l + c + l + d + r, p, x);
    canon_laws::lemma_three(a + l + b + l + c + l + d, r, p + x);
    canon_laws::lemma_three(a + l + b + l + c + l, d, r + (p + x));
    canon_laws::lemma_three(a + l + b + l + c, l, d + (r + (p + x)));
    canon_laws::lemma_three(a + l + b + l, c, l + (d + (r + (p + x))));
    canon_laws::lemma_three(a + l + b, l, c + (l + (d + (r + (p + x)))));
    canon_laws::lemma_three(a + l, b, l + (c + (l + (d + (r + (p + x))))));
    canon_laws::lemma_three(a, l, b + (l + (c + (l + (d + (r + (p + x)))))));
}

/// The text of an address tells addresses apart, also where more text follows
/// it that does not go on with a digit.
pub proof fn law_address_text_tells_apart(a: Addr, b: Addr, x: Seq<char>, y: Seq<char>)
    requires
        canon_laws::ends_number(x),
        canon_laws::ends_number(y),
        wire::addr_text(a.ip, a.port) + x == wire::addr_text(b.ip, b.port) + y,
    ensures
        a == b,
        x == y,
{
    let a1 = (a.ip / 0x100_0000) as nat;
    let a2 = (a.ip / 0x1_0000 % 256) as nat;
    let a3 = (a.ip / 0x100 % 256) as nat;
    let a4 = (a.ip % 256) as nat;
    let b1 = (b.ip / 0x100_0000) as nat;
    let b2 = (b.ip / 0x1_0000 % 256) as nat;
    let b3 = (b.ip / 0x100 % 256) as nat;
    let b4 = (b.ip % 256) as nat;
    let pa = text::dec(a.port as nat);
    let pb = text::dec(b.port as nat);
    lemma_regrouped(text::dec(a1), text::dec(a2), text::dec(a3), text::dec(a4), pa, x);
    lemma_regrouped(text::dec(b1), text::dec(b2), text::dec(b3), text::dec(b4), pb, y);
    let l = seq!['.'];
    let r = seq![':'];
    let u4 = text::dec(a4) + (r + (pa + x));
    let v4 = text::dec(b4) + (r + (pb + y));
    let u3 = text::dec(a3) + (l + u4);
    let v3 = text::dec(b3) + (l + v4);
    let u2 = text::dec(a2) + (l + u3);
    let v2 = text::dec(b2) + (l + v3);
    canon_laws::lemma_number_then(a1, b1, l, u2, v2);
    canon_laws::lemma_number_then(a2, b2, l, u3, v3);
    canon_laws::lemma_number_then(a3, b3, l, u4, v4);
    canon_laws::lemma_number_then(a4, b4, r, pa + x, pb + y);
    canon_laws::lemma_number(a.port as nat, b.port as nat, x, y);
    assert(a.ip == b.ip);
}

/// The text of a channel is that of its source, an arrow, and that of its
/// destination, and it tells channels apart.
pub proof fn law_channel_text_tells_apart(a: Addr, b: Addr, c: Addr, d: Addr)
    ensures
        report::channel_text(a, b) == wire::addr_text(a.ip, a.port) + seq![' ', '\u{2192}', ' ']
            + wire::addr_text(b.ip, b.port),
        report::channel_text(a, b) == report::channel_text(c, d) <==> a == c && b == d,
{
    if report::channel_text(a, b) == report::channel_text(c, d) {
        let e = seq![' ', '\u{2192}', ' '];
        let s = seq![' '];
        let p = wire::addr_text(a.ip, a.port);
        let q = wire::addr_text(b.ip, b.port);
        let u = wire::addr_text(c.ip, c.port);
        let v = wire::addr_text(d.ip, d.port);
        canon_laws::lemma_three(p, e, q);
        canon_laws::lemma_three(u, e, v);
        assert((e + q)[0] == ' ' && (e + v)[0] == ' ');
        law_address_text_tells_apart(a, c, e + q, e + v);
        canon_laws::lemma_behind(e, q, v);
        law_address_text_tells_apart(b, d, s, s);
    }
}

// ---------------------------------------------------------------------------
// Failures
// ---------------------------------------------------------------------------

/// Two violations on channels, be they seen at a send or at a delivery, are one
/// failure if and only if they break the same rule on the same channel, from
/// the same source to the same destination.
pub proof fn law_failures_by_rule_and_channel(
    v: ViolationView,
    w: ViolationView,
    a: Addr,
    b: Addr,
    c: Addr,
    d: Addr,
)
    requires
        (v.event matches EventView::Send { src, dst, .. } && src == a && dst == b) || (
        v.event matches EventView::Recv {
            outcome: RecvOutcomeView::Delivered { src, dst, .. },
            ..
        } && src == a && dst == b),
        (w.event matches EventView::Send { src, dst, .. } && src == c && dst == d) || (
        w.event matches EventView::Recv {
            outcome: RecvOutcomeView::Delivered { src, dst, .. },
            ..
        } && src == c && dst == d),
    ensures
        shrink::key_of(v) == shrink::key_of(w) <==> v.rule == w.rule && a == c && b == d,
        shrink::key_of(v).rule == v.rule,
        shrink::key_of(v).subject == wire::addr_text(a.ip, a.port) + seq![' ', '\u{2192}', ' ']
            + wire::addr_text(b.ip, b.port),
{
    law_channel_text_tells_apart(a, b, c, d);
}

/// Violations that concern no channel are one failure if and only if they break
/// the same rule, and never one with a violation on a channel.
pub proof fn law_failures_without_channel(v: ViolationView, w: ViolationView)
    requires
        !(v.event is Send),
        !(v.event matches EventView::Recv { outcome: RecvOutcomeView::Delivered { .. }, .. }),
    ensures
        !(w.event is Send) && !(w.event matches EventView::Recv {
            outcome: RecvOutcomeView::Delivered { .. },
            ..
        }) ==> (shrink::key_of(v) == shrink::key_of(w) <==> v.rule == w.rule),
        w.event is Send || (w.event matches EventView::Recv {
            outcome: RecvOutcomeView::Delivered { .. },
            ..
        }) ==> shrink::key_of(v) != shrink::key_of(w),
{
    let k = shrink::key_of(w);
    if w.event is Send || (w.event matches EventView::Recv {
        outcome: RecvOutcomeView::Delivered { .. },
        ..
    }) {
        assert(k.subject.len() >= 3);
    }
}

/// A failure is named by its rule, and where it is on a channel, by the channel
/// behind the rule. Failures of one rule have different names.
pub proof fn law_failures_are_named_apart(k: KeyView, l: KeyView)
    ensures
        k.subject.len() == 0 ==> shrink::key_text(k) == k.rule,
        k.subject.len() > 0 ==> shrink::key_text(k).len() == k.rule.len() + 4 + k.subject.len()
            && shrink::key_text(k).take(k.rule.len() as int) == k.rule && shrink::key_text(k).skip(
            k.rule.len() as int,
        ) == seq![' ', 'o', 'n', ' '] + k.subject,
        k.rule == l.rule ==> (shrink::key_text(k) == shrink::key_text(l) <==> k.subject
            == l.subject),
{
    reveal_strlit(" on ");
    let on = seq![' ', 'o', 'n', ' '];
    assert(" on "@ =~= on);
    let t = shrink::key_text(k);
    let u = shrink::key_text(l);
    if k.subject.len() > 0 {
        assert(t.take(k.rule.len() as int) =~= k.rule);
        assert(t.skip(k.rule.len() as int) =~= on + k.subject);
    }
    if l.subject.len() > 0 {
        assert(u.skip(l.rule.len() as int) =~= on + l.subject);
    }
    if k.rule == l.rule && t == u {
        if k.subject.len() > 0 && l.subject.len() > 0 {
            canon_laws::lemma_behind(on, k.subject, l.subject);
        } else {
            assert(k.subject =~= l.subject);
        }
    }
}

} // verus!
