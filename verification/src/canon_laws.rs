//! Laws of the canonical text: it tells records apart.

use vstd::prelude::*;

use crate::json;
use crate::log;
use crate::log::{Addr, EventView, RecvOutcomeView, SendOutcome};
use crate::text;

verus! {

/// What stands behind the same text is the same.
pub proof fn lemma_behind(l: Seq<char>, x: Seq<char>, y: Seq<char>)
    requires
        l + x == l + y,
    ensures
        x == y,
{
    assert((l + x).skip(l.len() as int) =~= x);
    assert((l + y).skip(l.len() as int) =~= y);
}

/// The text goes on with something else than a digit.
pub open spec fn ends_number(x: Seq<char>) -> bool {
    x.len() > 0 && text::digit(x[0], 10) is None
}

/// A number ends where the digits do.
pub proof fn lemma_number(a: nat, b: nat, x: Seq<char>, y: Seq<char>)
    requires
        ends_number(x),
        ends_number(y),
        text::dec(a) + x == text::dec(b) + y,
    ensures
        a == b,
        x == y,
{
    text::lemma_dec(a);
    text::lemma_dec(b);
    let p = text::dec(a);
    let q = text::dec(b);
    if p.len() < q.len() {
        assert((p + x)[p.len() as int] == x[0]);
        assert((q + y)[p.len() as int] == q[p.len() as int]);
        assert(text::digit(q[p.len() as int], 10) is Some);
    }
    if q.len() < p.len() {
        assert((q + y)[q.len() as int] == y[0]);
        assert((p + x)[q.len() as int] == p[q.len() as int]);
        assert(text::digit(p[q.len() as int], 10) is Some);
    }
    assert(p =~= (p + x).take(p.len() as int));
    assert(q =~= (q + y).take(q.len() as int));
    lemma_behind(p, x, y);
}

proof fn lemma_escaped_front(s: Seq<char>)
    requires
        s.len() > 0,
    ensures
        json::escaped_all(s) == json::escaped(s[0]) + json::escaped_all(s.skip(1)),
    decreases s.len(),
{
    reveal_with_fuel(json::escaped_all, 2);
    if s.len() == 1 {
        assert(s.drop_last() =~= Seq::<char>::empty());
        assert(s.skip(1) =~= Seq::<char>::empty());
        assert(json::escaped_all(s) =~= json::escaped(s[0]));
        assert(json::escaped(s[0]) + json::escaped_all(s.skip(1)) =~= json::escaped(s[0]));
    } else {
        let p = s.drop_last();
        lemma_escaped_front(p);
        assert(s.skip(1).drop_last() =~= p.skip(1));
        assert(s.skip(1).last() == s.last());
        assert(json::escaped_all(s) =~= json::escaped(s[0]) + json::escaped_all(s.skip(1)));
    }
}

proof fn lemma_escaped_first(c: char, d: char, x: Seq<char>, y: Seq<char>)
    requires
        json::escaped(c) + x == json::escaped(d) + y,
    ensures
        c == d,
        x == y,
{
    let p = json::escaped(c);
    let q = json::escaped(d);
    let s = p + x;
    let t = q + y;
    assert(s[0] == p[0] && t[0] == q[0]);
    if p.len() > 1 && q.len() > 1 {
        assert(s[1] == p[1] && t[1] == q[1]);
        if p.len() == 6 && q.len() == 6 {
            assert(s[4] == p[4] && t[4] == q[4]);
            assert(s[5] == p[5] && t[5] == q[5]);
        }
    }
    assert(c == d);
    lemma_behind(p, x, y);
}

proof fn lemma_inside(s: Seq<char>, t: Seq<char>, x: Seq<char>, y: Seq<char>)
    requires
        json::escaped_all(s) + (seq!['"'] + x) == json::escaped_all(t) + (seq!['"'] + y),
    ensures
        s == t,
        x == y,
    decreases s.len(),
{
    let a = json::escaped_all(s) + (seq!['"'] + x);
    let b = json::escaped_all(t) + (seq!['"'] + y);
    if s.len() == 0 {
        assert(a[0] == '"');
        if t.len() > 0 {
            lemma_escaped_front(t);
            assert(b[0] == json::escaped(t[0])[0]);
        }
        assert(s =~= t);
        assert(a =~= seq!['"'] + x);
        assert(b =~= seq!['"'] + y);
        lemma_behind(seq!['"'], x, y);
    } else {
        lemma_escaped_front(s);
        assert(a[0] == json::escaped(s[0])[0]);
        if t.len() == 0 {
            assert(b[0] == '"');
        } else {
            lemma_escaped_front(t);
            let u = json::escaped_all(s.skip(1)) + (seq!['"'] + x);
            let v = json::escaped_all(t.skip(1)) + (seq!['"'] + y);
            assert(a =~= json::escaped(s[0]) + u);
            assert(b =~= json::escaped(t[0]) + v);
            lemma_escaped_first(s[0], t[0], u, v);
            lemma_inside(s.skip(1), t.skip(1), x, y);
            assert(s =~= seq![s[0]] + s.skip(1));
            assert(t =~= seq![t[0]] + t.skip(1));
        }
    }
}

proof fn lemma_string(s: Seq<char>, t: Seq<char>, x: Seq<char>, y: Seq<char>)
    requires
        json::string_json(s) + x == json::string_json(t) + y,
    ensures
        s == t,
        x == y,
{
    let u = json::escaped_all(s) + (seq!['"'] + x);
    let v = json::escaped_all(t) + (seq!['"'] + y);
    assert(json::string_json(s) + x =~= seq!['"'] + u);
    assert(json::string_json(t) + y =~= seq!['"'] + v);
    lemma_behind(seq!['"'], u, v);
    lemma_inside(s, t, x, y);
}

/// A number and the text behind it, `l` in front of the rest.
pub proof fn lemma_number_then(a: nat, b: nat, l: Seq<char>, x: Seq<char>, y: Seq<char>)
    requires
        ends_number(l),
        text::dec(a) + (l + x) == text::dec(b) + (l + y),
    ensures
        a == b,
        x == y,
{
    assert((l + x)[0] == l[0] && (l + y)[0] == l[0]);
    lemma_number(a, b, l + x, l + y);
    lemma_behind(l, x, y);
}

#[verifier::rlimit(30)]
#[verifier::spinoff_prover]
proof fn lemma_addr(
    ip: u32,
    port: u16,
    ip2: u32,
    port2: u16,
    x: Seq<char>,
    y: Seq<char>,
)
    requires
        json::addr_json(ip, port) + x == json::addr_json(ip2, port2) + y,
    ensures
        ip == ip2,
        port == port2,
        x == y,
{
    reveal_strlit(",\"port\":");
    reveal_strlit("}");
    let p = text::dec(port as nat) + ("}"@ + x);
    let q = text::dec(port2 as nat) + ("}"@ + y);
    let u = text::dec(ip as nat) + (",\"port\":"@ + p);
    let v = text::dec(ip2 as nat) + (",\"port\":"@ + q);
    lemma_six("{\"ip\":"@, text::dec(ip as nat), ",\"port\":"@, text::dec(port as nat), "}"@, x);
    lemma_six("{\"ip\":"@, text::dec(ip2 as nat), ",\"port\":"@, text::dec(port2 as nat), "}"@, y);
    lemma_behind("{\"ip\":"@, u, v);
    lemma_number_then(ip as nat, ip2 as nat, ",\"port\":"@, p, q);
    lemma_number_then(port as nat, port2 as nat, "}"@, x, y);
}

#[verifier::rlimit(30)]
#[verifier::spinoff_prover]
proof fn lemma_send_outcome(o: SendOutcome, p: SendOutcome, x: Seq<char>, y: Seq<char>)
    requires
        log::send_outcome_json(o) + x == log::send_outcome_json(p) + y,
    ensures
        o == p,
        x == y,
{
    reveal_strlit("{\"kind\":\"dropped\"}");
    reveal_strlit("{\"kind\":\"no_receiver\"}");
    reveal_strlit("{\"kind\":\"enqueued\",\"to_conn\":");
    reveal_strlit(",\"deliv_ns\":");
    reveal_strlit(",\"tie\":");
    reveal_strlit("}");
    let a = log::send_outcome_json(o);
    let b = log::send_outcome_json(p);
    assert((a + x)[9] == a[9] && (b + y)[9] == b[9]);
    match (o, p) {
        (
            SendOutcome::Enqueued { to_conn, deliv_ns, tie },
            SendOutcome::Enqueued { to_conn: c, deliv_ns: d, tie: t },
        ) => {
            let x3 = text::dec(tie as nat) + ("}"@ + x);
            let y3 = text::dec(t as nat) + ("}"@ + y);
            let x2 = text::dec(deliv_ns as nat) + (",\"tie\":"@ + x3);
            let y2 = text::dec(d as nat) + (",\"tie\":"@ + y3);
            let x1 = text::dec(to_conn as nat) + (",\"deliv_ns\":"@ + x2);
            let y1 = text::dec(c as nat) + (",\"deliv_ns\":"@ + y2);
            lemma_eight(
                "{\"kind\":\"enqueued\",\"to_conn\":"@,
                text::dec(to_conn as nat),
                ",\"deliv_ns\":"@,
                text::dec(deliv_ns as nat),
                ",\"tie\":"@,
                text::dec(tie as nat),
                "}"@,
                x,
            );
            lemma_eight(
                "{\"kind\":\"enqueued\",\"to_conn\":"@,
                text::dec(c as nat),
                ",\"deliv_ns\":"@,
                text::dec(d as nat),
                ",\"tie\":"@,
                text::dec(t as nat),
                "}"@,
                y,
            );
            lemma_behind("{\"kind\":\"enqueued\",\"to_conn\":"@, x1, y1);
            lemma_number_then(to_conn as nat, c as nat, ",\"deliv_ns\":"@, x2, y2);
            lemma_number_then(deliv_ns as nat, d as nat, ",\"tie\":"@, x3, y3);
            lemma_number_then(tie as nat, t as nat, "}"@, x, y);
        },
        _ => {
            assert(o == p);
            lemma_behind(a, x, y);
        },
    }
}

/// Eight texts in a row, grouped from the right.
proof fn lemma_eight(
    a: Seq<char>,
    b: Seq<char>,
    c: Seq<char>,
    d: Seq<char>,
    e: Seq<char>,
    f: Seq<char>,
    g: Seq<char>,
    x: Seq<char>,
)
    ensures
        a + b + c + d + e + f + g + x == a + (b + (c + (d + (e + (f + (g + x)))))),
{
    lemma_three(a + b + c + d + e + f, g, x);
    lemma_three(a + b + c + d + e, f, g + x);
    lemma_three(a + b + c + d, e, f + (g + x));
    lemma_three(a + b + c, d, e + (f + (g + x)));
    lemma_three(a + b, c, d + (e + (f + (g + x))));
    lemma_three(a, b, c + (d + (e + (f + (g + x)))));
}

/// Six texts in a row, grouped from the right.
proof fn lemma_six(
    a: Seq<char>,
    b: Seq<char>,
    c: Seq<char>,
    d: Seq<char>,
    e: Seq<char>,
    x: Seq<char>,
)
    ensures
        a + b + c + d + e + x == a + (b + (c + (d + (e + x)))),
{
    lemma_three(a + b + c + d, e, x);
    lemma_three(a + b + c, d, e + x);
    lemma_three(a + b, c, d + (e + x));
    lemma_three(a, b, c + (d + (e + x)));
}

/// Four texts in a row, grouped from the right.
proof fn lemma_four(a: Seq<char>, b: Seq<char>, c: Seq<char>, x: Seq<char>)
    ensures
        a + b + c + x == a + (b + (c + x)),
{
    lemma_three(a + b, c, x);
    lemma_three(a, b, c + x);
}

/// Three texts in a row, grouped from the right.
pub proof fn lemma_three(a: Seq<char>, b: Seq<char>, c: Seq<char>)
    ensures
        a + b + c == a + (b + c),
{
    assert(a + b + c =~= a + (b + c));
}

#[verifier::rlimit(30)]
#[verifier::spinoff_prover]
proof fn lemma_flat_delivered(
    src: Addr,
    dst: Addr,
    deliv_ns: u64,
    tie: u64,
    payload: Seq<char>,
    x: Seq<char>,
)
    ensures
        log::recv_outcome_json(
            RecvOutcomeView::Delivered { src, dst, deliv_ns, tie, payload },
        ) + x == "{\"kind\":\"delivered\",\"src\":"@ + (json::addr_json(src.ip, src.port) + (
        ",\"dst\":"@ + (json::addr_json(dst.ip, dst.port) + (",\"deliv_ns\":"@ + (text::dec(
            deliv_ns as nat,
        ) + (",\"tie\":"@ + (text::dec(tie as nat) + (",\"payload\":"@ + (json::string_json(
            payload,
        ) + ("}"@ + x)))))))))),
{
    let a = "{\"kind\":\"delivered\",\"src\":"@;
    let b = json::addr_json(src.ip, src.port);
    let c = ",\"dst\":"@;
    let d = json::addr_json(dst.ip, dst.port);
    let e = ",\"deliv_ns\":"@;
    let f = text::dec(deliv_ns as nat);
    let g = ",\"tie\":"@;
    let h = text::dec(tie as nat);
    let i = ",\"payload\":"@;
    let j = json::string_json(payload);
    let k = "}"@;
    let p = a + b + c + d + e + f + g;
    lemma_three(p + h + i + j, k, x);
    lemma_three(p + h + i, j, k + x);
    lemma_three(p + h, i, j + (k + x));
    lemma_three(p, h, i + (j + (k + x)));
    lemma_eight(a, b, c, d, e, f, g, h + (i + (j + (k + x))));
}

#[verifier::rlimit(30)]
#[verifier::spinoff_prover]
proof fn lemma_recv_outcome(o: RecvOutcomeView, p: RecvOutcomeView, x: Seq<char>, y: Seq<char>)
    requires
        log::recv_outcome_json(o) + x == log::recv_outcome_json(p) + y,
    ensures
        o == p,
        x == y,
{
    reveal_strlit("{\"kind\":\"empty\"}");
    reveal_strlit("{\"kind\":\"delivered\",\"src\":");
    reveal_strlit(",\"tie\":");
    reveal_strlit(",\"payload\":");
    let a = log::recv_outcome_json(o);
    let b = log::recv_outcome_json(p);
    assert((a + x)[9] == a[9] && (b + y)[9] == b[9]);
    match (o, p) {
        (
            RecvOutcomeView::Delivered { src, dst, deliv_ns, tie, payload },
            RecvOutcomeView::Delivered { src: s, dst: d, deliv_ns: n, tie: t, payload: q },
        ) => {
            let x5 = json::string_json(payload) + ("}"@ + x);
            let y5 = json::string_json(q) + ("}"@ + y);
            let x4 = text::dec(tie as nat) + (",\"payload\":"@ + x5);
            let y4 = text::dec(t as nat) + (",\"payload\":"@ + y5);
            let x3 = text::dec(deliv_ns as nat) + (",\"tie\":"@ + x4);
            let y3 = text::dec(n as nat) + (",\"tie\":"@ + y4);
            let x2 = json::addr_json(dst.ip, dst.port) + (",\"deliv_ns\":"@ + x3);
            let y2 = json::addr_json(d.ip, d.port) + (",\"deliv_ns\":"@ + y3);
            let x1 = json::addr_json(src.ip, src.port) + (",\"dst\":"@ + x2);
            let y1 = json::addr_json(s.ip, s.port) + (",\"dst\":"@ + y2);
            lemma_flat_delivered(src, dst, deliv_ns, tie, payload, x);
            lemma_flat_delivered(s, d, n, t, q, y);
            lemma_behind("{\"kind\":\"delivered\",\"src\":"@, x1, y1);
            lemma_addr(src.ip, src.port, s.ip, s.port, ",\"dst\":"@ + x2, ",\"dst\":"@ + y2);
            lemma_behind(",\"dst\":"@, x2, y2);
            lemma_addr(
                dst.ip,
                dst.port,
                d.ip,
                d.port,
                ",\"deliv_ns\":"@ + x3,
                ",\"deliv_ns\":"@ + y3,
            );
            lemma_behind(",\"deliv_ns\":"@, x3, y3);
            lemma_number_then(deliv_ns as nat, n as nat, ",\"tie\":"@, x4, y4);
            lemma_number_then(tie as nat, t as nat, ",\"payload\":"@, x5, y5);
            lemma_string(payload, q, "}"@ + x, "}"@ + y);
            lemma_behind("}"@, x, y);
        },
        _ => {
            assert(o == p);
            lemma_behind(a, x, y);
        },
    }
}

proof fn lemma_bool(a: bool, b: bool, x: Seq<char>, y: Seq<char>)
    requires
        json::bool_json(a) + x == json::bool_json(b) + y,
    ensures
        a == b,
        x == y,
{
    reveal_strlit("true");
    reveal_strlit("false");
    let p = json::bool_json(a);
    let q = json::bool_json(b);
    assert((p + x)[0] == p[0] && (q + y)[0] == q[0]);
    lemma_behind(p, x, y);
}

proof fn lemma_send_vt(a: u64, b: u64, x: Seq<char>, y: Seq<char>)
    requires
        log::send_vt_json(a) + (",\"payload\":"@ + x) == log::send_vt_json(b) + (
        ",\"payload\":"@ + y),
    ensures
        a == b,
        x == y,
{
    reveal_strlit(",\"send_vt\":");
    reveal_strlit(",\"payload\":");
    let l = ",\"send_vt\":"@;
    let u = ",\"payload\":"@ + x;
    let v = ",\"payload\":"@ + y;
    let s = log::send_vt_json(a) + u;
    let t = log::send_vt_json(b) + v;
    if a == 0 {
        assert(s =~= u);
        assert(s[2] == 'p');
    } else {
        assert(s =~= l + (text::dec(a as nat) + u));
        assert(s[2] == 's');
    }
    if b == 0 {
        assert(t =~= v);
        assert(t[2] == 'p');
    } else {
        assert(t =~= l + (text::dec(b as nat) + v));
        assert(t[2] == 's');
    }
    if a != 0 {
        lemma_behind(l, text::dec(a as nat) + u, text::dec(b as nat) + v);
        lemma_number_then(a as nat, b as nat, ",\"payload\":"@, x, y);
    } else {
        lemma_behind(",\"payload\":"@, x, y);
    }
}

#[verifier::rlimit(30)]
#[verifier::spinoff_prover]
proof fn lemma_flat_send(
    conn: u64,
    src: Addr,
    dst: Addr,
    chan_seq: u64,
    send_vt: u64,
    payload: Seq<char>,
    outcome: SendOutcome,
    x: Seq<char>,
)
    ensures
        log::event_json(
            EventView::Send { conn, src, dst, chan_seq, send_vt, payload, outcome },
        ) + x == "{\"k\":\"send\",\"conn\":"@ + (text::dec(conn as nat) + (",\"src\":"@ + (
        json::addr_json(src.ip, src.port) + (",\"dst\":"@ + (json::addr_json(dst.ip, dst.port) + (
        ",\"chan_seq\":"@ + (text::dec(chan_seq as nat) + (log::send_vt_json(send_vt) + (
        ",\"payload\":"@ + (json::string_json(payload) + (",\"outcome\":"@ + (
        log::send_outcome_json(outcome) + ("}"@ + x))))))))))))),
{
    let a = "{\"k\":\"send\",\"conn\":"@;
    let b = text::dec(conn as nat);
    let c = ",\"src\":"@;
    let d = json::addr_json(src.ip, src.port);
    let e = ",\"dst\":"@;
    let f = json::addr_json(dst.ip, dst.port);
    let g = ",\"chan_seq\":"@;
    let h = text::dec(chan_seq as nat);
    let i = log::send_vt_json(send_vt);
    let j = ",\"payload\":"@;
    let k = json::string_json(payload);
    let l = ",\"outcome\":"@;
    let m = log::send_outcome_json(outcome);
    let n = "}"@;
    let p = a + b + c + d + e + f + g;
    lemma_eight(p, h, i, j, k, l, m, n + x);
    lemma_three(p + h + i + j + k + l + m, n, x);
    lemma_eight(a, b, c, d, e, f, g, h + (i + (j + (k + (l + (m + (n + x)))))));
}

proof fn lemma_flat_recv(conn: u64, blocking: bool, outcome: RecvOutcomeView, x: Seq<char>)
    ensures
        log::event_json(EventView::Recv { conn, blocking, outcome }) + x
            == "{\"k\":\"recv\",\"conn\":"@ + (text::dec(conn as nat) + (",\"blocking\":"@ + (
        json::bool_json(blocking) + (",\"outcome\":"@ + (log::recv_outcome_json(outcome) + ("}"@
            + x)))))),
{
    lemma_eight(
        "{\"k\":\"recv\",\"conn\":"@,
        text::dec(conn as nat),
        ",\"blocking\":"@,
        json::bool_json(blocking),
        ",\"outcome\":"@,
        log::recv_outcome_json(outcome),
        "}"@,
        x,
    );
}

#[verifier::rlimit(30)]
#[verifier::spinoff_prover]
proof fn lemma_send(e: EventView, f: EventView, x: Seq<char>, y: Seq<char>)
    requires
        e is Send,
        f is Send,
        log::event_json(e) + x == log::event_json(f) + y,
    ensures
        e == f,
        x == y,
{
    reveal_strlit(",\"src\":");
    match (e, f) {
        (
            EventView::Send { conn, src, dst, chan_seq, send_vt, payload, outcome },
            EventView::Send {
                conn: c,
                src: s,
                dst: d,
                chan_seq: q,
                send_vt: v,
                payload: p,
                outcome: o,
            },
        ) => {
            let x7 = log::send_outcome_json(outcome) + ("}"@ + x);
            let y7 = log::send_outcome_json(o) + ("}"@ + y);
            let x6 = json::string_json(payload) + (",\"outcome\":"@ + x7);
            let y6 = json::string_json(p) + (",\"outcome\":"@ + y7);
            let x5 = log::send_vt_json(send_vt) + (",\"payload\":"@ + x6);
            let y5 = log::send_vt_json(v) + (",\"payload\":"@ + y6);
            let x4 = text::dec(chan_seq as nat) + x5;
            let y4 = text::dec(q as nat) + y5;
            let x3 = json::addr_json(dst.ip, dst.port) + (",\"chan_seq\":"@ + x4);
            let y3 = json::addr_json(d.ip, d.port) + (",\"chan_seq\":"@ + y4);
            let x2 = json::addr_json(src.ip, src.port) + (",\"dst\":"@ + x3);
            let y2 = json::addr_json(s.ip, s.port) + (",\"dst\":"@ + y3);
            let x1 = text::dec(conn as nat) + (",\"src\":"@ + x2);
            let y1 = text::dec(c as nat) + (",\"src\":"@ + y2);
            lemma_flat_send(conn, src, dst, chan_seq, send_vt, payload, outcome, x);
            lemma_flat_send(c, s, d, q, v, p, o, y);
            lemma_behind("{\"k\":\"send\",\"conn\":"@, x1, y1);
            lemma_number_then(conn as nat, c as nat, ",\"src\":"@, x2, y2);
            lemma_addr(src.ip, src.port, s.ip, s.port, ",\"dst\":"@ + x3, ",\"dst\":"@ + y3);
            lemma_behind(",\"dst\":"@, x3, y3);
            lemma_addr(
                dst.ip,
                dst.port,
                d.ip,
                d.port,
                ",\"chan_seq\":"@ + x4,
                ",\"chan_seq\":"@ + y4,
            );
            lemma_behind(",\"chan_seq\":"@, x4, y4);
            lemma_comma(send_vt, x6);
            lemma_comma(v, y6);
            lemma_number(chan_seq as nat, q as nat, x5, y5);
            lemma_send_vt(send_vt, v, x6, y6);
            lemma_string(payload, p, ",\"outcome\":"@ + x7, ",\"outcome\":"@ + y7);
            lemma_behind(",\"outcome\":"@, x7, y7);
            lemma_send_outcome(outcome, o, "}"@ + x, "}"@ + y);
            lemma_behind("}"@, x, y);
        },
        _ => {},
    }
}

proof fn lemma_comma(v: u64, x: Seq<char>)
    ensures
        ends_number(log::send_vt_json(v) + (",\"payload\":"@ + x)),
{
    reveal_strlit(",\"send_vt\":");
    reveal_strlit(",\"payload\":");
    let s = log::send_vt_json(v) + (",\"payload\":"@ + x);
    assert(s[0] == ',');
}

#[verifier::rlimit(30)]
#[verifier::spinoff_prover]
proof fn lemma_recv(e: EventView, f: EventView, x: Seq<char>, y: Seq<char>)
    requires
        e is Recv,
        f is Recv,
        log::event_json(e) + x == log::event_json(f) + y,
    ensures
        e == f,
        x == y,
{
    reveal_strlit(",\"blocking\":");
    match (e, f) {
        (
            EventView::Recv { conn, blocking, outcome },
            EventView::Recv { conn: c, blocking: b, outcome: o },
        ) => {
            let x3 = log::recv_outcome_json(outcome) + ("}"@ + x);
            let y3 = log::recv_outcome_json(o) + ("}"@ + y);
            let x2 = json::bool_json(blocking) + (",\"outcome\":"@ + x3);
            let y2 = json::bool_json(b) + (",\"outcome\":"@ + y3);
            let x1 = text::dec(conn as nat) + (",\"blocking\":"@ + x2);
            let y1 = text::dec(c as nat) + (",\"blocking\":"@ + y2);
            lemma_flat_recv(conn, blocking, outcome, x);
            lemma_flat_recv(c, b, o, y);
            lemma_behind("{\"k\":\"recv\",\"conn\":"@, x1, y1);
            lemma_number_then(conn as nat, c as nat, ",\"blocking\":"@, x2, y2);
            lemma_bool(blocking, b, ",\"outcome\":"@ + x3, ",\"outcome\":"@ + y3);
            lemma_behind(",\"outcome\":"@, x3, y3);
            lemma_recv_outcome(outcome, o, "}"@ + x, "}"@ + y);
            lemma_behind("}"@, x, y);
        },
        _ => {},
    }
}

#[verifier::rlimit(30)]
#[verifier::spinoff_prover]
proof fn lemma_other(e: EventView, f: EventView, x: Seq<char>, y: Seq<char>)
    requires
        log::event_json(e) + x == log::event_json(f) + y,
        e is Connect && f is Connect || e is Hello && f is Hello || e is Bind && f is Bind || e
            is Disconnect && f is Disconnect,
    ensures
        e == f,
        x == y,
{
    reveal_strlit("}");
    reveal_strlit(",\"node\":");
    reveal_strlit(",\"addr\":");
    match (e, f) {
        (EventView::Connect { conn }, EventView::Connect { conn: c }) => {
            let l = "{\"k\":\"connect\",\"conn\":"@;
            let x1 = text::dec(conn as nat) + ("}"@ + x);
            let y1 = text::dec(c as nat) + ("}"@ + y);
            lemma_four(l, text::dec(conn as nat), "}"@, x);
            lemma_four(l, text::dec(c as nat), "}"@, y);
            lemma_behind(l, x1, y1);
            lemma_number_then(conn as nat, c as nat, "}"@, x, y);
        },
        (EventView::Disconnect { conn }, EventView::Disconnect { conn: c }) => {
            let l = "{\"k\":\"disconnect\",\"conn\":"@;
            let x1 = text::dec(conn as nat) + ("}"@ + x);
            let y1 = text::dec(c as nat) + ("}"@ + y);
            lemma_four(l, text::dec(conn as nat), "}"@, x);
            lemma_four(l, text::dec(c as nat), "}"@, y);
            lemma_behind(l, x1, y1);
            lemma_number_then(conn as nat, c as nat, "}"@, x, y);
        },
        (EventView::Hello { conn, node }, EventView::Hello { conn: c, node: n }) => {
            let l = "{\"k\":\"hello\",\"conn\":"@;
            let x2 = text::dec(node as nat) + ("}"@ + x);
            let y2 = text::dec(n as nat) + ("}"@ + y);
            let x1 = text::dec(conn as nat) + (",\"node\":"@ + x2);
            let y1 = text::dec(c as nat) + (",\"node\":"@ + y2);
            lemma_six(l, text::dec(conn as nat), ",\"node\":"@, text::dec(node as nat), "}"@, x);
            lemma_six(l, text::dec(c as nat), ",\"node\":"@, text::dec(n as nat), "}"@, y);
            lemma_behind(l, x1, y1);
            lemma_number_then(conn as nat, c as nat, ",\"node\":"@, x2, y2);
            lemma_number_then(node as nat, n as nat, "}"@, x, y);
        },
        (EventView::Bind { conn, addr }, EventView::Bind { conn: c, addr: a }) => {
            let l = "{\"k\":\"bind\",\"conn\":"@;
            let x2 = json::addr_json(addr.ip, addr.port) + ("}"@ + x);
            let y2 = json::addr_json(a.ip, a.port) + ("}"@ + y);
            let x1 = text::dec(conn as nat) + (",\"addr\":"@ + x2);
            let y1 = text::dec(c as nat) + (",\"addr\":"@ + y2);
            lemma_six(
                l,
                text::dec(conn as nat),
                ",\"addr\":"@,
                json::addr_json(addr.ip, addr.port),
                "}"@,
                x,
            );
            lemma_six(
                l,
                text::dec(c as nat),
                ",\"addr\":"@,
                json::addr_json(a.ip, a.port),
                "}"@,
                y,
            );
            lemma_behind(l, x1, y1);
            lemma_number_then(conn as nat, c as nat, ",\"addr\":"@, x2, y2);
            lemma_addr(addr.ip, addr.port, a.ip, a.port, "}"@ + x, "}"@ + y);
            lemma_behind("}"@, x, y);
        },
        _ => {},
    }
}

#[verifier::rlimit(30)]
#[verifier::spinoff_prover]
proof fn lemma_mark(e: EventView, f: EventView, x: Seq<char>, y: Seq<char>)
    requires
        log::event_json(e) + x == log::event_json(f) + y,
        e is Violation && f is Violation || e is End && f is End,
    ensures
        e == f,
        x == y,
{
    reveal_strlit("}");
    reveal_strlit(",\"sent\":");
    reveal_strlit(",\"dropped\":");
    match (e, f) {
        (
            EventView::Violation { rule, message },
            EventView::Violation { rule: r, message: m },
        ) => {
            let l = "{\"k\":\"violation\",\"invariant\":"@;
            let x2 = json::string_json(message) + ("}"@ + x);
            let y2 = json::string_json(m) + ("}"@ + y);
            let x1 = json::string_json(rule) + (",\"message\":"@ + x2);
            let y1 = json::string_json(r) + (",\"message\":"@ + y2);
            lemma_six(
                l,
                json::string_json(rule),
                ",\"message\":"@,
                json::string_json(message),
                "}"@,
                x,
            );
            lemma_six(l, json::string_json(r), ",\"message\":"@, json::string_json(m), "}"@, y);
            lemma_behind(l, x1, y1);
            lemma_string(rule, r, ",\"message\":"@ + x2, ",\"message\":"@ + y2);
            lemma_behind(",\"message\":"@, x2, y2);
            lemma_string(message, m, "}"@ + x, "}"@ + y);
            lemma_behind("}"@, x, y);
        },
        (
            EventView::End { events, sent, dropped },
            EventView::End { events: n, sent: s, dropped: d },
        ) => {
            let l = "{\"k\":\"end\",\"events\":"@;
            let x3 = text::dec(dropped as nat) + ("}"@ + x);
            let y3 = text::dec(d as nat) + ("}"@ + y);
            let x2 = text::dec(sent as nat) + (",\"dropped\":"@ + x3);
            let y2 = text::dec(s as nat) + (",\"dropped\":"@ + y3);
            let x1 = text::dec(events as nat) + (",\"sent\":"@ + x2);
            let y1 = text::dec(n as nat) + (",\"sent\":"@ + y2);
            lemma_eight(
                l,
                text::dec(events as nat),
                ",\"sent\":"@,
                text::dec(sent as nat),
                ",\"dropped\":"@,
                text::dec(dropped as nat),
                "}"@,
                x,
            );
            lemma_eight(
                l,
                text::dec(n as nat),
                ",\"sent\":"@,
                text::dec(s as nat),
                ",\"dropped\":"@,
                text::dec(d as nat),
                "}"@,
                y,
            );
            lemma_behind(l, x1, y1);
            lemma_number_then(events as nat, n as nat, ",\"sent\":"@, x2, y2);
            lemma_number_then(sent as nat, s as nat, ",\"dropped\":"@, x3, y3);
            lemma_number_then(dropped as nat, d as nat, "}"@, x, y);
        },
        _ => {},
    }
}

/// The letter that tells the kinds of events apart.
spec fn letter(e: EventView) -> char {
    match e {
        EventView::Connect { .. } => 'c',
        EventView::Hello { .. } => 'h',
        EventView::Bind { .. } => 'b',
        EventView::Send { .. } => 's',
        EventView::Recv { .. } => 'r',
        EventView::Disconnect { .. } => 'd',
        EventView::Violation { .. } => 'v',
        EventView::End { .. } => 'e',
    }
}

proof fn lemma_letter(e: EventView)
    ensures
        log::event_json(e).len() > 6,
        log::event_json(e)[6] == letter(e),
{
    reveal_strlit("{\"k\":\"connect\",\"conn\":");
    reveal_strlit("{\"k\":\"hello\",\"conn\":");
    reveal_strlit("{\"k\":\"bind\",\"conn\":");
    reveal_strlit("{\"k\":\"send\",\"conn\":");
    reveal_strlit("{\"k\":\"recv\",\"conn\":");
    reveal_strlit("{\"k\":\"disconnect\",\"conn\":");
    reveal_strlit("{\"k\":\"violation\",\"invariant\":");
    reveal_strlit("{\"k\":\"end\",\"events\":");
}

proof fn lemma_event(e: EventView, f: EventView, x: Seq<char>, y: Seq<char>)
    requires
        log::event_json(e) + x == log::event_json(f) + y,
    ensures
        e == f,
        x == y,
{
    lemma_letter(e);
    lemma_letter(f);
    assert((log::event_json(e) + x)[6] == letter(e));
    assert((log::event_json(f) + y)[6] == letter(f));
    match e {
        EventView::Send { .. } => {
            lemma_send(e, f, x, y);
        },
        EventView::Recv { .. } => {
            lemma_recv(e, f, x, y);
        },
        EventView::Violation { .. } => {
            lemma_mark(e, f, x, y);
        },
        EventView::End { .. } => {
            lemma_mark(e, f, x, y);
        },
        _ => {
            lemma_other(e, f, x, y);
        },
    }
}

proof fn lemma_flat_canon(op: u64, vt: u64, e: EventView)
    ensures
        log::canon_text(op, vt, e) == "{\"op\":"@ + (text::dec(op as nat) + (",\"vt\":"@ + (
        text::dec(vt as nat) + (",\"e\":"@ + (log::event_json(e) + "}"@))))),
{
    let a = "{\"op\":"@;
    let b = text::dec(op as nat);
    let c = ",\"vt\":"@;
    let d = text::dec(vt as nat);
    let f = ",\"e\":"@;
    let g = log::event_json(e);
    lemma_three(a + b + c + d + f, g, "}"@);
    lemma_six(a, b, c, d, f, g + "}"@);
}

/// The canonical text tells records apart: the same text is of the same
/// position, time and event.
#[verifier::rlimit(30)]
#[verifier::spinoff_prover]
pub proof fn law_canonical_text_tells_apart(
    op: u64,
    vt: u64,
    e: EventView,
    op2: u64,
    vt2: u64,
    f: EventView,
)
    requires
        log::canon_text(op, vt, e) == log::canon_text(op2, vt2, f),
    ensures
        op == op2,
        vt == vt2,
        e == f,
{
    reveal_strlit(",\"vt\":");
    reveal_strlit(",\"e\":");
    let x3 = log::event_json(e) + "}"@;
    let y3 = log::event_json(f) + "}"@;
    let x2 = text::dec(vt as nat) + (",\"e\":"@ + x3);
    let y2 = text::dec(vt2 as nat) + (",\"e\":"@ + y3);
    let x1 = text::dec(op as nat) + (",\"vt\":"@ + x2);
    let y1 = text::dec(op2 as nat) + (",\"vt\":"@ + y2);
    lemma_flat_canon(op, vt, e);
    lemma_flat_canon(op2, vt2, f);
    lemma_behind("{\"op\":"@, x1, y1);
    lemma_number_then(op as nat, op2 as nat, ",\"vt\":"@, x2, y2);
    lemma_number_then(vt as nat, vt2 as nat, ",\"e\":"@, x3, y3);
    lemma_event(e, f, "}"@, "}"@);
}

} // verus!
