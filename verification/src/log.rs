//! The event log, format `weft-log` version 1: a header line, then one line
//! for each operation in the order in which the broker took them. Records
//! form an FNV-1a chain, so that truncation, reordering and edits show.

use vstd::prelude::*;
use vstd::string::StringSliceAdditionalSpecFns;
use vstd::utf8;

use crate::broker;
use crate::bytes::pack;
use crate::hash;
use crate::hash::{fnv1a, fnv1a_once, FNV_OFFSET};
use crate::json;
use crate::json::{hex16_text, push_addr_json, push_bool, push_num, push_string};
use crate::netcore::{copy_bytes, SendResult};
use crate::text;
use crate::text::{copy_text, push_dec, push_text, quoted, same_text};
use crate::wire;
use crate::wire::VAddr;

verus! {

/// The `format` field of every header.
pub const FORMAT: &'static str = "weft-log";

/// The format version.
pub const VERSION: u32 = 1;

/// A virtual network address, as the log holds it.
#[derive(Clone, Copy, PartialEq, Eq, Debug, Structural)]
pub struct Addr {
    pub ip: u32,
    pub port: u16,
}

pub open spec fn to_addr(a: VAddr) -> Addr {
    Addr { ip: a.ip, port: a.port }
}

pub open spec fn to_vaddr(a: Addr) -> VAddr {
    VAddr { ip: a.ip, port: a.port }
}

impl From<VAddr> for Addr {
    fn from(a: VAddr) -> (r: Self) {
        Addr { ip: a.ip, port: a.port }
    }
}

impl vstd::std_specs::convert::FromSpecImpl<VAddr> for Addr {
    open spec fn obeys_from_spec() -> bool {
        true
    }

    open spec fn from_spec(a: VAddr) -> Self {
        to_addr(a)
    }
}

impl From<Addr> for VAddr {
    fn from(a: Addr) -> (r: Self) {
        VAddr { ip: a.ip, port: a.port }
    }
}

impl vstd::std_specs::convert::FromSpecImpl<Addr> for VAddr {
    open spec fn obeys_from_spec() -> bool {
        true
    }

    open spec fn from_spec(a: Addr) -> Self {
        to_vaddr(a)
    }
}

impl Addr {
    /// The address as text, `a.b.c.d:port`.
    #[must_use]
    pub fn text(&self) -> (s: String)
        ensures
            s@ == wire::addr_text(self.ip, self.port),
    {
        VAddr { ip: self.ip, port: self.port }.text()
    }
}

/// The first line of a log. Nothing in `meta` influences a replay.
#[derive(Clone, PartialEq, Debug)]
pub struct Header {
    pub format: String,
    pub version: u32,
    /// The run seed.
    pub seed: u64,
    /// The network-condition text that the broker was given.
    pub net: String,
    /// The window width of a windowed run, else 0.
    pub window_ns: u64,
    pub meta: Meta,
}

/// Facts about the recording that a replay ignores.
#[derive(Clone, PartialEq, Debug)]
pub struct Meta {
    /// Milliseconds since the epoch when the recording started.
    pub recorded_unix_ms: Option<u64>,
    /// The version that made the log.
    pub weft_version: Option<String>,
    /// A free label.
    pub label: Option<String>,
}

pub struct HeaderView {
    pub format: Seq<char>,
    pub version: u32,
    pub seed: u64,
    pub net: Seq<char>,
    pub window_ns: u64,
    pub meta: MetaView,
}

pub struct MetaView {
    pub recorded_unix_ms: Option<u64>,
    pub weft_version: Option<Seq<char>>,
    pub label: Option<Seq<char>>,
}

impl View for Meta {
    type V = MetaView;

    open spec fn view(&self) -> MetaView {
        MetaView {
            recorded_unix_ms: self.recorded_unix_ms,
            weft_version: broker::text_view(self.weft_version),
            label: broker::text_view(self.label),
        }
    }
}

impl View for Header {
    type V = HeaderView;

    open spec fn view(&self) -> HeaderView {
        HeaderView {
            format: self.format@,
            version: self.version,
            seed: self.seed,
            net: self.net@,
            window_ns: self.window_ns,
            meta: self.meta@,
        }
    }
}

impl Default for Meta {
    fn default() -> (r: Self)
        ensures
            r@ == (MetaView { recorded_unix_ms: None, weft_version: None, label: None }),
    {
        Meta { recorded_unix_ms: None, weft_version: None, label: None }
    }
}

/// What the broker decided for one send.
#[derive(Clone, Copy, PartialEq, Eq, Debug, Structural)]
pub enum SendOutcome {
    /// The fault model dropped it.
    Dropped,
    /// No connection had bound the destination.
    NoReceiver,
    /// Scheduled for the destination connection.
    Enqueued { to_conn: u64, deliv_ns: u64, tie: u64 },
}

pub open spec fn outcome_of(r: SendResult) -> SendOutcome {
    match r {
        SendResult::Dropped => SendOutcome::Dropped,
        SendResult::NoReceiver => SendOutcome::NoReceiver,
        SendResult::Enqueued { to_conn, deliv_ns, tie } => SendOutcome::Enqueued {
            to_conn,
            deliv_ns,
            tie,
        },
    }
}

/// The core's decision as the log holds it.
#[must_use]
pub fn send_outcome(r: SendResult) -> (o: SendOutcome)
    ensures
        o == outcome_of(r),
{
    match r {
        SendResult::Dropped => SendOutcome::Dropped,
        SendResult::NoReceiver => SendOutcome::NoReceiver,
        SendResult::Enqueued { to_conn, deliv_ns, tie } => SendOutcome::Enqueued {
            to_conn,
            deliv_ns,
            tie,
        },
    }
}

/// What one receive returned; the payload is in hexadecimal.
#[derive(Clone, PartialEq, Eq, Debug)]
pub enum RecvOutcome {
    Empty,
    Delivered { src: Addr, dst: Addr, deliv_ns: u64, tie: u64, payload: String },
}

pub enum RecvOutcomeView {
    Empty,
    Delivered { src: Addr, dst: Addr, deliv_ns: u64, tie: u64, payload: Seq<char> },
}

impl View for RecvOutcome {
    type V = RecvOutcomeView;

    open spec fn view(&self) -> RecvOutcomeView {
        match *self {
            RecvOutcome::Empty => RecvOutcomeView::Empty,
            RecvOutcome::Delivered { src, dst, deliv_ns, tie, payload } =>
                RecvOutcomeView::Delivered { src, dst, deliv_ns, tie, payload: payload@ },
        }
    }
}

/// One operation of the broker, with its outcome.
#[allow(inconsistent_fields)]
#[derive(Clone, PartialEq, Debug)]
pub enum Event {
    /// A connection was accepted.
    Connect { conn: u64 },
    /// The connection named its node.
    Hello { conn: u64, node: u32 },
    /// The connection claimed a receive address.
    Bind { conn: u64, addr: Addr },
    /// A datagram was submitted; the payload is in hexadecimal.
    Send {
        conn: u64,
        src: Addr,
        dst: Addr,
        /// The datagram's number on its channel.
        chan_seq: u64,
        /// The time that the delivery was anchored to; 0 on a single host.
        send_vt: u64,
        payload: String,
        outcome: SendOutcome,
    },
    /// A receive completed.
    Recv { conn: u64, blocking: bool, outcome: RecvOutcome },
    /// The connection ended.
    Disconnect { conn: u64 },
    /// A monitor saw an invariant violated.
    Violation { rule: String, message: String },
    /// The last record, with totals.
    End { events: u64, sent: u64, dropped: u64 },
}

#[allow(inconsistent_fields)]
pub enum EventView {
    Connect { conn: u64 },
    Hello { conn: u64, node: u32 },
    Bind { conn: u64, addr: Addr },
    Send {
        conn: u64,
        src: Addr,
        dst: Addr,
        chan_seq: u64,
        send_vt: u64,
        payload: Seq<char>,
        outcome: SendOutcome,
    },
    Recv { conn: u64, blocking: bool, outcome: RecvOutcomeView },
    Disconnect { conn: u64 },
    Violation { rule: Seq<char>, message: Seq<char> },
    End { events: u64, sent: u64, dropped: u64 },
}

impl View for Event {
    type V = EventView;

    open spec fn view(&self) -> EventView {
        match *self {
            Event::Connect { conn } => EventView::Connect { conn },
            Event::Hello { conn, node } => EventView::Hello { conn, node },
            Event::Bind { conn, addr } => EventView::Bind { conn, addr },
            Event::Send { conn, src, dst, chan_seq, send_vt, payload, outcome } =>
                EventView::Send {
                conn,
                src,
                dst,
                chan_seq,
                send_vt,
                payload: payload@,
                outcome,
            },
            Event::Recv { conn, blocking, outcome } => EventView::Recv {
                conn,
                blocking,
                outcome: outcome@,
            },
            Event::Disconnect { conn } => EventView::Disconnect { conn },
            Event::Violation { rule, message } => EventView::Violation {
                rule: rule@,
                message: message@,
            },
            Event::End { events, sent, dropped } => EventView::End { events, sent, dropped },
        }
    }
}

impl RecvOutcome {
    /// A copy.
    pub fn copy(&self) -> (r: Self)
        ensures
            r@ == self@,
    {
        match self {
            RecvOutcome::Empty => RecvOutcome::Empty,
            RecvOutcome::Delivered { src, dst, deliv_ns, tie, payload } => RecvOutcome::Delivered {
                src: *src,
                dst: *dst,
                deliv_ns: *deliv_ns,
                tie: *tie,
                payload: copy_text(payload.as_str()),
            },
        }
    }

    /// Whether two outcomes say the same.
    pub fn same(&self, other: &Self) -> (b: bool)
        ensures
            b == (self@ == other@),
    {
        match (self, other) {
            (RecvOutcome::Empty, RecvOutcome::Empty) => true,
            (
                RecvOutcome::Delivered { src, dst, deliv_ns, tie, payload },
                RecvOutcome::Delivered {
                    src: src2,
                    dst: dst2,
                    deliv_ns: deliv_ns2,
                    tie: tie2,
                    payload: payload2,
                },
            ) => *src == *src2 && *dst == *dst2 && *deliv_ns == *deliv_ns2 && *tie == *tie2
                && same_text(payload.as_str(), payload2.as_str()),
            _ => false,
        }
    }
}

impl Event {
    /// A copy.
    pub fn copy(&self) -> (r: Self)
        ensures
            r@ == self@,
    {
        match self {
            Event::Connect { conn } => Event::Connect { conn: *conn },
            Event::Hello { conn, node } => Event::Hello { conn: *conn, node: *node },
            Event::Bind { conn, addr } => Event::Bind { conn: *conn, addr: *addr },
            Event::Send { conn, src, dst, chan_seq, send_vt, payload, outcome } => Event::Send {
                conn: *conn,
                src: *src,
                dst: *dst,
                chan_seq: *chan_seq,
                send_vt: *send_vt,
                payload: copy_text(payload.as_str()),
                outcome: *outcome,
            },
            Event::Recv { conn, blocking, outcome } => Event::Recv {
                conn: *conn,
                blocking: *blocking,
                outcome: outcome.copy(),
            },
            Event::Disconnect { conn } => Event::Disconnect { conn: *conn },
            Event::Violation { rule, message } => Event::Violation {
                rule: copy_text(rule.as_str()),
                message: copy_text(message.as_str()),
            },
            Event::End { events, sent, dropped } => Event::End {
                events: *events,
                sent: *sent,
                dropped: *dropped,
            },
        }
    }

    /// Whether two events say the same.
    pub fn same(&self, other: &Self) -> (b: bool)
        ensures
            b == (self@ == other@),
    {
        match (self, other) {
            (Event::Connect { conn: a }, Event::Connect { conn: b }) => *a == *b,
            (Event::Hello { conn: a, node: m }, Event::Hello { conn: b, node: n }) => *a == *b && *m
                == *n,
            (Event::Bind { conn: a, addr: m }, Event::Bind { conn: b, addr: n }) => *a == *b && *m
                == *n,
            (
                Event::Send { conn, src, dst, chan_seq, send_vt, payload, outcome },
                Event::Send {
                    conn: conn2,
                    src: src2,
                    dst: dst2,
                    chan_seq: chan_seq2,
                    send_vt: send_vt2,
                    payload: payload2,
                    outcome: outcome2,
                },
            ) => *conn == *conn2 && *src == *src2 && *dst == *dst2 && *chan_seq == *chan_seq2
                && *send_vt == *send_vt2 && *outcome == *outcome2 && same_text(
                payload.as_str(),
                payload2.as_str(),
            ),
            (
                Event::Recv { conn: a, blocking: p, outcome: m },
                Event::Recv { conn: b, blocking: q, outcome: n },
            ) => *a == *b && *p == *q && m.same(n),
            (Event::Disconnect { conn: a }, Event::Disconnect { conn: b }) => *a == *b,
            (
                Event::Violation { rule: a, message: m },
                Event::Violation { rule: b, message: n },
            ) => same_text(a.as_str(), b.as_str()) && same_text(m.as_str(), n.as_str()),
            (
                Event::End { events: a, sent: m, dropped: x },
                Event::End { events: b, sent: n, dropped: y },
            ) => *a == *b && *m == *n && *x == *y,
            _ => false,
        }
    }
}

/// One line behind the header.
#[derive(Clone, PartialEq, Debug)]
pub struct Record {
    /// The position, from 0, without gaps.
    pub op: u64,
    /// The broker's virtual time behind the operation.
    pub vt: u64,
    pub e: Event,
    /// The chain value through this record, in hexadecimal.
    pub chain: String,
}

pub struct RecordView {
    pub op: u64,
    pub vt: u64,
    pub e: EventView,
    pub chain: Seq<char>,
}

impl View for Record {
    type V = RecordView;

    open spec fn view(&self) -> RecordView {
        RecordView { op: self.op, vt: self.vt, e: self.e@, chain: self.chain@ }
    }
}

pub open spec fn record_views(r: Seq<Record>) -> Seq<RecordView> {
    r.map_values(|x: Record| x@)
}

// ---------------------------------------------------------------------------
// JSON
// ---------------------------------------------------------------------------

pub open spec fn send_outcome_json(o: SendOutcome) -> Seq<char> {
    match o {
        SendOutcome::Dropped => "{\"kind\":\"dropped\"}"@,
        SendOutcome::NoReceiver => "{\"kind\":\"no_receiver\"}"@,
        SendOutcome::Enqueued { to_conn, deliv_ns, tie } => "{\"kind\":\"enqueued\",\"to_conn\":"@
            + text::dec(to_conn as nat) + ",\"deliv_ns\":"@ + text::dec(deliv_ns as nat)
            + ",\"tie\":"@ + text::dec(tie as nat) + "}"@,
    }
}

pub open spec fn recv_outcome_json(o: RecvOutcomeView) -> Seq<char> {
    match o {
        RecvOutcomeView::Empty => "{\"kind\":\"empty\"}"@,
        RecvOutcomeView::Delivered { src, dst, deliv_ns, tie, payload } =>
            "{\"kind\":\"delivered\",\"src\":"@ + json::addr_json(src.ip, src.port) + ",\"dst\":"@
            + json::addr_json(dst.ip, dst.port) + ",\"deliv_ns\":"@ + text::dec(deliv_ns as nat)
            + ",\"tie\":"@ + text::dec(tie as nat) + ",\"payload\":"@ + json::string_json(payload)
            + "}"@,
    }
}

/// The anchor of a send; left out where it is 0.
pub open spec fn send_vt_json(send_vt: u64) -> Seq<char> {
    if send_vt == 0 {
        Seq::empty()
    } else {
        ",\"send_vt\":"@ + text::dec(send_vt as nat)
    }
}

/// An event as JSON; the order of the fields is fixed.
pub open spec fn event_json(e: EventView) -> Seq<char> {
    match e {
        EventView::Connect { conn } => "{\"k\":\"connect\",\"conn\":"@ + text::dec(conn as nat)
            + "}"@,
        EventView::Hello { conn, node } => "{\"k\":\"hello\",\"conn\":"@ + text::dec(conn as nat)
            + ",\"node\":"@ + text::dec(node as nat) + "}"@,
        EventView::Bind { conn, addr } => "{\"k\":\"bind\",\"conn\":"@ + text::dec(conn as nat)
            + ",\"addr\":"@ + json::addr_json(addr.ip, addr.port) + "}"@,
        EventView::Send { conn, src, dst, chan_seq, send_vt, payload, outcome } =>
            "{\"k\":\"send\",\"conn\":"@ + text::dec(conn as nat) + ",\"src\":"@ + json::addr_json(
            src.ip,
            src.port,
        ) + ",\"dst\":"@ + json::addr_json(dst.ip, dst.port) + ",\"chan_seq\":"@ + text::dec(
            chan_seq as nat,
        ) + send_vt_json(send_vt) + ",\"payload\":"@ + json::string_json(payload)
            + ",\"outcome\":"@ + send_outcome_json(outcome) + "}"@,
        EventView::Recv { conn, blocking, outcome } => "{\"k\":\"recv\",\"conn\":"@ + text::dec(
            conn as nat,
        ) + ",\"blocking\":"@ + json::bool_json(blocking) + ",\"outcome\":"@ + recv_outcome_json(
            outcome,
        ) + "}"@,
        EventView::Disconnect { conn } => "{\"k\":\"disconnect\",\"conn\":"@ + text::dec(
            conn as nat,
        ) + "}"@,
        EventView::Violation { rule, message } => "{\"k\":\"violation\",\"invariant\":"@
            + json::string_json(rule) + ",\"message\":"@ + json::string_json(message) + "}"@,
        EventView::End { events, sent, dropped } => "{\"k\":\"end\",\"events\":"@ + text::dec(
            events as nat,
        ) + ",\"sent\":"@ + text::dec(sent as nat) + ",\"dropped\":"@ + text::dec(dropped as nat)
            + "}"@,
    }
}

/// The part of a record that the chain and the digest cover, up to and
/// without its closing brace.
pub open spec fn canon_open(op: u64, vt: u64, e: EventView) -> Seq<char> {
    "{\"op\":"@ + text::dec(op as nat) + ",\"vt\":"@ + text::dec(vt as nat) + ",\"e\":"@
        + event_json(e)
}

/// The canonical text of what a replay reproduces of a record.
pub open spec fn canon_text(op: u64, vt: u64, e: EventView) -> Seq<char> {
    canon_open(op, vt, e) + "}"@
}

/// A record as a line.
pub open spec fn record_json(r: RecordView) -> Seq<char> {
    canon_open(r.op, r.vt, r.e) + ",\"chain\":"@ + json::string_json(r.chain) + "}"@
}

/// The separator before a field of `meta`.
pub open spec fn comma(first: bool) -> Seq<char> {
    if first {
        Seq::empty()
    } else {
        ","@
    }
}

pub open spec fn meta_json(m: MetaView) -> Seq<char> {
    let a = match m.recorded_unix_ms {
        Some(ms) => "\"recorded_unix_ms\":"@ + text::dec(ms as nat),
        None => Seq::empty(),
    };
    let b = match m.weft_version {
        Some(v) => comma(m.recorded_unix_ms is None) + "\"weft_version\":"@ + json::string_json(v),
        None => Seq::empty(),
    };
    let c = match m.label {
        Some(v) => comma(m.recorded_unix_ms is None && m.weft_version is None) + "\"label\":"@
            + json::string_json(v),
        None => Seq::empty(),
    };
    "{"@ + a + b + c + "}"@
}

/// The window width; left out where it is 0.
pub open spec fn window_json(window_ns: u64) -> Seq<char> {
    if window_ns == 0 {
        Seq::empty()
    } else {
        ",\"window_ns\":"@ + text::dec(window_ns as nat)
    }
}

/// A header as a line.
pub open spec fn header_json(h: HeaderView) -> Seq<char> {
    "{\"format\":"@ + json::string_json(h.format) + ",\"version\":"@ + text::dec(h.version as nat)
        + ",\"seed\":"@ + text::dec(h.seed as nat) + ",\"net\":"@ + json::string_json(h.net)
        + window_json(h.window_ns) + ",\"meta\":"@ + meta_json(h.meta) + "}"@
}

fn push_send_outcome(out: &mut String, o: &SendOutcome)
    ensures
        final(out)@ == old(out)@ + send_outcome_json(*o),
{
    match o {
        SendOutcome::Dropped => {
            push_text(out, "{\"kind\":\"dropped\"}");
        },
        SendOutcome::NoReceiver => {
            push_text(out, "{\"kind\":\"no_receiver\"}");
        },
        SendOutcome::Enqueued { to_conn, deliv_ns, tie } => {
            push_num(out, "{\"kind\":\"enqueued\",\"to_conn\":", *to_conn);
            push_num(out, ",\"deliv_ns\":", *deliv_ns);
            push_num(out, ",\"tie\":", *tie);
            push_text(out, "}");
        },
    }
    assert(out@ =~= old(out)@ + send_outcome_json(*o));
}

fn push_recv_outcome(out: &mut String, o: &RecvOutcome)
    ensures
        final(out)@ == old(out)@ + recv_outcome_json(o@),
{
    match o {
        RecvOutcome::Empty => {
            push_text(out, "{\"kind\":\"empty\"}");
        },
        RecvOutcome::Delivered { src, dst, deliv_ns, tie, payload } => {
            push_text(out, "{\"kind\":\"delivered\",\"src\":");
            push_addr_json(out, src.ip, src.port);
            push_text(out, ",\"dst\":");
            push_addr_json(out, dst.ip, dst.port);
            push_num(out, ",\"deliv_ns\":", *deliv_ns);
            push_num(out, ",\"tie\":", *tie);
            push_text(out, ",\"payload\":");
            push_string(out, payload.as_str());
            push_text(out, "}");
        },
    }
    assert(out@ =~= old(out)@ + recv_outcome_json(o@));
}

fn push_send_json(
    out: &mut String,
    conn: u64,
    src: Addr,
    dst: Addr,
    chan_seq: u64,
    send_vt: u64,
    payload: &String,
    outcome: &SendOutcome,
)
    ensures
        final(out)@ == old(out)@ + event_json(
            EventView::Send {
                conn,
                src,
                dst,
                chan_seq,
                send_vt,
                payload: payload@,
                outcome: *outcome,
            },
        ),
{
    let mut s = copy_text("{\"k\":\"send\",\"conn\":");
    push_dec(&mut s, conn);
    push_text(&mut s, ",\"src\":");
    push_addr_json(&mut s, src.ip, src.port);
    push_text(&mut s, ",\"dst\":");
    push_addr_json(&mut s, dst.ip, dst.port);
    push_num(&mut s, ",\"chan_seq\":", chan_seq);
    push_text(&mut s, send_vt_text(send_vt).as_str());
    push_text(&mut s, ",\"payload\":");
    push_string(&mut s, payload.as_str());
    push_text(&mut s, ",\"outcome\":");
    push_send_outcome(&mut s, outcome);
    push_text(&mut s, "}");
    push_text(out, s.as_str());
}

fn send_vt_text(send_vt: u64) -> (s: String)
    ensures
        s@ == send_vt_json(send_vt),
{
    let mut s = String::new();
    assert(s@ =~= Seq::<char>::empty());
    if send_vt != 0 {
        s = copy_text(",\"send_vt\":");
        push_dec(&mut s, send_vt);
    }
    s
}

/// Append an event as JSON.
fn push_event(out: &mut String, e: &Event)
    ensures
        final(out)@ == old(out)@ + event_json(e@),
{
    match e {
        Event::Connect { conn } => {
            push_num(out, "{\"k\":\"connect\",\"conn\":", *conn);
            push_text(out, "}");
        },
        Event::Hello { conn, node } => {
            push_num(out, "{\"k\":\"hello\",\"conn\":", *conn);
            push_num(out, ",\"node\":", *node as u64);
            push_text(out, "}");
        },
        Event::Bind { conn, addr } => {
            push_num(out, "{\"k\":\"bind\",\"conn\":", *conn);
            push_text(out, ",\"addr\":");
            push_addr_json(out, addr.ip, addr.port);
            push_text(out, "}");
        },
        Event::Send { conn, src, dst, chan_seq, send_vt, payload, outcome } => {
            push_send_json(out, *conn, *src, *dst, *chan_seq, *send_vt, payload, outcome);
        },
        Event::Recv { conn, blocking, outcome } => {
            push_num(out, "{\"k\":\"recv\",\"conn\":", *conn);
            push_text(out, ",\"blocking\":");
            push_bool(out, *blocking);
            push_text(out, ",\"outcome\":");
            push_recv_outcome(out, outcome);
            push_text(out, "}");
        },
        Event::Disconnect { conn } => {
            push_num(out, "{\"k\":\"disconnect\",\"conn\":", *conn);
            push_text(out, "}");
        },
        Event::Violation { rule, message } => {
            push_text(out, "{\"k\":\"violation\",\"invariant\":");
            push_string(out, rule.as_str());
            push_text(out, ",\"message\":");
            push_string(out, message.as_str());
            push_text(out, "}");
        },
        Event::End { events, sent, dropped } => {
            push_num(out, "{\"k\":\"end\",\"events\":", *events);
            push_num(out, ",\"sent\":", *sent);
            push_num(out, ",\"dropped\":", *dropped);
            push_text(out, "}");
        },
    }
    assert(out@ =~= old(out)@ + event_json(e@));
}

fn canon_start(op: u64, vt: u64, e: &Event) -> (s: String)
    ensures
        s@ == canon_open(op, vt, e@),
{
    let mut s = String::new();
    push_num(&mut s, "{\"op\":", op);
    push_num(&mut s, ",\"vt\":", vt);
    push_text(&mut s, ",\"e\":");
    push_event(&mut s, e);
    assert(s@ =~= canon_open(op, vt, e@));
    s
}

/// The canonical text of what a replay reproduces of a record: what the chain
/// and the stream digest cover.
pub fn canon(op: u64, vt: u64, e: &Event) -> (s: String)
    ensures
        s@ == canon_text(op, vt, e@),
{
    let mut s = canon_start(op, vt, e);
    push_text(&mut s, "}");
    s
}

/// The hash of a text, continued from `state`.
pub open spec fn text_hash(state: u64, s: Seq<char>) -> u64 {
    hash::fnv(state, utf8::encode_utf8(s))
}

/// The hash of a text, continued from `state`.
pub fn hash_text(state: u64, s: &str) -> (h: u64)
    ensures
        h == text_hash(state, s@),
{
    fnv1a(state, s.as_bytes())
}

/// The chain value behind one more record.
pub open spec fn chained(prev: u64, op: u64, vt: u64, e: EventView) -> u64 {
    text_hash(prev, canon_text(op, vt, e))
}

fn chain_step(prev: u64, op: u64, vt: u64, e: &Event) -> (h: u64)
    ensures
        h == chained(prev, op, vt, e@),
{
    hash_text(prev, canon(op, vt, e).as_str())
}

/// Append a header as JSON.
fn header_line(h: &Header) -> (s: String)
    ensures
        s@ == header_json(h@),
{
    let mut s = copy_text("{\"format\":");
    push_string(&mut s, h.format.as_str());
    push_text(&mut s, ",\"version\":");
    push_dec(&mut s, h.version as u64);
    push_text(&mut s, ",\"seed\":");
    push_dec(&mut s, h.seed);
    push_text(&mut s, ",\"net\":");
    push_string(&mut s, h.net.as_str());
    push_text(&mut s, window_text(h.window_ns).as_str());
    push_text(&mut s, ",\"meta\":");
    push_text(&mut s, meta_text(&h.meta).as_str());
    push_text(&mut s, "}");
    s
}

fn window_text(window_ns: u64) -> (s: String)
    ensures
        s@ == window_json(window_ns),
{
    let mut s = String::new();
    assert(s@ =~= Seq::<char>::empty());
    if window_ns != 0 {
        s = copy_text(",\"window_ns\":");
        push_dec(&mut s, window_ns);
    }
    s
}

/// A field that holds text, behind a comma where it is not the first.
fn field_text(first: bool, name: &str, value: &str) -> (s: String)
    ensures
        s@ == comma(first) + name@ + json::string_json(value@),
{
    let mut s = if first {
        String::new()
    } else {
        copy_text(",")
    };
    assert(s@ =~= comma(first));
    push_text(&mut s, name);
    push_string(&mut s, value);
    s
}

fn meta_text(m: &Meta) -> (s: String)
    ensures
        s@ == meta_json(m@),
{
    let a = match m.recorded_unix_ms {
        Some(ms) => {
            let mut a = copy_text("\"recorded_unix_ms\":");
            push_dec(&mut a, ms);
            a
        },
        None => String::new(),
    };
    let b = match &m.weft_version {
        Some(v) => field_text(m.recorded_unix_ms.is_none(), "\"weft_version\":", v.as_str()),
        None => String::new(),
    };
    let c = match &m.label {
        Some(v) => field_text(
            m.recorded_unix_ms.is_none() && m.weft_version.is_none(),
            "\"label\":",
            v.as_str(),
        ),
        None => String::new(),
    };
    let mut s = copy_text("{");
    push_text(&mut s, a.as_str());
    push_text(&mut s, b.as_str());
    push_text(&mut s, c.as_str());
    push_text(&mut s, "}");
    proof {
        if m.recorded_unix_ms is None {
            assert(a@ =~= Seq::<char>::empty());
        }
        if m.weft_version is None {
            assert(b@ =~= Seq::<char>::empty());
        }
        if m.label is None {
            assert(c@ =~= Seq::<char>::empty());
        }
    }
    s
}

// ---------------------------------------------------------------------------
// Errors
// ---------------------------------------------------------------------------

/// Why a log cannot be read.
#[derive(Debug, Clone, PartialEq)]
pub enum LogError {
    Io(String),
    /// The number of the line, from 1, and a description.
    Malformed(usize, String),
    WrongFormat(String),
    UnsupportedVersion(u32),
    /// The chain does not fit at this record: the log was cut or edited.
    ChainBroken { op: u64 },
    /// The positions have a gap or go back.
    BadOpOrder { expected: u64, got: u64 },
}

pub enum LogErrorView {
    Io(Seq<char>),
    Malformed(nat, Seq<char>),
    WrongFormat(Seq<char>),
    UnsupportedVersion(u32),
    ChainBroken { op: u64 },
    BadOpOrder { expected: u64, got: u64 },
}

impl View for LogError {
    type V = LogErrorView;

    open spec fn view(&self) -> LogErrorView {
        match *self {
            LogError::Io(e) => LogErrorView::Io(e@),
            LogError::Malformed(n, e) => LogErrorView::Malformed(n as nat, e@),
            LogError::WrongFormat(f) => LogErrorView::WrongFormat(f@),
            LogError::UnsupportedVersion(v) => LogErrorView::UnsupportedVersion(v),
            LogError::ChainBroken { op } => LogErrorView::ChainBroken { op },
            LogError::BadOpOrder { expected, got } => LogErrorView::BadOpOrder { expected, got },
        }
    }
}

/// The message for a reader.
pub open spec fn log_error_text(e: LogErrorView) -> Seq<char> {
    match e {
        LogErrorView::Io(why) => "I/O error: "@ + why,
        LogErrorView::Malformed(line, why) => "line "@ + text::dec(line) + ": malformed record: "@
            + why,
        LogErrorView::WrongFormat(got) => "not a weft-log file (format="@ + text::debug_form(got)
            + ")"@,
        LogErrorView::UnsupportedVersion(v) => "unsupported weft-log version "@ + text::dec(
            v as nat,
        ) + " (this reader supports "@ + text::dec(VERSION as nat) + ")"@,
        LogErrorView::ChainBroken { op } => "integrity chain broken at op "@ + text::dec(op as nat)
            + ": log truncated or edited"@,
        LogErrorView::BadOpOrder { expected, got } => "op sequence broken: expected "@ + text::dec(
            expected as nat,
        ) + ", got "@ + text::dec(got as nat),
    }
}

impl LogError {
    /// The message for a reader.
    #[must_use]
    pub fn text(&self) -> (s: String)
        ensures
            s@ == log_error_text(self@),
    {
        let mut s = String::new();
        match self {
            LogError::Io(why) => {
                push_text(&mut s, "I/O error: ");
                push_text(&mut s, why.as_str());
            },
            LogError::Malformed(line, why) => {
                push_num(&mut s, "line ", *line as u64);
                push_text(&mut s, ": malformed record: ");
                push_text(&mut s, why.as_str());
            },
            LogError::WrongFormat(got) => {
                push_text(&mut s, "not a weft-log file (format=");
                let q = quoted(got.as_str());
                push_text(&mut s, q.as_str());
                push_text(&mut s, ")");
            },
            LogError::UnsupportedVersion(v) => {
                push_num(&mut s, "unsupported weft-log version ", *v as u64);
                push_num(&mut s, " (this reader supports ", VERSION as u64);
                push_text(&mut s, ")");
            },
            LogError::ChainBroken { op } => {
                push_num(&mut s, "integrity chain broken at op ", *op);
                push_text(&mut s, ": log truncated or edited");
            },
            LogError::BadOpOrder { expected, got } => {
                push_num(&mut s, "op sequence broken: expected ", *expected);
                push_num(&mut s, ", got ", *got);
            },
        }
        assert(s@ =~= log_error_text(self@));
        s
    }
}

// ---------------------------------------------------------------------------
// Writing
// ---------------------------------------------------------------------------

/// The mathematical state of a writer.
pub struct WriterModel {
    /// The text written and not yet taken.
    pub out: Seq<char>,
    pub chain: u64,
    pub next_op: u64,
    pub sent: u64,
    pub dropped: u64,
}

pub open spec fn writer_new(h: HeaderView) -> WriterModel {
    WriterModel {
        out: header_json(h).push('\n'),
        chain: text_hash(FNV_OFFSET, header_json(h)),
        next_op: 0,
        sent: 0,
        dropped: 0,
    }
}

/// The record that the next append writes.
pub open spec fn next_record(w: WriterModel, vt: u64, e: EventView) -> RecordView {
    RecordView {
        op: w.next_op,
        vt,
        e,
        chain: json::hex16(chained(w.chain, w.next_op, vt, e)),
    }
}

pub open spec fn is_send(e: EventView) -> bool {
    e is Send
}

pub open spec fn is_dropped(e: EventView) -> bool {
    e is Send && e->Send_outcome == SendOutcome::Dropped
}

pub open spec fn writer_append(w: WriterModel, vt: u64, e: EventView) -> WriterModel {
    WriterModel {
        out: w.out + record_json(next_record(w, vt, e)).push('\n'),
        chain: chained(w.chain, w.next_op, vt, e),
        next_op: (w.next_op + 1) as u64,
        sent: if is_send(e) {
            (w.sent + 1) as u64
        } else {
            w.sent
        },
        dropped: if is_dropped(e) {
            (w.dropped + 1) as u64
        } else {
            w.dropped
        },
    }
}

/// The totals that end a log.
pub open spec fn end_event(w: WriterModel) -> EventView {
    EventView::End { events: (w.next_op + 1) as u64, sent: w.sent, dropped: w.dropped }
}

/// A writer of log text. What it has written is taken out, line by line or
/// all at once, by [`LogWriter::take_text`].
pub struct LogWriter {
    out: String,
    chain: u64,
    next_op: u64,
    sent: u64,
    dropped: u64,
}

impl View for LogWriter {
    type V = WriterModel;

    closed spec fn view(&self) -> WriterModel {
        WriterModel {
            out: self.out@,
            chain: self.chain,
            next_op: self.next_op,
            sent: self.sent,
            dropped: self.dropped,
        }
    }
}

impl LogWriter {
    pub closed spec fn wf(&self) -> bool {
        self.dropped <= self.sent && self.sent <= self.next_op
    }

    /// Write the header and start the chain.
    #[must_use]
    pub fn new(header: &Header) -> (w: Self)
        ensures
            w.wf(),
            w@ == writer_new(header@),
    {
        let mut out = header_line(header);
        let chain: u64 = fnv1a_once(out.as_str().as_bytes());
        out.push('\n');
        LogWriter { out, chain, next_op: 0, sent: 0, dropped: 0 }
    }

    /// Append one event at virtual time `vt`; answers its position.
    pub fn append(&mut self, vt: u64, e: Event) -> (op: u64)
        requires
            old(self).wf(),
            old(self)@.next_op < u64::MAX,
        ensures
            final(self).wf(),
            op == old(self)@.next_op,
            final(self)@ == writer_append(old(self)@, vt, e@),
    {
        match &e {
            Event::Send { outcome, .. } => {
                self.sent = self.sent + 1;
                if *outcome == SendOutcome::Dropped {
                    self.dropped = self.dropped + 1;
                }
            },
            _ => {},
        }
        let op: u64 = self.next_op;
        self.next_op = self.next_op + 1;
        self.chain = chain_step(self.chain, op, vt, &e);
        let chain = hex16_text(self.chain);
        let mut line = canon_start(op, vt, &e);
        push_text(&mut line, ",\"chain\":");
        push_string(&mut line, chain.as_str());
        push_text(&mut line, "}");
        line.push('\n');
        push_text(&mut self.out, line.as_str());
        assert(line@ =~= record_json(next_record(old(self)@, vt, e@)).push('\n'));
        op
    }

    /// Write the last record, with the totals.
    pub fn finish(&mut self, vt: u64)
        requires
            old(self).wf(),
            old(self)@.next_op < u64::MAX,
        ensures
            final(self).wf(),
            final(self)@ == writer_append(old(self)@, vt, end_event(old(self)@)),
    {
        let e = Event::End { events: self.next_op + 1, sent: self.sent, dropped: self.dropped };
        let _op: u64 = self.append(vt, e);
    }

    /// Take out what was written since the last time.
    pub fn take_text(&mut self) -> (s: String)
        requires
            old(self).wf(),
        ensures
            final(self).wf(),
            s@ == old(self)@.out,
            final(self)@ == (WriterModel { out: Seq::empty(), ..old(self)@ }),
    {
        let mut s = String::new();
        std::mem::swap(&mut s, &mut self.out);
        s
    }

    /// The bytes of the log file: what was written and not taken, compressed
    /// where `gz` says so. Compressed or not, they unpack to the same text, as
    /// long as one that is not compressed does not start like one that is.
    #[must_use]
    pub fn finalize(&self, gz: bool) -> (b: Vec<u8>)
        ensures
            b@ == (if gz {
                crate::bytes::gzipped(utf8::encode_utf8(self@.out))
            } else {
                utf8::encode_utf8(self@.out)
            }),
            gz || !crate::bytes::is_gzip(utf8::encode_utf8(self@.out)) ==> crate::bytes::unpacked(
                b@,
            ) == Ok::<Seq<u8>, Seq<char>>(utf8::encode_utf8(self@.out)),
    {
        pack(copy_bytes(self.out.as_str().as_bytes()), gz)
    }

    /// What was written and not taken.
    #[must_use]
    pub fn text(&self) -> (s: &str)
        ensures
            s@ == self@.out,
    {
        self.out.as_str()
    }
}

// ---------------------------------------------------------------------------
// Reading
// ---------------------------------------------------------------------------

/// A log that was read and verified.
#[derive(Clone, Debug, PartialEq)]
pub struct Log {
    pub header: Header,
    pub records: Vec<Record>,
}

pub struct LogView {
    pub header: HeaderView,
    pub records: Seq<RecordView>,
}

impl View for Log {
    type V = LogView;

    open spec fn view(&self) -> LogView {
        LogView { header: self.header@, records: record_views(self.records@) }
    }
}

pub open spec fn header_result(h: Result<Header, String>) -> Result<HeaderView, Seq<char>> {
    match h {
        Ok(x) => Ok(x@),
        Err(e) => Err(e@),
    }
}

pub open spec fn record_result(r: Result<Record, String>) -> Result<RecordView, Seq<char>> {
    match r {
        Ok(x) => Ok(x@),
        Err(e) => Err(e@),
    }
}

pub open spec fn record_results(r: Seq<Result<Record, String>>) -> Seq<
    Result<RecordView, Seq<char>>,
> {
    r.map_values(|x: Result<Record, String>| record_result(x))
}

/// The chain value and the records behind the first `n` lines after the
/// header, or the first thing wrong with them. `parsed[i]` is what the line
/// `i + 1` reads as; an empty line is passed over.
pub open spec fn verified(
    lines: Seq<Seq<char>>,
    parsed: Seq<Result<RecordView, Seq<char>>>,
    n: int,
) -> Result<(u64, Seq<RecordView>), LogErrorView>
    decreases n,
{
    if n <= 0 {
        Ok((text_hash(FNV_OFFSET, lines[0]), Seq::empty()))
    } else {
        match verified(lines, parsed, n - 1) {
            Err(e) => Err(e),
            Ok((chain, records)) => if lines[n].len() == 0 {
                Ok((chain, records))
            } else {
                match parsed[n - 1] {
                    Err(why) => Err(LogErrorView::Malformed((n + 1) as nat, why)),
                    Ok(r) => {
                        let next = chained(chain, r.op, r.vt, r.e);
                        if r.op != records.len() {
                            Err(
                                LogErrorView::BadOpOrder {
                                    expected: records.len() as u64,
                                    got: r.op,
                                },
                            )
                        } else if r.chain != json::hex16(next) {
                            Err(LogErrorView::ChainBroken { op: r.op })
                        } else {
                            Ok((next, records.push(r)))
                        }
                    },
                }
            },
        }
    }
}

/// What reading a log gives: format and version of the header, the positions
/// and the chain of the records. `cut` is the error behind which no line could
/// be read any more, if there was one.
pub open spec fn log_of(
    lines: Seq<Seq<char>>,
    cut: Option<Seq<char>>,
    header: Result<HeaderView, Seq<char>>,
    parsed: Seq<Result<RecordView, Seq<char>>>,
) -> Result<LogView, LogErrorView> {
    if lines.len() == 0 {
        match cut {
            Some(e) => Err(LogErrorView::Io(e)),
            None => Err(LogErrorView::Malformed(1, "empty file"@)),
        }
    } else {
        match header {
            Err(why) => Err(LogErrorView::Malformed(1, why)),
            Ok(h) => if h.format != FORMAT@ {
                Err(LogErrorView::WrongFormat(h.format))
            } else if h.version != VERSION {
                Err(LogErrorView::UnsupportedVersion(h.version))
            } else {
                match verified(lines, parsed, lines.len() - 1) {
                    Err(e) => Err(e),
                    Ok((chain, records)) => match cut {
                        Some(e) => Err(LogErrorView::Io(e)),
                        None => Ok(LogView { header: h, records }),
                    },
                }
            },
        }
    }
}

proof fn lemma_verified_error(
    lines: Seq<Seq<char>>,
    parsed: Seq<Result<RecordView, Seq<char>>>,
    k: int,
    n: int,
)
    requires
        0 <= k <= n,
        verified(lines, parsed, k) is Err,
    ensures
        verified(lines, parsed, n) == verified(lines, parsed, k),
    decreases n,
{
    if k < n {
        lemma_verified_error(lines, parsed, k, n - 1);
    }
}

/// The hash of the first `n` records, without chain and header.
pub open spec fn digest_of(records: Seq<RecordView>, n: int) -> u64
    decreases n,
{
    if n <= 0 {
        FNV_OFFSET
    } else {
        let r = records[n - 1];
        text_hash(digest_of(records, n - 1), canon_text(r.op, r.vt, r.e))
    }
}

impl Log {
    /// Verify a log from its lines and what they read as: `header` for the
    /// first, `parsed[i]` for the line `i + 1`. `cut` is the error behind
    /// which no line could be read any more, if there was one.
    pub fn from_lines(
        lines: &Vec<String>,
        cut: Option<String>,
        header: Result<Header, String>,
        parsed: Vec<Result<Record, String>>,
    ) -> (r: Result<Log, LogError>)
        requires
            lines@.len() > 0 ==> parsed@.len() == lines@.len() - 1,
            lines@.len() < usize::MAX,
        ensures
            match r {
                Ok(log) => log_of(
                    crate::bytes::text_views(lines@),
                    broker::text_view(cut),
                    header_result(header),
                    record_results(parsed@),
                ) == Ok::<LogView, LogErrorView>(log@),
                Err(e) => log_of(
                    crate::bytes::text_views(lines@),
                    broker::text_view(cut),
                    header_result(header),
                    record_results(parsed@),
                ) == Err::<LogView, LogErrorView>(e@),
            },
    {
        if lines.len() == 0 {
            return match cut {
                Some(e) => Err(LogError::Io(e)),
                None => Err(LogError::Malformed(1, copy_text("empty file"))),
            };
        }
        let head: Header = match header {
            Ok(h) => h,
            Err(why) => {
                return Err(LogError::Malformed(1, why));
            },
        };
        if !same_text(head.format.as_str(), FORMAT) {
            return Err(LogError::WrongFormat(head.format));
        }
        if head.version != VERSION {
            return Err(LogError::UnsupportedVersion(head.version));
        }
        let ghost lv = crate::bytes::text_views(lines@);
        let ghost pv = record_results(parsed@);
        let ghost parsed0 = parsed@;
        let mut chain: u64 = fnv1a_once(lines[0].as_str().as_bytes());
        let mut records: Vec<Record> = Vec::new();
        let mut i: usize = 0;
        assert(record_views(records@) =~= Seq::<RecordView>::empty());
        assert(lv[0] == lines@[0]@);
        for item in it: parsed
            invariant
                it.seq() == parsed0,
                i == it.index(),
                parsed0.len() == lines@.len() - 1,
                lines@.len() < usize::MAX,
                lv == crate::bytes::text_views(lines@),
                pv == record_results(parsed0),
                records@.len() <= i,
                header_result(header) == Ok::<HeaderView, Seq<char>>(head@),
                head@.format == FORMAT@,
                head@.version == VERSION,
                parsed@ == parsed0,
                verified(lv, pv, i as int) == Ok::<(u64, Seq<RecordView>), LogErrorView>(
                    (chain, record_views(records@)),
                ),
        {
            let ghost n = i as int + 1;
            assert(lv[n] == lines@[n]@);
            assert(pv[n - 1] == record_result(item));
            assert(lv.len() - 1 == parsed0.len());
            i = i + 1;
            if !lines[i].as_str().is_empty() {
                let rec: Record = match item {
                    Ok(r) => r,
                    Err(why) => {
                        proof {
                            lemma_verified_error(lv, pv, n, lv.len() - 1);
                        }
                        return Err(LogError::Malformed(i + 1, why));
                    },
                };
                let expected: u64 = records.len() as u64;
                if rec.op != expected {
                    proof {
                        lemma_verified_error(lv, pv, n, lv.len() - 1);
                    }
                    return Err(LogError::BadOpOrder { expected, got: rec.op });
                }
                let next: u64 = chain_step(chain, rec.op, rec.vt, &rec.e);
                let want = hex16_text(next);
                if !same_text(rec.chain.as_str(), want.as_str()) {
                    proof {
                        lemma_verified_error(lv, pv, n, lv.len() - 1);
                    }
                    return Err(LogError::ChainBroken { op: rec.op });
                }
                chain = next;
                let ghost before = record_views(records@);
                let ghost rv = rec@;
                records.push(rec);
                assert(record_views(records@) =~= before.push(rv));
            }
        }
        match cut {
            Some(e) => Err(LogError::Io(e)),
            None => Ok(Log { header: head, records }),
        }
    }

    /// The hash of the stream of events: positions, times and events, without
    /// the chain and the header. Logs with equal digests describe the same
    /// execution, unless the hash collides.
    #[must_use]
    pub fn stream_digest(&self) -> (h: u64)
        ensures
            h == digest_of(self@.records, self@.records.len() as int),
    {
        let mut h: u64 = FNV_OFFSET;
        let mut i: usize = 0;
        while i < self.records.len()
            invariant
                i <= self.records@.len(),
                h == digest_of(self@.records, i as int),
            decreases self.records@.len() - i,
        {
            let r = &self.records[i];
            assert(self@.records[i as int] == r@);
            h = hash_text(h, canon(r.op, r.vt, &r.e).as_str());
            i = i + 1;
        }
        h
    }
}

// ---------------------------------------------------------------------------
// Laws
// ---------------------------------------------------------------------------

/// The writer behind `n` appended events.
pub open spec fn written(h: HeaderView, events: Seq<(u64, EventView)>, n: int) -> WriterModel
    decreases n,
{
    if n <= 0 {
        writer_new(h)
    } else {
        writer_append(written(h, events, n - 1), events[n - 1].0, events[n - 1].1)
    }
}

/// The record that the `i`-th append writes.
pub open spec fn written_record(h: HeaderView, events: Seq<(u64, EventView)>, i: int) -> RecordView {
    next_record(written(h, events, i), events[i].0, events[i].1)
}

/// The lines of a written log, without their line feeds.
pub open spec fn written_lines(h: HeaderView, events: Seq<(u64, EventView)>) -> Seq<Seq<char>> {
    Seq::new(
        events.len() + 1,
        |i: int|
            if i == 0 {
                header_json(h)
            } else {
                record_json(written_record(h, events, i - 1))
            },
    )
}

/// The lines with a line feed behind each, one after the other.
pub open spec fn joined(lines: Seq<Seq<char>>, n: int) -> Seq<char>
    decreases n,
{
    if n <= 0 {
        Seq::empty()
    } else {
        joined(lines, n - 1) + lines[n - 1].push('\n')
    }
}

/// What a writer writes is its lines, and its positions count the events.
pub proof fn lemma_written(h: HeaderView, events: Seq<(u64, EventView)>, n: int)
    requires
        0 <= n <= events.len(),
        events.len() < u64::MAX,
    ensures
        written(h, events, n).next_op == n,
        written(h, events, n).out == joined(written_lines(h, events), n + 1),
    decreases n,
{
    let lines = written_lines(h, events);
    if n == 0 {
        reveal_with_fuel(joined, 2);
        assert(joined(lines, 1) =~= header_json(h).push('\n'));
    } else {
        lemma_written(h, events, n - 1);
        assert(lines[n] == record_json(written_record(h, events, n - 1)));
    }
}

/// A log reads back as what was written: where each line reads as the record
/// that it was written from, the reader accepts the log and gives exactly the
/// header and the records.
pub proof fn law_written_log_reads_back(
    h: HeaderView,
    events: Seq<(u64, EventView)>,
    parsed: Seq<Result<RecordView, Seq<char>>>,
)
    requires
        h.format == FORMAT@,
        h.version == VERSION,
        events.len() < u64::MAX,
        parsed.len() == events.len(),
        forall|i: int|
            0 <= i < events.len() ==> #[trigger] parsed[i] == Ok::<RecordView, Seq<char>>(
                written_record(h, events, i),
            ),
    ensures
        log_of(written_lines(h, events), None, Ok(h), parsed) == Ok::<LogView, LogErrorView>(
            LogView {
                header: h,
                records: Seq::new(events.len(), |i: int| written_record(h, events, i)),
            },
        ),
{
    lemma_written_verifies(h, events, parsed, events.len() as int);
    let records = Seq::new(events.len(), |i: int| written_record(h, events, i));
    assert(records.take(events.len() as int) =~= records);
}

proof fn lemma_written_verifies(
    h: HeaderView,
    events: Seq<(u64, EventView)>,
    parsed: Seq<Result<RecordView, Seq<char>>>,
    n: int,
)
    requires
        0 <= n <= events.len(),
        events.len() < u64::MAX,
        parsed.len() == events.len(),
        forall|i: int|
            0 <= i < events.len() ==> #[trigger] parsed[i] == Ok::<RecordView, Seq<char>>(
                written_record(h, events, i),
            ),
    ensures
        verified(written_lines(h, events), parsed, n) == Ok::<
            (u64, Seq<RecordView>),
            LogErrorView,
        >(
            (
                written(h, events, n).chain,
                Seq::new(events.len(), |i: int| written_record(h, events, i)).take(n),
            ),
        ),
    decreases n,
{
    let lines = written_lines(h, events);
    let records = Seq::new(events.len(), |i: int| written_record(h, events, i));
    if n == 0 {
        assert(records.take(0) =~= Seq::<RecordView>::empty());
    } else {
        lemma_written_verifies(h, events, parsed, n - 1);
        lemma_written(h, events, n - 1);
        let r = written_record(h, events, n - 1);
        assert(parsed[n - 1] == Ok::<RecordView, Seq<char>>(r));
        assert(lines[n] == record_json(r));
        assert(lines[n].len() > 0) by {
            reveal_strlit("}");
        }
        assert(records.take(n) =~= records.take(n - 1).push(r));
    }
}

/// A log that is accepted has dense positions and a chain that fits: each
/// record carries the hash of the header line and of all records up to it. So
/// none can be left out, exchanged or edited without a hash collision.
pub proof fn law_accepted_is_chained(
    lines: Seq<Seq<char>>,
    parsed: Seq<Result<RecordView, Seq<char>>>,
    n: int,
    i: int,
)
    requires
        verified(lines, parsed, n) is Ok,
        0 <= i < verified(lines, parsed, n)->Ok_0.1.len(),
    ensures
        ({
            let records = verified(lines, parsed, n)->Ok_0.1;
            &&& records[i].op == i
            &&& records[i].chain == json::hex16(chain_through(lines[0], records, i + 1))
        }),
        verified(lines, parsed, n)->Ok_0.0 == chain_through(
            lines[0],
            verified(lines, parsed, n)->Ok_0.1,
            verified(lines, parsed, n)->Ok_0.1.len() as int,
        ),
    decreases n,
{
    lemma_chained(lines, parsed, n);
}

/// The chain value through the first `n` records behind a header line.
pub open spec fn chain_through(head: Seq<char>, records: Seq<RecordView>, n: int) -> u64
    decreases n,
{
    if n <= 0 {
        text_hash(FNV_OFFSET, head)
    } else {
        let r = records[n - 1];
        chained(chain_through(head, records, n - 1), r.op, r.vt, r.e)
    }
}

proof fn lemma_chain_prefix(head: Seq<char>, a: Seq<RecordView>, b: Seq<RecordView>, n: int)
    requires
        0 <= n <= a.len(),
        n <= b.len(),
        forall|i: int| 0 <= i < n ==> a[i] == b[i],
    ensures
        chain_through(head, a, n) == chain_through(head, b, n),
    decreases n,
{
    if n > 0 {
        lemma_chain_prefix(head, a, b, n - 1);
    }
}

proof fn lemma_chained(
    lines: Seq<Seq<char>>,
    parsed: Seq<Result<RecordView, Seq<char>>>,
    n: int,
)
    requires
        verified(lines, parsed, n) is Ok,
    ensures
        ({
            let (chain, records) = verified(lines, parsed, n)->Ok_0;
            &&& chain == chain_through(lines[0], records, records.len() as int)
            &&& forall|i: int|
                0 <= i < records.len() ==> (#[trigger] records[i]).op == i && records[i].chain
                    == json::hex16(chain_through(lines[0], records, i + 1))
        }),
    decreases n,
{
    if n > 0 {
        lemma_chained(lines, parsed, n - 1);
        let (c0, r0) = verified(lines, parsed, n - 1)->Ok_0;
        let (c, r) = verified(lines, parsed, n)->Ok_0;
        if lines[n].len() > 0 {
            lemma_chain_prefix(lines[0], r0, r, r0.len() as int);
            assert forall|i: int| 0 <= i < r.len() implies (#[trigger] r[i]).op == i && r[i].chain
                == json::hex16(chain_through(lines[0], r, i + 1)) by {
                if i < r0.len() {
                    assert(r0[i] == r[i]);
                    lemma_chain_prefix(lines[0], r0, r, i + 1);
                }
            }
        }
    }
}

/// The digest looks at positions, times and events alone.
pub proof fn law_digest_ignores_chain(a: Seq<RecordView>, b: Seq<RecordView>, n: int)
    requires
        0 <= n <= a.len(),
        n <= b.len(),
        forall|i: int|
            0 <= i < n ==> (#[trigger] a[i]).op == (#[trigger] b[i]).op && a[i].vt == b[i].vt
                && a[i].e == b[i].e,
    ensures
        digest_of(a, n) == digest_of(b, n),
    decreases n,
{
    if n > 0 {
        law_digest_ignores_chain(a, b, n - 1);
        assert(a[n - 1].op == b[n - 1].op);
    }
}

} // verus!
