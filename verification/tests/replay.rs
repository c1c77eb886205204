//! Logs, rules, recording and replaying.

use std::io::{Read, Write};

use serde_json::Value;

use weft::broker::{BrokerState, Step};
use weft::bytes::{pack, split_lines, unpack};
use weft::config::{self, loss_values};
use weft::fault::TailTable;
use weft::hash::to_hex;
use weft::log::{
    send_outcome, Addr, Event, Header, Log, LogError, LogWriter, Meta, Record, RecvOutcome,
    SendOutcome, FORMAT, VERSION,
};
use weft::monitor::{FnInvariant, Invariant, Monitor, NoDuplicateDelivery, PerChannelFifo};
use weft::netcore::{Core, SendResult};
use weft::recorder::{recv_outcome, Recorder};
use weft::replay::{replay_log, ReplayError, ReplayOutcome};
use weft::report::render;
use weft::wire::{FromBroker, ToBroker, VAddr};

// ---- reading a log --------------------------------------------------------

fn text_at(v: &Value, key: &str) -> Result<String, String> {
    v.get(key)
        .and_then(Value::as_str)
        .map(str::to_string)
        .ok_or_else(|| format!("no text at {key}"))
}

fn number_at(v: &Value, key: &str) -> Result<u64, String> {
    v.get(key)
        .and_then(Value::as_u64)
        .ok_or_else(|| format!("no number at {key}"))
}

fn addr_at(v: &Value, key: &str) -> Result<Addr, String> {
    let a = v.get(key).ok_or_else(|| format!("no address at {key}"))?;
    Ok(Addr {
        ip: u32::try_from(number_at(a, "ip")?).map_err(|e| e.to_string())?,
        port: u16::try_from(number_at(a, "port")?).map_err(|e| e.to_string())?,
    })
}

fn header_of(line: &str) -> Result<Header, String> {
    let v: Value = serde_json::from_str(line).map_err(|e| e.to_string())?;
    let meta = v.get("meta").cloned().unwrap_or(Value::Null);
    Ok(Header {
        format: text_at(&v, "format")?,
        version: u32::try_from(number_at(&v, "version")?).map_err(|e| e.to_string())?,
        seed: number_at(&v, "seed")?,
        net: text_at(&v, "net")?,
        window_ns: number_at(&v, "window_ns").unwrap_or(0),
        meta: Meta {
            recorded_unix_ms: number_at(&meta, "recorded_unix_ms").ok(),
            weft_version: text_at(&meta, "weft_version").ok(),
            label: text_at(&meta, "label").ok(),
        },
    })
}

fn event_of(v: &Value) -> Result<Event, String> {
    let conn = number_at(v, "conn");
    let outcome = v.get("outcome").cloned().unwrap_or(Value::Null);
    Ok(match text_at(v, "k")?.as_str() {
        "connect" => Event::Connect { conn: conn? },
        "hello" => Event::Hello {
            conn: conn?,
            node: number_at(v, "node")? as u32,
        },
        "bind" => Event::Bind {
            conn: conn?,
            addr: addr_at(v, "addr")?,
        },
        "send" => Event::Send {
            conn: conn?,
            src: addr_at(v, "src")?,
            dst: addr_at(v, "dst")?,
            chan_seq: number_at(v, "chan_seq")?,
            send_vt: number_at(v, "send_vt").unwrap_or(0),
            payload: text_at(v, "payload")?,
            outcome: match text_at(&outcome, "kind")?.as_str() {
                "dropped" => SendOutcome::Dropped,
                "no_receiver" => SendOutcome::NoReceiver,
                "enqueued" => SendOutcome::Enqueued {
                    to_conn: number_at(&outcome, "to_conn")?,
                    deliv_ns: number_at(&outcome, "deliv_ns")?,
                    tie: number_at(&outcome, "tie")?,
                },
                other => return Err(format!("unknown outcome {other}")),
            },
        },
        "recv" => Event::Recv {
            conn: conn?,
            blocking: v.get("blocking").and_then(Value::as_bool).ok_or("blocking")?,
            outcome: match text_at(&outcome, "kind")?.as_str() {
                "empty" => RecvOutcome::Empty,
                "delivered" => RecvOutcome::Delivered {
                    src: addr_at(&outcome, "src")?,
                    dst: addr_at(&outcome, "dst")?,
                    deliv_ns: number_at(&outcome, "deliv_ns")?,
                    tie: number_at(&outcome, "tie")?,
                    payload: text_at(&outcome, "payload")?,
                },
                other => return Err(format!("unknown outcome {other}")),
            },
        },
        "disconnect" => Event::Disconnect { conn: conn? },
        "violation" => Event::Violation {
            rule: text_at(v, "invariant")?,
            message: text_at(v, "message")?,
        },
        "end" => Event::End {
            events: number_at(v, "events")?,
            sent: number_at(v, "sent")?,
            dropped: number_at(v, "dropped")?,
        },
        other => return Err(format!("unknown event {other}")),
    })
}

fn record_of(line: &str) -> Result<Record, String> {
    let v: Value = serde_json::from_str(line).map_err(|e| e.to_string())?;
    Ok(Record {
        op: number_at(&v, "op")?,
        vt: number_at(&v, "vt")?,
        e: event_of(v.get("e").ok_or("no event")?)?,
        chain: text_at(&v, "chain")?,
    })
}

fn read_log(file: &[u8]) -> Result<Log, LogError> {
    let raw = unpack(file.to_vec()).map_err(LogError::Io)?;
    let (lines, cut) = split_lines(&raw);
    let header = match lines.first() {
        Some(l) => header_of(l),
        None => Err(String::new()),
    };
    let parsed = lines.iter().skip(1).map(|l| record_of(l)).collect();
    let cut = if cut { Some("not text".to_string()) } else { None };
    Log::from_lines(&lines, cut, header, parsed)
}

fn readings(spec: &str) -> Vec<Option<u64>> {
    loss_values(spec)
        .into_iter()
        .map(|v| v.and_then(|t| t.parse::<f64>().ok()).map(f64::to_bits))
        .collect()
}

fn no_tails() -> TailTable {
    TailTable { rows: vec![] }
}

fn replay<I: Invariant>(log: &Log, rules: Vec<I>, until: Option<u64>) -> ReplayOutcome {
    replay_log(log, &readings(&log.header.net), rules, until, &no_tails()).unwrap()
}

fn no_rules() -> Vec<PerChannelFifo> {
    vec![]
}

// ---- the log --------------------------------------------------------------

fn header() -> Header {
    Header {
        format: FORMAT.into(),
        version: VERSION,
        seed: 42,
        net: "loss=0.5".into(),
        window_ns: 0,
        meta: Meta::default(),
    }
}

fn a() -> Addr {
    Addr {
        ip: 0x7f00_0001,
        port: 100,
    }
}

fn b() -> Addr {
    Addr {
        ip: 0x7f00_0002,
        port: 200,
    }
}

fn sample_events() -> Vec<Event> {
    vec![
        Event::Connect { conn: 0 },
        Event::Hello { conn: 0, node: 0 },
        Event::Bind { conn: 0, addr: a() },
        Event::Send {
            conn: 1,
            src: b(),
            dst: a(),
            chan_seq: 0,
            send_vt: 0,
            payload: "68690a".into(),
            outcome: SendOutcome::Enqueued {
                to_conn: 0,
                deliv_ns: 1500,
                tie: 0,
            },
        },
        Event::Recv {
            conn: 0,
            blocking: false,
            outcome: RecvOutcome::Delivered {
                src: b(),
                dst: a(),
                deliv_ns: 1500,
                tie: 0,
                payload: "68690a".into(),
            },
        },
    ]
}

fn write_events(h: &Header, events: Vec<Event>, step: u64, last: u64, gz: bool) -> Vec<u8> {
    let mut w = LogWriter::new(h);
    for (i, e) in events.into_iter().enumerate() {
        w.append(i as u64 * step, e);
    }
    w.finish(last);
    w.finalize(gz)
}

fn write_sample() -> Vec<u8> {
    write_events(&header(), sample_events(), 10, 50, false)
}

#[test]
fn round_trip_and_chain_verify() {
    let buf = write_sample();
    let log = read_log(buf.as_slice()).unwrap();
    assert_eq!(log.header, header());
    assert_eq!(log.records.len(), 6); // 5 events + End
    assert_eq!(log.records[3].vt, 30);
    assert!(matches!(
        log.records[5].e,
        Event::End {
            sent: 1,
            dropped: 0,
            ..
        }
    ));
}

#[test]
fn truncation_is_detected() {
    let buf = write_sample();
    // Drop the last line (End record): reader still parses, but a consumer
    // can see there is no End. Now corrupt an interior byte instead:
    let mut corrupt = buf.clone();
    // Flip one payload hex char somewhere mid-file.
    let pos = corrupt.windows(6).position(|w| w == b"68690a").unwrap();
    corrupt[pos] = b'7';
    let err = read_log(corrupt.as_slice()).unwrap_err();
    assert!(
        matches!(err, LogError::ChainBroken { .. }),
        "got {}",
        err.text()
    );
}

#[test]
fn record_reorder_is_detected() {
    let buf = write_sample();
    let text = String::from_utf8(buf).unwrap();
    let mut lines: Vec<&str> = text.lines().collect();
    lines.swap(2, 3); // swap two records
    let rejoined = lines.join("\n");
    let err = read_log(rejoined.as_bytes()).unwrap_err();
    assert!(
        matches!(err, LogError::BadOpOrder { .. }),
        "got {}",
        err.text()
    );
}

#[test]
fn wrong_version_is_rejected() {
    let mut h = header();
    h.version = 999;
    let w = LogWriter::new(&h);
    let err = read_log(&w.finalize(false)).unwrap_err();
    assert!(matches!(err, LogError::UnsupportedVersion(999)));
}

#[test]
fn stream_digest_ignores_meta_but_not_events() {
    let buf1 = write_sample();
    let log1 = read_log(buf1.as_slice()).unwrap();

    // Same events, different meta: same digest.
    let mut h2 = header();
    h2.meta.label = Some("other machine".into());
    let buf2 = write_events(&h2, sample_events(), 10, 50, false);
    let log2 = read_log(buf2.as_slice()).unwrap();
    assert_eq!(log1.stream_digest(), log2.stream_digest());

    // Different events: different digest.
    let buf3 = write_events(&header(), vec![Event::Connect { conn: 7 }], 0, 0, false);
    let log3 = read_log(buf3.as_slice()).unwrap();
    assert_ne!(log1.stream_digest(), log3.stream_digest());
}

#[test]
fn the_lines_of_a_log_are_as_documented() {
    let mut h = header();
    h.meta.label = Some("a \"b\"\u{1}\u{e9}".into());
    let mut w = LogWriter::new(&h);
    w.append(5, Event::Violation {
        rule: "r".into(),
        message: "line\n\\".into(),
    });
    w.append(6, Event::Send {
        conn: 1,
        src: b(),
        dst: a(),
        chan_seq: 2,
        send_vt: 9,
        payload: "00".into(),
        outcome: SendOutcome::NoReceiver,
    });
    let text = w.text().to_string();
    let lines: Vec<&str> = text.lines().collect();
    assert_eq!(
        lines[0],
        "{\"format\":\"weft-log\",\"version\":1,\"seed\":42,\"net\":\"loss=0.5\",\"meta\":\
         {\"label\":\"a \\\"b\\\"\\u0001\u{e9}\"}}"
    );
    assert!(lines[1].starts_with(
        "{\"op\":0,\"vt\":5,\"e\":{\"k\":\"violation\",\"invariant\":\"r\",\"message\":\
         \"line\\n\\\\\"},\"chain\":\""
    ));
    assert!(lines[2].contains("\"chan_seq\":2,\"send_vt\":9,\"payload\":\"00\""));
    assert!(lines[2].contains("\"outcome\":{\"kind\":\"no_receiver\"}"));
    let log = read_log(text.as_bytes()).unwrap();
    assert_eq!(log.header, h);
    assert_eq!(log.records.len(), 2);
}

#[test]
fn every_unreadable_log_says_why() {
    let says = |file: &[u8]| read_log(file).unwrap_err().text();
    assert_eq!(says(b""), "line 1: malformed record: empty file");
    assert_eq!(says(&[0xff, b'\n']), "I/O error: not text");
    let mut h = header();
    h.format = "other".into();
    assert_eq!(
        says(&LogWriter::new(&h).finalize(false)),
        "not a weft-log file (format=\"other\")"
    );
    h.format = FORMAT.into();
    h.version = 999;
    assert_eq!(
        says(&LogWriter::new(&h).finalize(false)),
        "unsupported weft-log version 999 (this reader supports 1)"
    );
    let text = String::from_utf8(write_sample()).unwrap();
    let lines: Vec<&str> = text.lines().collect();
    let gap = format!("{}\n{}", lines[0], lines[2]);
    assert_eq!(
        says(gap.as_bytes()),
        "op sequence broken: expected 0, got 1"
    );
    let edited = text.replacen("\"vt\":0", "\"vt\":1", 1);
    assert_eq!(
        says(edited.as_bytes()),
        "integrity chain broken at op 0: log truncated or edited"
    );
    let torn = &text[..text.len() - 4];
    assert!(says(torn.as_bytes()).starts_with("line 7: malformed record: "));
    // A log that is cut between lines reads, without its last records.
    let cut = format!("{}\n{}\n", lines[0], lines[1]);
    assert_eq!(read_log(cut.as_bytes()).unwrap().records.len(), 1);
    // Blank lines are passed over.
    let spaced = text.replace('\n', "\n\n");
    assert_eq!(
        read_log(spaced.as_bytes()).unwrap(),
        read_log(text.as_bytes()).unwrap()
    );
}

// ---- compression ----------------------------------------------------------

fn burst_header() -> Header {
    Header {
        format: FORMAT.into(),
        version: VERSION,
        seed: 3,
        net: "latency=uniform:1000-100000".into(),
        window_ns: 0,
        meta: Meta::default(),
    }
}

/// A repetitive-but-valid event burst (compresses well). Sends target an
/// address nobody bound, so every outcome is honestly `no_receiver` and the
/// virtual clock never advances.
fn burst() -> Vec<Event> {
    let unbound = Addr {
        ip: 0x7f00_0001,
        port: 999,
    };
    let mut out = vec![
        Event::Connect { conn: 0 },
        Event::Bind { conn: 0, addr: a() },
    ];
    for i in 0..200u64 {
        out.push(Event::Send {
            conn: 1,
            src: b(),
            dst: unbound,
            chan_seq: i,
            send_vt: 0,
            payload: "deadbeef".into(),
            outcome: SendOutcome::NoReceiver,
        });
    }
    out
}

fn write_burst(gz: bool) -> Vec<u8> {
    write_events(&burst_header(), burst(), 0, 0, gz)
}

#[test]
fn gz_and_plain_logs_are_the_same_log() {
    let plain = write_burst(false);
    let gz = write_burst(true);

    let lp = read_log(&plain).unwrap();
    let lg = read_log(&gz).unwrap();
    assert_eq!(lp, lg, "compression must not change the log's content");
    assert_eq!(lp.stream_digest(), lg.stream_digest());

    let sp = plain.len();
    let sg = gz.len();
    assert!(
        sg < sp / 2,
        "repetitive log should compress well: plain={sp}B gz={sg}B"
    );
}

#[test]
fn gzip_is_detected_by_content_not_extension() {
    // There is no name to go by: the magic bytes tell.
    let log = read_log(&write_burst(true)).unwrap();
    assert_eq!(log.records.len(), 203); // 202 events + End
}

#[test]
fn compressed_log_replays_identically() {
    let log = read_log(&write_burst(true)).unwrap();
    let out = replay(&log, no_rules(), None);
    assert!(out.identical, "divergence: {:?}", out.divergence);
    assert_eq!(out.stream_digest, log.stream_digest());
}

#[test]
fn tampering_with_compressed_content_is_still_detected() {
    // Decompress, corrupt one byte of a payload, recompress: the chain
    // (defined over the uncompressed text) must catch it.
    let bytes = write_burst(true);
    let mut text = Vec::new();
    flate2::read::GzDecoder::new(bytes.as_slice())
        .read_to_end(&mut text)
        .unwrap();
    let pos = text
        .windows(8)
        .position(|w| w == b"deadbeef")
        .expect("payload present");
    text[pos] = b'f';

    let mut enc = flate2::write::GzEncoder::new(Vec::new(), flate2::Compression::default());
    enc.write_all(&text).unwrap();
    let tampered = enc.finish().unwrap();

    let err = read_log(&tampered).unwrap_err();
    assert!(
        matches!(err, LogError::ChainBroken { .. }),
        "got {}",
        err.text()
    );
}

#[test]
fn packing_is_undone_by_unpacking() {
    let plain = b"some text, some text".to_vec();
    let packed = pack(plain.clone(), true);
    assert_ne!(packed, plain);
    assert_eq!(packed[..2], [0x1f, 0x8b]);
    assert_eq!(unpack(packed.clone()), Ok(plain.clone()));
    assert_eq!(pack(plain.clone(), false), plain);
    assert_eq!(unpack(plain.clone()), Ok(plain));
    assert!(unpack(packed[..8].to_vec()).is_err());
}

// ---- rules ----------------------------------------------------------------

fn send(seq: u64, tie: u64) -> Event {
    Event::Send {
        conn: 1,
        src: b(),
        dst: a(),
        chan_seq: seq,
        send_vt: 0,
        payload: String::new(),
        outcome: SendOutcome::Enqueued {
            to_conn: 0,
            deliv_ns: 0,
            tie,
        },
    }
}

fn deliver(tie: u64) -> Event {
    Event::Recv {
        conn: 0,
        blocking: false,
        outcome: RecvOutcome::Delivered {
            src: b(),
            dst: a(),
            deliv_ns: 0,
            tie,
            payload: String::new(),
        },
    }
}

#[test]
fn fifo_passes_in_order_and_flags_reorder() {
    let mut m = Monitor::new();
    m.register(PerChannelFifo::new());
    // seq 0 and 1 enqueued; 1 delivered before 0: violation on 0.
    assert_eq!(m.observe(0, 0, &send(0, 10)), 0);
    assert_eq!(m.observe(1, 0, &send(1, 11)), 0);
    assert_eq!(m.observe(2, 5, &deliver(11)), 0);
    assert_eq!(m.observe(3, 6, &deliver(10)), 1);
    let v = &m.violations()[0];
    assert_eq!(v.rule, "per-channel-fifo");
    assert_eq!((v.op, v.vt), (3, 6));
    assert!(v.message.contains("send order 0"), "{}", v.message);
}

#[test]
fn duplicate_delivery_is_flagged() {
    let mut m = Monitor::new();
    m.register(NoDuplicateDelivery::new());
    m.observe(0, 0, &send(0, 42));
    assert_eq!(m.observe(1, 1, &deliver(42)), 0);
    assert_eq!(m.observe(2, 2, &deliver(42)), 1);
    assert!(m.violations()[0].message.contains("tie=42"));
}

#[test]
fn a_third_delivery_names_the_first() {
    let mut rule = NoDuplicateDelivery::new();
    assert_eq!(rule.on_event(1, 0, &deliver(42)), None);
    for op in [2, 3] {
        assert_eq!(
            rule.on_event(op, 0, &deliver(42)).unwrap(),
            "datagram tie=42 delivered twice (first at op 1)"
        );
    }
}

#[test]
fn a_recorded_violation_that_is_not_raised_diverges_whatever_it_says() {
    let log = Log {
        header: Header {
            format: FORMAT.into(),
            version: VERSION,
            seed: 1,
            net: String::new(),
            window_ns: 0,
            meta: Meta::default(),
        },
        records: vec![
            Record {
                op: 0,
                vt: 0,
                e: Event::Connect { conn: 0 },
                chain: String::new(),
            },
            Record {
                op: 1,
                vt: 0,
                e: Event::Violation {
                    rule: "(none raised)".into(),
                    message: "replayed invariants raised no violation here".into(),
                },
                chain: String::new(),
            },
        ],
    };
    let checked = replay(&log, vec![PerChannelFifo::new()], None);
    assert!(!checked.identical);
    assert_eq!(checked.divergence.unwrap().op, 1);
    // Without rules it is carried through.
    assert!(replay(&log, Vec::<PerChannelFifo>::new(), None).identical);
}

#[test]
fn fn_invariant_and_check_log_agree_with_observe() {
    // The same invariant must produce identical results in-process
    // (observe) and externally (check_log).
    let header = Header {
        format: FORMAT.into(),
        version: VERSION,
        seed: 1,
        net: String::new(),
        window_ns: 0,
        meta: Meta::default(),
    };
    let events = [send(0, 10), send(1, 11), deliver(11), deliver(10)];

    let mut w = LogWriter::new(&header);
    let mut live = Monitor::new();
    live.register(PerChannelFifo::new());
    for (i, e) in events.iter().enumerate() {
        let op = w.append(i as u64, e.clone());
        live.observe(op, i as u64, e);
    }
    w.finish(4);

    let log = read_log(&w.finalize(false)).unwrap();
    let mut external = Monitor::new();
    external.register(PerChannelFifo::new());
    let found = external.check_log(&log);

    assert_eq!(live.violations().as_slice(), found.as_slice());
    assert_eq!(found.len(), 1);

    // A rule made of a function, as well.
    let rule = || {
        FnInvariant::new("no-second", |op: u64, _vt: u64, e: &Event| match e {
            Event::Send { chan_seq: 1, .. } => Some(format!("second at {op}")),
            _ => None,
        })
    };
    let mut live = Monitor::new();
    live.register(rule());
    for (i, e) in events.iter().enumerate() {
        live.observe(i as u64, i as u64, e);
    }
    let mut later = Monitor::new();
    later.register(rule());
    assert_eq!(later.check_log(&log).as_slice(), live.violations().as_slice());
    assert_eq!(live.violations()[0].rule, "no-second");
    assert_eq!(live.violations()[0].message, "second at 1");
}

// ---- replaying ------------------------------------------------------------

/// Record a run of the core, honestly.
fn record_run(seed: u64, net: &str) -> Vec<u8> {
    let model = config::parse(seed, net, &readings(net)).unwrap();
    let mut core = Core::new(model);
    let mut w = LogWriter::new(&Header {
        format: FORMAT.into(),
        version: VERSION,
        seed,
        net: net.into(),
        window_ns: 0,
        meta: Meta::default(),
    });
    core.connect(0);
    w.append(core.vt(), Event::Connect { conn: 0 });
    core.connect(1);
    w.append(core.vt(), Event::Connect { conn: 1 });
    core.bind(0, a().into());
    w.append(core.vt(), Event::Bind { conn: 0, addr: a() });

    for i in 0u32..12 {
        let payload = i.to_le_bytes();
        let (chan_seq, res): (u64, SendResult) =
            core.send(b().into(), a().into(), &payload, 0, &no_tails());
        w.append(
            core.vt(),
            Event::Send {
                conn: 1,
                src: b(),
                dst: a(),
                chan_seq,
                send_vt: 0,
                payload: to_hex(&payload),
                outcome: send_outcome(res),
            },
        );
    }
    loop {
        let outcome = recv_outcome(&core.recv(0));
        let done = outcome == RecvOutcome::Empty;
        w.append(
            core.vt(),
            Event::Recv {
                conn: 0,
                blocking: false,
                outcome,
            },
        );
        if done {
            break;
        }
    }
    w.finish(core.vt());
    w.finalize(false)
}

#[test]
fn replay_reproduces_the_recording_exactly() {
    let buf = record_run(3, "latency=uniform:1000-100000");
    let log = read_log(buf.as_slice()).unwrap();
    let out = replay(&log, no_rules(), None);
    assert!(out.identical, "divergence: {:?}", out.divergence);
    assert_eq!(out.ops_replayed, log.records.len() as u64);
    assert_eq!(out.stream_digest, log.stream_digest());
}

#[test]
fn replay_is_stable_across_many_repetitions() {
    let buf = record_run(3, "latency=uniform:1000-100000");
    let log = read_log(buf.as_slice()).unwrap();
    let reference = log.stream_digest();
    for i in 0..10 {
        let out = replay(&log, no_rules(), None);
        assert!(out.identical, "run {i} diverged: {:?}", out.divergence);
        assert_eq!(out.stream_digest, reference, "run {i} digest changed");
    }
}

#[test]
fn tampered_seed_diverges_instead_of_lying() {
    let buf = record_run(3, "latency=uniform:1000-100000");
    let mut log = read_log(buf.as_slice()).unwrap();
    log.header.seed = 4; // same ops, different fault decisions
    let out = replay(&log, no_rules(), None);
    assert!(!out.identical);
    let d = out.divergence.unwrap();
    assert!(d.recorded != d.replayed);
}

#[test]
fn replay_until_stops_early() {
    let buf = record_run(3, "latency=uniform:1000-100000");
    let log = read_log(buf.as_slice()).unwrap();
    let out = replay(&log, no_rules(), Some(5));
    assert!(out.identical);
    assert_eq!(out.ops_replayed, 6); // ops 0..=5
}

#[test]
fn invariants_fire_identically_on_replay() {
    // Uniform latency reorders, so a FIFO violation must appear on replay.
    let buf = record_run(3, "latency=uniform:1000-100000");
    let log = read_log(buf.as_slice()).unwrap();
    let out = replay(&log, vec![PerChannelFifo::new()], None);
    assert!(out.identical);
    assert!(
        !out.violations.is_empty(),
        "uniform 1000-100000 over a 12-datagram burst must reorder"
    );
    // And identically on every repetition.
    let first: Vec<_> = out.violations.clone();
    for _ in 0..3 {
        let again = replay(&log, vec![PerChannelFifo::new()], None);
        assert_eq!(again.violations, first);
    }
}

#[test]
fn a_replay_that_cannot_run_says_why() {
    let log = |net: &str, payload: &str| Log {
        header: Header {
            net: net.into(),
            ..burst_header()
        },
        records: vec![Record {
            op: 0,
            vt: 0,
            e: Event::Send {
                conn: 1,
                src: b(),
                dst: a(),
                chan_seq: 0,
                send_vt: 0,
                payload: payload.into(),
                outcome: SendOutcome::NoReceiver,
            },
            chain: String::new(),
        }],
    };
    let run = |l: &Log| {
        replay_log(l, &readings(&l.header.net), no_rules(), None, &no_tails()).unwrap_err()
    };
    let e = run(&log("bogus", "00"));
    assert!(matches!(e, ReplayError::BadNetSpec(_)));
    assert_eq!(
        e.text(),
        "log header net spec unusable: network clause \"bogus\" is not key=value"
    );
    let e = run(&log("", "0g"));
    assert_eq!(e, ReplayError::BadPayload { op: 0 });
    assert_eq!(e.text(), "op 0: payload is not valid hex");
}

// ---- reports --------------------------------------------------------------

#[test]
fn report_contains_everything_needed_to_reproduce() {
    let header = Header {
        format: FORMAT.into(),
        version: VERSION,
        seed: 3,
        net: "latency=uniform:1000-100000".into(),
        window_ns: 0,
        meta: Meta {
            label: Some("demo".into()),
            ..Meta::default()
        },
    };
    let sent = |chan_seq: u64, deliv_ns: u64, payload: &str| Event::Send {
        conn: 1,
        src: b(),
        dst: a(),
        chan_seq,
        send_vt: 0,
        payload: payload.into(),
        outcome: SendOutcome::Enqueued {
            to_conn: 0,
            deliv_ns,
            tie: chan_seq,
        },
    };
    let got = |tie: u64, deliv_ns: u64, payload: &str| Event::Recv {
        conn: 0,
        blocking: false,
        outcome: RecvOutcome::Delivered {
            src: b(),
            dst: a(),
            deliv_ns,
            tie,
            payload: payload.into(),
        },
    };
    let events = [
        sent(0, 90_000, "00"),
        sent(1, 2_000, "01"),
        got(1, 2_000, "01"),
        got(0, 90_000, "00"),
    ];
    let mut w = LogWriter::new(&header);
    let mut mon = Monitor::new();
    mon.register(PerChannelFifo::new());
    for (i, e) in events.iter().enumerate() {
        let op = w.append(i as u64, e.clone());
        mon.observe(op, i as u64, e);
    }
    w.finish(4);

    let log = read_log(&w.finalize(false)).unwrap();
    let v = &mon.violations()[0];
    let text = render(v, &log, "/tmp/demo.weftlog");

    // The reader must find: what, where on the timeline, and how to rerun.
    assert!(text.contains("per-channel-fifo"));
    assert!(text.contains("op 3"));
    assert!(text.contains("seed        : 3"));
    assert!(text.contains("latency=uniform:1000-100000"));
    assert!(text.contains("weft replay /tmp/demo.weftlog"));
    assert!(text.contains("--until 3"));
    assert!(text.contains(">> op    3"));
}

// ---- a broker, recorded ---------------------------------------------------

const SEED: u64 = 3;
const NET: &str = "latency=uniform:1000-100000";

fn addr(node: u32, port: u16) -> VAddr {
    VAddr::new(0x7f00_0001 + node, port)
}

struct Recorded {
    broker: BrokerState,
    recorder: Recorder<PerChannelFifo>,
}

impl Recorded {
    fn call(&mut self, conn: u64, m: ToBroker) -> Option<FromBroker> {
        let s: Step = self.broker.handle(conn, m, &no_tails());
        for (vt, e) in &s.events {
            self.recorder.observe(*vt, e);
        }
        s.reply
    }

    fn connect(&mut self, conn: u64, node: u32) {
        for (vt, e) in &self.broker.connect(conn) {
            self.recorder.observe(*vt, e);
        }
        let hello = ToBroker::Hello {
            node_id: node,
            host_id: 0,
        };
        assert!(matches!(self.call(conn, hello), Some(FromBroker::Ack { .. })));
    }

    fn disconnect(&mut self, conn: u64) {
        for (vt, e) in &self.broker.disconnect(conn, &no_tails()) {
            self.recorder.observe(*vt, e);
        }
    }
}

/// Record one run: a 20-datagram burst under reordering latency, drained by
/// the receiver. `order` is the order in which the two connections come in.
fn record_broker_run(label: &str, order: [u64; 2]) -> Vec<u8> {
    let model = config::parse(SEED, NET, &readings(NET)).unwrap();
    let header = Header {
        format: FORMAT.into(),
        version: VERSION,
        seed: SEED,
        net: NET.into(),
        window_ns: 0,
        meta: Meta {
            label: Some(label.into()),
            ..Meta::default()
        },
    };
    let mut r = Recorded {
        broker: BrokerState::new(model, 0),
        recorder: Recorder::create(&header, vec![PerChannelFifo::new()]),
    };
    let (ra, ta) = (addr(0, 100), addr(1, 200));
    for conn in order {
        r.connect(conn, conn as u32);
    }
    r.call(0, ToBroker::Bind { addr: ra });
    r.call(1, ToBroker::Bind { addr: ta });
    for i in 0u32..20 {
        r.call(
            1,
            ToBroker::Send {
                src: ta,
                dst: ra,
                payload: i.to_le_bytes().to_vec(),
                local_vt: 0,
            },
        );
    }
    let mut got = Vec::new();
    while let Some(FromBroker::Deliver { payload, .. }) = r.call(
        0,
        ToBroker::Recv {
            addr: ra,
            blocking: false,
            local_vt: 0,
        },
    ) {
        got.push(payload);
    }
    assert_eq!(got.len(), 20, "no loss configured; nothing may vanish");
    r.disconnect(0);
    r.disconnect(1);

    let (text, violations) = r.recorder.finish();
    assert!(
        !violations.is_empty(),
        "uniform latency 1000-100000 over a 20-datagram burst must reorder"
    );
    text.into_bytes()
}

#[test]
fn live_run_records_a_verifiable_log_with_the_violation() {
    let log = read_log(&record_broker_run("verify", [0, 1])).unwrap();

    // The chain was verified on reading. The violation is in the log itself,
    // anchored to an op and a virtual time.
    let viol: Vec<_> = log
        .records
        .iter()
        .filter(|r| matches!(r.e, Event::Violation { .. }))
        .collect();
    assert!(!viol.is_empty(), "recorded log must contain the violation");
    assert!(viol[0].vt > 0, "violation must sit on the logical timeline");

    // And it ends properly.
    assert!(matches!(log.records.last().unwrap().e, Event::End { .. }));
}

#[test]
fn recorded_violation_replays_identically_ten_times() {
    let file = record_broker_run("replay10", [0, 1]);
    let reference_digest = read_log(&file).unwrap().stream_digest();

    let mut reference_violations = None;
    for run in 0..10 {
        // Fresh read every time: nothing carries over between replays.
        let log = read_log(&file).unwrap();
        let out = replay(&log, vec![PerChannelFifo::new()], None);

        assert!(out.identical, "replay {run} diverged: {:?}", out.divergence);
        assert_eq!(
            out.stream_digest, reference_digest,
            "replay {run} produced a different stream digest"
        );
        assert!(
            !out.violations.is_empty(),
            "replay {run} lost the violation"
        );

        match &reference_violations {
            None => reference_violations = Some(out.violations),
            Some(first) => assert_eq!(
                &out.violations, first,
                "replay {run}: violations differ from run 0"
            ),
        }
    }

    // The violation is anchored: same op, same vt, every time.
    let v = &reference_violations.unwrap()[0];
    assert_eq!(v.rule, "per-channel-fifo");
    assert!(v.vt > 0);
}

#[test]
fn two_recordings_of_the_same_scenario_may_differ_but_each_replays_exactly() {
    // The order in which connections come in is not the seed's to decide, so
    // two recordings need not be identical. Each replays to itself.
    let l1 = read_log(&record_broker_run("a", [0, 1])).unwrap();
    let l2 = read_log(&record_broker_run("b", [1, 0])).unwrap();
    assert_ne!(l1.stream_digest(), l2.stream_digest());

    for (log, name) in [(&l1, "a"), (&l2, "b")] {
        let out = replay(log, no_rules(), None);
        assert!(out.identical, "recording {name} failed self-replay");
        assert_eq!(out.stream_digest, log.stream_digest());
    }
}

#[test]
fn violation_report_names_the_exact_reproduction() {
    let log = read_log(&record_broker_run("report", [0, 1])).unwrap();
    let out = replay(&log, vec![PerChannelFifo::new()], None);
    let path = "/tmp/report.weftlog";
    let text = render(&out.violations[0], &log, path);

    // Seed, net spec, log path, op anchor, replay command.
    assert!(text.contains(&format!("seed        : {SEED}")));
    assert!(text.contains(NET));
    assert!(text.contains(path));
    assert!(text.contains("weft replay"));
    assert!(text.contains("--until"));
}

#[test]
fn text_is_taken_out_piece_by_piece() {
    let mut r: Recorder<PerChannelFifo> = Recorder::create(&header(), vec![]);
    let mut all = r.take_text();
    assert!(all.ends_with('\n'));
    r.observe(4, &weft::broker::Observed::Connect { conn: 1 });
    all.push_str(&r.take_text());
    let (rest, none) = r.finish();
    all.push_str(&rest);
    assert!(none.is_empty());
    let log = read_log(all.as_bytes()).unwrap();
    assert_eq!(log.records[0].e, Event::Connect { conn: 1 });
    assert_eq!(log.records[1].vt, 4);
}
