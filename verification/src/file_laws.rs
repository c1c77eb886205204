//! The law of log files: what is read from a file, line by line, is what was
//! written to it.

use vstd::prelude::*;
use vstd::utf8;

use crate::bytes;
use crate::hash;
use crate::json;
use crate::log;
use crate::log::{EventView, HeaderView, MetaView, RecordView, RecvOutcomeView, SendOutcome};
use crate::text;

verus! {

// ---------------------------------------------------------------------------
// No line feeds inside lines
// ---------------------------------------------------------------------------

/// No line feed among the characters.
pub open spec fn unbroken(s: Seq<char>) -> bool {
    forall|i: int| 0 <= i < s.len() ==> #[trigger] s[i] != '\n'
}

broadcast proof fn lemma_unbroken_add(a: Seq<char>, b: Seq<char>)
    requires
        unbroken(a),
        unbroken(b),
    ensures
        #[trigger] unbroken(a + b),
{
    assert forall|i: int| 0 <= i < (a + b).len() implies #[trigger] (a + b)[i] != '\n' by {
        if i < a.len() {
            assert((a + b)[i] == a[i]);
        } else {
            assert((a + b)[i] == b[i - a.len()]);
        }
    }
}

broadcast proof fn lemma_unbroken_number(n: nat)
    ensures
        #[trigger] unbroken(text::dec(n)),
    decreases n,
{
    if n >= 10 {
        lemma_unbroken_number(n / 10);
    }
}

proof fn lemma_unbroken_escape(c: char)
    ensures
        unbroken(json::escaped(c)),
{
    if (c as int) <= 31 {
        let a = c as int / 16;
        let b = c as int % 16;
        assert(hash::hex_char(a) != '\n');
        assert(hash::hex_char(b) != '\n');
    }
}

proof fn lemma_unbroken_escapes(s: Seq<char>)
    ensures
        unbroken(json::escaped_all(s)),
    decreases s.len(),
{
    if s.len() > 0 {
        lemma_unbroken_escapes(s.drop_last());
        lemma_unbroken_escape(s.last());
        lemma_unbroken_add(json::escaped_all(s.drop_last()), json::escaped(s.last()));
    }
}

broadcast proof fn lemma_unbroken_string(s: Seq<char>)
    ensures
        #[trigger] unbroken(json::string_json(s)),
{
    lemma_unbroken_escapes(s);
    lemma_unbroken_add(seq!['"'], json::escaped_all(s));
    lemma_unbroken_add(seq!['"'] + json::escaped_all(s), seq!['"']);
}

broadcast proof fn lemma_unbroken_addr(ip: u32, port: u16)
    ensures
        #[trigger] unbroken(json::addr_json(ip, port)),
{
    broadcast use {lemma_unbroken_add, lemma_unbroken_number};

    reveal_strlit("{\"ip\":");
    reveal_strlit(",\"port\":");
    reveal_strlit("}");
    assert(unbroken("{\"ip\":"@) && unbroken(",\"port\":"@) && unbroken("}"@));
}

proof fn lemma_unbroken_sent(o: SendOutcome)
    ensures
        unbroken(log::send_outcome_json(o)),
{
    broadcast use {lemma_unbroken_add, lemma_unbroken_number};

    match o {
        SendOutcome::Dropped => {
            reveal_strlit("{\"kind\":\"dropped\"}");
        },
        SendOutcome::NoReceiver => {
            reveal_strlit("{\"kind\":\"no_receiver\"}");
        },
        SendOutcome::Enqueued { to_conn, deliv_ns, tie } => {
            reveal_strlit("{\"kind\":\"enqueued\",\"to_conn\":");
            reveal_strlit(",\"deliv_ns\":");
            reveal_strlit(",\"tie\":");
            reveal_strlit("}");
            assert(unbroken("{\"kind\":\"enqueued\",\"to_conn\":"@));
            assert(unbroken(",\"deliv_ns\":"@) && unbroken(",\"tie\":"@) && unbroken("}"@));
        },
    }
}

proof fn lemma_unbroken_got(o: RecvOutcomeView)
    ensures
        unbroken(log::recv_outcome_json(o)),
{
    broadcast use {
        lemma_unbroken_add,
        lemma_unbroken_number,
        lemma_unbroken_string,
        lemma_unbroken_addr,
    };

    match o {
        RecvOutcomeView::Empty => {
            reveal_strlit("{\"kind\":\"empty\"}");
        },
        RecvOutcomeView::Delivered { src, dst, deliv_ns, tie, payload } => {
            reveal_strlit("{\"kind\":\"delivered\",\"src\":");
            reveal_strlit(",\"dst\":");
            reveal_strlit(",\"deliv_ns\":");
            reveal_strlit(",\"tie\":");
            reveal_strlit(",\"payload\":");
            reveal_strlit("}");
            assert(unbroken("{\"kind\":\"delivered\",\"src\":"@) && unbroken(",\"dst\":"@));
            assert(unbroken(",\"deliv_ns\":"@) && unbroken(",\"tie\":"@));
            assert(unbroken(",\"payload\":"@) && unbroken("}"@));
        },
    }
}

proof fn lemma_unbroken_send(e: EventView)
    requires
        e is Send,
    ensures
        unbroken(log::event_json(e)),
{
    broadcast use {
        lemma_unbroken_add,
        lemma_unbroken_number,
        lemma_unbroken_string,
        lemma_unbroken_addr,
    };

    if let EventView::Send { conn, src, dst, chan_seq, send_vt, payload, outcome } = e {
        reveal_strlit("{\"k\":\"send\",\"conn\":");
        reveal_strlit(",\"src\":");
        reveal_strlit(",\"dst\":");
        reveal_strlit(",\"chan_seq\":");
        reveal_strlit(",\"send_vt\":");
        reveal_strlit(",\"payload\":");
        reveal_strlit(",\"outcome\":");
        reveal_strlit("}");
        assert(unbroken("{\"k\":\"send\",\"conn\":"@) && unbroken(",\"src\":"@));
        assert(unbroken(",\"dst\":"@) && unbroken(",\"chan_seq\":"@));
        assert(unbroken(",\"send_vt\":"@));
        assert(unbroken(log::send_vt_json(send_vt)));
        assert(unbroken(",\"payload\":"@) && unbroken(",\"outcome\":"@) && unbroken("}"@));
        lemma_unbroken_sent(outcome);
    }
}

proof fn lemma_unbroken_event(e: EventView)
    ensures
        unbroken(log::event_json(e)),
{
    broadcast use {
        lemma_unbroken_add,
        lemma_unbroken_number,
        lemma_unbroken_string,
        lemma_unbroken_addr,
    };

    reveal_strlit("}");
    assert(unbroken("}"@));
    match e {
        EventView::Connect { conn } => {
            reveal_strlit("{\"k\":\"connect\",\"conn\":");
            assert(unbroken("{\"k\":\"connect\",\"conn\":"@));
        },
        EventView::Hello { conn, node } => {
            reveal_strlit("{\"k\":\"hello\",\"conn\":");
            reveal_strlit(",\"node\":");
            assert(unbroken("{\"k\":\"hello\",\"conn\":"@) && unbroken(",\"node\":"@));
        },
        EventView::Bind { conn, addr } => {
            reveal_strlit("{\"k\":\"bind\",\"conn\":");
            reveal_strlit(",\"addr\":");
            assert(unbroken("{\"k\":\"bind\",\"conn\":"@) && unbroken(",\"addr\":"@));
        },
        EventView::Send { .. } => {
            lemma_unbroken_send(e);
        },
        EventView::Recv { conn, blocking, outcome } => {
            reveal_strlit("{\"k\":\"recv\",\"conn\":");
            reveal_strlit(",\"blocking\":");
            reveal_strlit("true");
            reveal_strlit("false");
            reveal_strlit(",\"outcome\":");
            assert(unbroken("{\"k\":\"recv\",\"conn\":"@) && unbroken(",\"blocking\":"@));
            assert(unbroken(json::bool_json(blocking)) && unbroken(",\"outcome\":"@));
            lemma_unbroken_got(outcome);
        },
        EventView::Disconnect { conn } => {
            reveal_strlit("{\"k\":\"disconnect\",\"conn\":");
            assert(unbroken("{\"k\":\"disconnect\",\"conn\":"@));
        },
        EventView::Violation { rule, message } => {
            reveal_strlit("{\"k\":\"violation\",\"invariant\":");
            reveal_strlit(",\"message\":");
            assert(unbroken("{\"k\":\"violation\",\"invariant\":"@));
            assert(unbroken(",\"message\":"@));
        },
        EventView::End { events, sent, dropped } => {
            reveal_strlit("{\"k\":\"end\",\"events\":");
            reveal_strlit(",\"sent\":");
            reveal_strlit(",\"dropped\":");
            assert(unbroken("{\"k\":\"end\",\"events\":"@));
            assert(unbroken(",\"sent\":"@) && unbroken(",\"dropped\":"@));
        },
    }
}

/// A record is one line, which ends in a brace.
proof fn lemma_record_line(r: RecordView)
    ensures
        unbroken(log::record_json(r)),
        log::record_json(r).len() > 0,
        log::record_json(r).last() == '}',
{
    broadcast use {lemma_unbroken_add, lemma_unbroken_number, lemma_unbroken_string};

    reveal_strlit("{\"op\":");
    reveal_strlit(",\"vt\":");
    reveal_strlit(",\"e\":");
    reveal_strlit(",\"chain\":");
    reveal_strlit("}");
    assert(unbroken("{\"op\":"@) && unbroken(",\"vt\":"@) && unbroken(",\"e\":"@));
    assert(unbroken(",\"chain\":"@) && unbroken("}"@));
    lemma_unbroken_event(r.e);
    assert(unbroken(log::canon_open(r.op, r.vt, r.e)));
}

proof fn lemma_unbroken_meta(m: MetaView)
    ensures
        unbroken(log::meta_json(m)),
{
    broadcast use {lemma_unbroken_add, lemma_unbroken_number, lemma_unbroken_string};

    reveal_strlit("\"recorded_unix_ms\":");
    reveal_strlit("\"weft_version\":");
    reveal_strlit("\"label\":");
    reveal_strlit(",");
    reveal_strlit("{");
    reveal_strlit("}");
    assert(unbroken("\"recorded_unix_ms\":"@) && unbroken("\"weft_version\":"@));
    assert(unbroken("\"label\":"@) && unbroken("{"@) && unbroken("}"@));
    assert(unbroken(log::comma(true)) && unbroken(log::comma(false)));
}

/// A header is one line, which begins and ends with a brace.
proof fn lemma_header_line(h: HeaderView)
    ensures
        unbroken(log::header_json(h)),
        log::header_json(h).len() > 0,
        log::header_json(h)[0] == '{',
        log::header_json(h).last() == '}',
{
    broadcast use {lemma_unbroken_add, lemma_unbroken_number, lemma_unbroken_string};

    reveal_strlit("{\"format\":");
    reveal_strlit(",\"version\":");
    reveal_strlit(",\"seed\":");
    reveal_strlit(",\"net\":");
    reveal_strlit(",\"window_ns\":");
    reveal_strlit(",\"meta\":");
    reveal_strlit("}");
    assert(unbroken("{\"format\":"@) && unbroken(",\"version\":"@) && unbroken(",\"seed\":"@));
    assert(unbroken(",\"net\":"@) && unbroken(",\"window_ns\":"@) && unbroken(",\"meta\":"@));
    assert(unbroken("}"@));
    assert(unbroken(log::window_json(h.window_ns)));
    lemma_unbroken_meta(h.meta);
}

// ---------------------------------------------------------------------------
// Bytes
// ---------------------------------------------------------------------------

proof fn lemma_encode_add(a: Seq<char>, b: Seq<char>)
    ensures
        utf8::encode_utf8(a + b) == utf8::encode_utf8(a) + utf8::encode_utf8(b),
    decreases a.len(),
{
    if a.len() == 0 {
        assert(a + b =~= b);
        assert(utf8::encode_utf8(a) + utf8::encode_utf8(b) =~= utf8::encode_utf8(b));
    } else {
        let t = a.drop_first();
        assert((a + b).drop_first() =~= t + b);
        lemma_encode_add(t, b);
        let c = utf8::encode_scalar(a[0] as u32);
        assert((c + utf8::encode_utf8(t)) + utf8::encode_utf8(b) =~= c + (utf8::encode_utf8(t)
            + utf8::encode_utf8(b)));
    }
}

/// A line feed and a brace are a byte each, and no other character's bytes
/// hold a line feed.
proof fn lemma_scalar_bytes(c: char)
    ensures
        utf8::encode_scalar(c as u32).len() > 0,
        (c as u32) < 128 ==> utf8::encode_scalar(c as u32) == seq![(c as u32) as u8],
        c != '\n' ==> forall|i: int|
            0 <= i < utf8::encode_scalar(c as u32).len() ==> #[trigger] utf8::encode_scalar(
                c as u32,
            )[i] != 10,
{
    let v = c as u32;
    let e = utf8::encode_scalar(v);
    utf8::char_is_scalar(c);
    if utf8::has_width_1_encoding(v) {
        assert(v < 128 ==> (v & 0x7F) as u8 == v as u8) by (bit_vector);
        assert(v < 128 && v as u8 == 10u8 ==> v == 10u32) by (bit_vector);
    } else {
        let a = (v & 0x3F) as u8;
        let b = ((v >> 6) & 0x3F) as u8;
        let d = ((v >> 12) & 0x3F) as u8;
        let f = ((v >> 6) & 0x1F) as u8;
        let g = ((v >> 12) & 0x0F) as u8;
        let h = ((v >> 18) & 0x7) as u8;
        assert(0x80 | a >= 128 && 0x80 | b >= 128 && 0x80 | d >= 128) by (bit_vector);
        assert(0xC0 | f >= 128 && 0xE0 | g >= 128 && 0xF0 | h >= 128) by (bit_vector);
        assert(forall|i: int| 0 <= i < e.len() ==> #[trigger] e[i] >= 128);
    }
}

proof fn lemma_no_feed(s: Seq<char>)
    requires
        unbroken(s),
    ensures
        forall|i: int|
            0 <= i < utf8::encode_utf8(s).len() ==> #[trigger] utf8::encode_utf8(s)[i] != 10,
    decreases s.len(),
{
    if s.len() > 0 {
        let t = s.drop_first();
        let c = utf8::encode_scalar(s[0] as u32);
        assert forall|i: int| 0 <= i < t.len() implies #[trigger] t[i] != '\n' by {
            assert(t[i] == s[i + 1]);
        }
        lemma_no_feed(t);
        lemma_scalar_bytes(s[0]);
        let b = utf8::encode_utf8(s);
        assert forall|i: int| 0 <= i < b.len() implies #[trigger] b[i] != 10 by {
            if i < c.len() {
                assert(b[i] == c[i]);
            } else {
                assert(b[i] == utf8::encode_utf8(t)[i - c.len()]);
            }
        }
    }
}

/// A text that ends in a brace ends so in bytes.
proof fn lemma_last_byte(s: Seq<char>)
    requires
        s.len() > 0,
        s.last() == '}',
    ensures
        utf8::encode_utf8(s).len() > 0,
        utf8::encode_utf8(s).last() == 125,
{
    let t = s.drop_last();
    assert(s =~= t + seq!['}']);
    lemma_encode_add(t, seq!['}']);
    lemma_one('}');
}

proof fn lemma_one(c: char)
    requires
        (c as u32) < 128,
    ensures
        utf8::encode_utf8(seq![c]) == seq![(c as u32) as u8],
{
    lemma_scalar_bytes(c);
    let s = seq![c];
    assert(s.drop_first() =~= Seq::<char>::empty());
    assert(utf8::encode_utf8(s.drop_first()) =~= Seq::<u8>::empty());
    assert(utf8::encode_utf8(s) =~= seq![(c as u32) as u8]);
}

// ---------------------------------------------------------------------------
// Lines
// ---------------------------------------------------------------------------

/// Lines as a log has them.
pub open spec fn proper(lines: Seq<Seq<char>>) -> bool {
    forall|i: int|
        0 <= i < lines.len() ==> (#[trigger] lines[i]).len() > 0 && unbroken(lines[i])
            && lines[i].last() == '}'
}

/// The bytes of each line.
pub open spec fn encoded(lines: Seq<Seq<char>>) -> Seq<Seq<u8>> {
    Seq::new(lines.len(), |i: int| utf8::encode_utf8(lines[i]))
}

proof fn lemma_newline_behind(b: Seq<u8>, i: int, j: int)
    requires
        0 <= i <= j < b.len(),
        b[j] == 10,
        forall|k: int| i <= k < j ==> b[k] != 10,
    ensures
        bytes::newline_from(b, i) == j,
    decreases j - i,
{
    if i < j {
        lemma_newline_behind(b, i + 1, j);
    }
}

/// The bytes of the first `k` lines begin those of more.
proof fn lemma_joined_prefix(lines: Seq<Seq<char>>, k: int, n: int) -> (rest: Seq<u8>)
    requires
        0 <= k <= n <= lines.len(),
    ensures
        utf8::encode_utf8(log::joined(lines, n)) == utf8::encode_utf8(log::joined(lines, k)) + rest,
    decreases n,
{
    let head = utf8::encode_utf8(log::joined(lines, k));
    if k == n {
        assert(head + Seq::<u8>::empty() =~= head);
        Seq::empty()
    } else {
        let r = lemma_joined_prefix(lines, k, n - 1);
        let x = lines[n - 1].push('\n');
        lemma_encode_add(log::joined(lines, n - 1), x);
        let e = utf8::encode_utf8(x);
        assert((head + r) + e =~= head + (r + e));
        r + e
    }
}

/// From behind the first `k` lines on, the rest of the lines are found.
proof fn lemma_lines_found(lines: Seq<Seq<char>>, k: int)
    requires
        0 <= k <= lines.len(),
        proper(lines),
    ensures
        ({
            let b = utf8::encode_utf8(log::joined(lines, lines.len() as int));
            let at = utf8::encode_utf8(log::joined(lines, k)).len() as int;
            at <= b.len() && bytes::lines_from(b, at) == encoded(lines).skip(k)
        }),
    decreases lines.len() - k,
{
    let n = lines.len() as int;
    let b = utf8::encode_utf8(log::joined(lines, n));
    let head = utf8::encode_utf8(log::joined(lines, k));
    let at = head.len() as int;
    if k == n {
        assert(encoded(lines).skip(n) =~= Seq::<Seq<u8>>::empty());
    } else {
        lemma_lines_found(lines, k + 1);
        let line = lines[k];
        let e = utf8::encode_utf8(line);
        let rest = lemma_joined_prefix(lines, k + 1, n);
        assert(log::joined(lines, k + 1) == log::joined(lines, k) + line.push('\n'));
        lemma_encode_add(log::joined(lines, k), line.push('\n'));
        assert(line.push('\n') =~= line + seq!['\n']);
        lemma_encode_add(line, seq!['\n']);
        lemma_one('\n');
        lemma_no_feed(line);
        lemma_last_byte(line);
        let j = at + e.len();
        assert(b == (head + (e + seq![10u8])) + rest);
        assert(b[j] == 10);
        assert forall|i: int| at <= i < j implies b[i] != 10 by {
            assert(b[i] == e[i - at]);
        }
        lemma_newline_behind(b, at, j);
        assert(b.subrange(at, j) =~= e);
        assert(utf8::encode_utf8(log::joined(lines, k + 1)).len() == j + 1);
        assert(encoded(lines).skip(k) =~= seq![e] + encoded(lines).skip(k + 1));
    }
}

proof fn lemma_texts_back(lines: Seq<Seq<char>>, n: int)
    requires
        0 <= n <= lines.len(),
    ensures
        bytes::texts_of(encoded(lines), n) == lines.take(n),
    decreases n,
{
    if n > 0 {
        lemma_texts_back(lines, n - 1);
        let s = lines[n - 1];
        utf8::encode_utf8_valid_utf8(s);
        utf8::encode_utf8_decode_utf8(s);
        assert(encoded(lines)[n - 1] == utf8::encode_utf8(s));
        assert(lines.take(n) =~= lines.take(n - 1).push(s));
    } else {
        assert(lines.take(0) =~= Seq::<Seq<char>>::empty());
    }
}

/// A log file reads back as it was written: the bytes of a written log are not
/// taken for compressed ones, split into exactly the lines that were written,
/// and every line is text.
pub proof fn law_file_reads_back(h: HeaderView, events: Seq<(u64, EventView)>)
    requires
        events.len() < u64::MAX,
    ensures
        ({
            let b = utf8::encode_utf8(log::written(h, events, events.len() as int).out);
            let found = bytes::lines_from(b, 0);
            &&& bytes::unpacked(b) == Ok::<Seq<u8>, Seq<char>>(b)
            &&& bytes::texts_of(found, found.len() as int) == log::written_lines(h, events)
            &&& found.len() == events.len() + 1
        }),
{
    let lines = log::written_lines(h, events);
    let n = lines.len() as int;
    log::lemma_written(h, events, events.len() as int);
    assert forall|i: int| 0 <= i < n implies (#[trigger] lines[i]).len() > 0 && unbroken(lines[i])
        && lines[i].last() == '}' by {
        if i == 0 {
            lemma_header_line(h);
        } else {
            lemma_record_line(log::written_record(h, events, i - 1));
        }
    }
    let b = utf8::encode_utf8(log::joined(lines, n));
    lemma_lines_found(lines, 0);
    assert(utf8::encode_utf8(log::joined(lines, 0)) =~= Seq::<u8>::empty());
    assert(encoded(lines).skip(0) =~= encoded(lines));
    lemma_texts_back(lines, n);
    assert(lines.take(n) =~= lines);
    lemma_header_line(h);
    lemma_first_byte(lines);
}

proof fn lemma_first_byte(lines: Seq<Seq<char>>)
    requires
        lines.len() > 0,
        lines[0].len() > 0,
        lines[0][0] == '{',
    ensures
        ({
            let b = utf8::encode_utf8(log::joined(lines, lines.len() as int));
            b.len() > 0 && b[0] == 123
        }),
{
    let rest = lemma_joined_prefix(lines, 1, lines.len() as int);
    reveal_with_fuel(log::joined, 2);
    let s = lines[0].push('\n');
    assert(log::joined(lines, 1) =~= s);
    assert(s[0] == '{');
    lemma_scalar_bytes('{');
}

} // verus!
