//! Reading the compact network-condition text: comma-separated `key=value`
//! clauses. Within a `partition`, groups are separated by `|` and the nodes of
//! a group by `+`. Examples:
//! - `latency=uniform:1000-5000,loss=0.1`
//! - `latency=exp:3000,bw=1000000`
//! - `partition=0+1|2`

use vstd::prelude::*;

use crate::fault;
use crate::fault::{FaultModel, Latency, Loss, ModelView, Partition};
use crate::text;
use crate::text::{
    chars_of, push_dec, push_text, quoted, read_uint, same, split_chars, split_once_chars,
    string_of, trim_chars,
};

verus! {

/// Why a network-condition text is refused.
#[derive(Debug, Clone, PartialEq, Eq)]
pub enum ParseError {
    /// A clause is not `key=value`.
    NotKeyValue(String),
    /// The key is not known.
    UnknownKey(String),
    /// The `latency` value is malformed: the value and the reason.
    InvalidLatency(String, String),
    /// The `loss` value is not a probability.
    InvalidLoss(String),
    /// The `bw` value is not an integer.
    InvalidBandwidth(String),
    /// The `partition` value holds a bad node id.
    InvalidPartition(String),
}

/// What a [`ParseError`] says.
pub enum ParseErrorView {
    NotKeyValue(Seq<char>),
    UnknownKey(Seq<char>),
    InvalidLatency(Seq<char>, Seq<char>),
    InvalidLoss(Seq<char>),
    InvalidBandwidth(Seq<char>),
    InvalidPartition(Seq<char>),
}

impl View for ParseError {
    type V = ParseErrorView;

    open spec fn view(&self) -> ParseErrorView {
        match *self {
            ParseError::NotKeyValue(a) => ParseErrorView::NotKeyValue(a@),
            ParseError::UnknownKey(a) => ParseErrorView::UnknownKey(a@),
            ParseError::InvalidLatency(a, b) => ParseErrorView::InvalidLatency(a@, b@),
            ParseError::InvalidLoss(a) => ParseErrorView::InvalidLoss(a@),
            ParseError::InvalidBandwidth(a) => ParseErrorView::InvalidBandwidth(a@),
            ParseError::InvalidPartition(a) => ParseErrorView::InvalidPartition(a@),
        }
    }
}

/// The message for a reader.
pub open spec fn error_text(e: ParseErrorView) -> Seq<char> {
    match e {
        ParseErrorView::NotKeyValue(a) => "network clause "@ + text::debug_form(a)
            + " is not key=value"@,
        ParseErrorView::UnknownKey(a) => "unknown network key "@ + text::debug_form(a),
        ParseErrorView::InvalidLatency(a, why) => "latency "@ + text::debug_form(a) + ": "@ + why,
        ParseErrorView::InvalidLoss(a) => "loss "@ + text::debug_form(a)
            + " is not a probability in [0,1]"@,
        ParseErrorView::InvalidBandwidth(a) => "bw "@ + text::debug_form(a)
            + " is not an integer"@,
        ParseErrorView::InvalidPartition(a) => "partition: bad node id "@ + text::debug_form(a),
    }
}

fn around(before: &str, value: &str, after: &str) -> (s: String)
    ensures
        s@ == before@ + text::debug_form(value@) + after@,
{
    let mut s = String::new();
    push_text(&mut s, before);
    let q = quoted(value);
    push_text(&mut s, q.as_str());
    push_text(&mut s, after);
    assert(s@ =~= before@ + text::debug_form(value@) + after@);
    s
}

impl ParseError {
    /// The message for a reader.
    #[must_use]
    pub fn text(&self) -> (s: String)
        ensures
            s@ == error_text(self@),
    {
        proof {
            reveal_strlit("");
            assert(""@ =~= Seq::<char>::empty());
        }
        match self {
            ParseError::NotKeyValue(a) => around(
                "network clause ",
                a.as_str(),
                " is not key=value",
            ),
            ParseError::UnknownKey(a) => {
                let s = around("unknown network key ", a.as_str(), "");
                assert(s@ =~= error_text(self@));
                s
            },
            ParseError::InvalidLatency(a, why) => {
                let mut s = around("latency ", a.as_str(), ": ");
                push_text(&mut s, why.as_str());
                s
            },
            ParseError::InvalidLoss(a) => around(
                "loss ",
                a.as_str(),
                " is not a probability in [0,1]",
            ),
            ParseError::InvalidBandwidth(a) => around("bw ", a.as_str(), " is not an integer"),
            ParseError::InvalidPartition(a) => {
                let s = around("partition: bad node id ", a.as_str(), "");
                assert(s@ =~= error_text(self@));
                s
            },
        }
    }
}

// ---------------------------------------------------------------------------
// What a text means
// ---------------------------------------------------------------------------

/// A number of nanoseconds, or why `s` is none.
pub open spec fn ns_of(s: Seq<char>) -> Result<u64, Seq<char>> {
    match text::parse_uint(text::trim(s), 10, u64::MAX as int) {
        Some(n) => Ok(n as u64),
        None => Err(text::debug_form(s) + " is not an integer (nanoseconds)"@),
    }
}

/// The kind and the argument of a latency value: what stands before and after
/// its first colon.
pub open spec fn kind_and_arg(v: Seq<char>) -> (Seq<char>, Seq<char>) {
    match text::split_once(v, ':') {
        Some(p) => p,
        None => (v, Seq::empty()),
    }
}

/// The latency that `v` writes, or why it writes none.
pub open spec fn latency_of(v: Seq<char>) -> Result<Latency, Seq<char>> {
    let (kind, arg) = kind_and_arg(v);
    if kind == "fixed"@ || kind == "const"@ {
        match ns_of(arg) {
            Ok(d) => Ok(Latency::Fixed(d)),
            Err(e) => Err(e),
        }
    } else if kind == "uniform"@ || kind == "unif"@ {
        match text::split_once(arg, '-') {
            None => Err("needs lo-hi"@),
            Some((a, b)) => match ns_of(a) {
                Err(e) => Err(e),
                Ok(lo) => match ns_of(b) {
                    Err(e) => Err(e),
                    Ok(hi) => if hi < lo {
                        Err(
                            "hi<lo ("@ + text::dec(hi as nat) + seq!['<'] + text::dec(lo as nat)
                                + seq![')'],
                        )
                    } else {
                        Ok(Latency::Uniform { lo, hi })
                    },
                },
            },
        }
    } else if kind == "exp"@ || kind == "exponential"@ {
        match ns_of(arg) {
            Ok(mean) => Ok(Latency::Exponential { mean }),
            Err(e) => Err(e),
        }
    } else {
        Err("unknown kind "@ + text::debug_form(kind))
    }
}

/// The node ids among the first `n` pieces, blank ones left out, or the first
/// piece that is no id.
pub open spec fn nodes_of(pieces: Seq<Seq<char>>, n: int) -> Result<Seq<u32>, Seq<char>>
    decreases n,
{
    if n <= 0 {
        Ok(Seq::empty())
    } else {
        match nodes_of(pieces, n - 1) {
            Err(e) => Err(e),
            Ok(nodes) => {
                let t = text::trim(pieces[n - 1]);
                if t.len() == 0 {
                    Ok(nodes)
                } else {
                    match text::parse_uint(t, 10, u32::MAX as int) {
                        Some(id) => Ok(nodes.push(id as u32)),
                        None => Err(t),
                    }
                }
            },
        }
    }
}

/// The groups among the first `n` sides, empty ones left out, or the first
/// piece that is no id.
pub open spec fn groups_of(sides: Seq<Seq<char>>, n: int) -> Result<Seq<Seq<u32>>, Seq<char>>
    decreases n,
{
    if n <= 0 {
        Ok(Seq::empty())
    } else {
        match groups_of(sides, n - 1) {
            Err(e) => Err(e),
            Ok(groups) => {
                let pieces = text::split(sides[n - 1], '+');
                match nodes_of(pieces, pieces.len() as int) {
                    Err(e) => Err(e),
                    Ok(nodes) => if nodes.len() == 0 {
                        Ok(groups)
                    } else {
                        Ok(groups.push(nodes))
                    },
                }
            },
        }
    }
}

/// The groups that a partition value writes.
pub open spec fn partition_of(v: Seq<char>) -> Result<Seq<Seq<u32>>, Seq<char>> {
    let sides = text::split(v, '|');
    groups_of(sides, sides.len() as int)
}

/// The text of a loss value: `Some` where the clause is a `loss` clause.
pub open spec fn loss_text(clause: Seq<char>) -> Option<Seq<char>> {
    match text::split_once(text::trim(clause), '=') {
        Some((k, v)) => if text::trim(k) == "loss"@ {
            Some(text::trim(v))
        } else {
            None
        },
        None => None,
    }
}

/// The model after one more clause. `reading` is the double-precision number,
/// by its bits, that a loss value reads as; `None` where it reads as none.
pub open spec fn with_clause(m: ModelView, clause: Seq<char>, reading: Option<u64>) -> Result<
    ModelView,
    ParseErrorView,
> {
    let t = text::trim(clause);
    if t.len() == 0 {
        Ok(m)
    } else {
        match text::split_once(t, '=') {
            None => Err(ParseErrorView::NotKeyValue(t)),
            Some((k, v)) => {
                let key = text::trim(k);
                if key == "latency"@ || key == "lat"@ {
                    match latency_of(text::trim(v)) {
                        Ok(latency) => Ok(ModelView { latency, ..m }),
                        Err(why) => Err(ParseErrorView::InvalidLatency(text::trim(v), why)),
                    }
                } else if key == "loss"@ {
                    match reading {
                        Some(bits) => if fault::is_probability(bits) {
                            Ok(ModelView { loss: bits, ..m })
                        } else {
                            Err(ParseErrorView::InvalidLoss(v))
                        },
                        None => Err(ParseErrorView::InvalidLoss(v)),
                    }
                } else if key == "bw"@ || key == "bandwidth"@ {
                    match text::parse_uint(text::trim(v), 10, u64::MAX as int) {
                        Some(n) => Ok(ModelView { bandwidth_bps: n as u64, ..m }),
                        None => Err(ParseErrorView::InvalidBandwidth(v)),
                    }
                } else if key == "partition"@ || key == "part"@ {
                    match partition_of(text::trim(v)) {
                        Ok(groups) => Ok(ModelView { groups, ..m }),
                        Err(id) => Err(ParseErrorView::InvalidPartition(id)),
                    }
                } else {
                    Err(ParseErrorView::UnknownKey(key))
                }
            },
        }
    }
}

pub open spec fn reliable_model(seed: u64) -> ModelView {
    ModelView {
        seed,
        latency: Latency::Fixed(0),
        loss: 0,
        bandwidth_bps: 0,
        groups: Seq::empty(),
    }
}

/// The model that the first `n` clauses describe, or the error of the first
/// malformed one.
pub open spec fn model_of(
    seed: u64,
    clauses: Seq<Seq<char>>,
    readings: Seq<Option<u64>>,
    n: int,
) -> Result<ModelView, ParseErrorView>
    decreases n,
{
    if n <= 0 {
        Ok(reliable_model(seed))
    } else {
        match model_of(seed, clauses, readings, n - 1) {
            Err(e) => Err(e),
            Ok(m) => with_clause(m, clauses[n - 1], readings[n - 1]),
        }
    }
}

/// The clauses of a network-condition text.
pub open spec fn clauses_of(spec: Seq<char>) -> Seq<Seq<char>> {
    text::split(spec, ',')
}

// ---------------------------------------------------------------------------
// Reading
// ---------------------------------------------------------------------------

/// For each clause of `spec`, the text of its loss value, where it is a
/// `loss` clause: what the caller reads as a number before [`parse`].
pub fn loss_values(spec: &str) -> (r: Vec<Option<String>>)
    ensures
        r@.len() == clauses_of(spec@).len(),
        forall|i: int|
            0 <= i < r@.len() ==> match #[trigger] r@[i] {
                Some(t) => loss_text(clauses_of(spec@)[i]) == Some(t@),
                None => loss_text(clauses_of(spec@)[i]) is None,
            },
{
    let clauses = split_chars(&chars_of(spec), ',');
    let mut r: Vec<Option<String>> = Vec::new();
    let mut i: usize = 0;
    while i < clauses.len()
        invariant
            text::views(clauses@) == clauses_of(spec@),
            i <= clauses@.len(),
            r@.len() == i,
            forall|j: int|
                0 <= j < i ==> match #[trigger] r@[j] {
                    Some(t) => loss_text(clauses_of(spec@)[j]) == Some(t@),
                    None => loss_text(clauses_of(spec@)[j]) is None,
                },
        decreases clauses@.len() - i,
    {
        let t = trim_chars(&clauses[i]);
        assert(clauses_of(spec@)[i as int] == clauses@[i as int]@);
        let v: Option<String> = match split_once_chars(&t, '=') {
            Some((k, v)) => {
                if same(&trim_chars(&k), "loss") {
                    Some(string_of(&trim_chars(&v)))
                } else {
                    None
                }
            },
            None => None,
        };
        r.push(v);
        i = i + 1;
    }
    assert(r@.len() == clauses_of(spec@).len());
    r
}

fn parse_ns(s: &Vec<char>) -> (r: Result<u64, String>)
    ensures
        match r {
            Ok(n) => ns_of(s@) == Ok::<u64, Seq<char>>(n),
            Err(e) => ns_of(s@) == Err::<u64, Seq<char>>(e@),
        },
{
    match read_uint(&trim_chars(s), 10, u64::MAX) {
        Some(n) => Ok(n),
        None => {
            let mut e = quoted(string_of(s).as_str());
            push_text(&mut e, " is not an integer (nanoseconds)");
            Err(e)
        },
    }
}

fn parse_latency(v: &Vec<char>) -> (r: Result<Latency, String>)
    ensures
        match r {
            Ok(l) => latency_of(v@) == Ok::<Latency, Seq<char>>(l),
            Err(e) => latency_of(v@) == Err::<Latency, Seq<char>>(e@),
        },
{
    let (kind, arg): (Vec<char>, Vec<char>) = match split_once_chars(v, ':') {
        Some(p) => p,
        None => (crate::text::sub_chars(v, 0, v.len()), Vec::new()),
    };
    assert((kind@, arg@) == kind_and_arg(v@)) by {
        assert(v@.subrange(0, v@.len() as int) =~= v@);
    }
    if same(&kind, "fixed") || same(&kind, "const") {
        match parse_ns(&arg) {
            Ok(d) => Ok(Latency::Fixed(d)),
            Err(e) => Err(e),
        }
    } else if same(&kind, "uniform") || same(&kind, "unif") {
        match split_once_chars(&arg, '-') {
            None => Err(crate::text::copy_text("needs lo-hi")),
            Some((a, b)) => {
                let lo: u64 = match parse_ns(&a) {
                    Ok(n) => n,
                    Err(e) => {
                        return Err(e);
                    },
                };
                let hi: u64 = match parse_ns(&b) {
                    Ok(n) => n,
                    Err(e) => {
                        return Err(e);
                    },
                };
                if hi < lo {
                    let mut e = crate::text::copy_text("hi<lo (");
                    push_dec(&mut e, hi);
                    e.push('<');
                    push_dec(&mut e, lo);
                    e.push(')');
                    assert(e@ =~= "hi<lo ("@ + text::dec(hi as nat) + seq!['<'] + text::dec(
                        lo as nat,
                    ) + seq![')']);
                    Err(e)
                } else {
                    Ok(Latency::Uniform { lo, hi })
                }
            },
        }
    } else if same(&kind, "exp") || same(&kind, "exponential") {
        match parse_ns(&arg) {
            Ok(mean) => Ok(Latency::Exponential { mean }),
            Err(e) => Err(e),
        }
    } else {
        let mut e = crate::text::copy_text("unknown kind ");
        let q = quoted(string_of(&kind).as_str());
        push_text(&mut e, q.as_str());
        Err(e)
    }
}

fn parse_nodes(side: &Vec<char>) -> (r: Result<Vec<u32>, String>)
    ensures
        match r {
            Ok(nodes) => nodes_of(text::split(side@, '+'), text::split(side@, '+').len() as int)
                == Ok::<Seq<u32>, Seq<char>>(nodes@),
            Err(e) => nodes_of(text::split(side@, '+'), text::split(side@, '+').len() as int)
                == Err::<Seq<u32>, Seq<char>>(e@),
        },
{
    let pieces = split_chars(side, '+');
    let ghost pv = text::split(side@, '+');
    let mut nodes: Vec<u32> = Vec::new();
    let mut i: usize = 0;
    while i < pieces.len()
        invariant
            text::views(pieces@) == pv,
            pv == text::split(side@, '+'),
            i <= pieces@.len(),
            nodes_of(pv, i as int) == Ok::<Seq<u32>, Seq<char>>(nodes@),
        decreases pieces@.len() - i,
    {
        let t = trim_chars(&pieces[i]);
        assert(pv[i as int] == pieces@[i as int]@);
        if t.len() > 0 {
            match read_uint(&t, 10, u32::MAX as u64) {
                Some(id) => {
                    nodes.push(id as u32);
                },
                None => {
                    proof {
                        assert(nodes_of(pv, i as int + 1) == Err::<Seq<u32>, Seq<char>>(t@));
                        lemma_nodes_error(pv, i as int + 1, pv.len() as int);
                    }
                    return Err(string_of(&t));
                },
            }
        }
        i = i + 1;
    }
    assert(i == pv.len());
    Ok(nodes)
}

proof fn lemma_nodes_error(pieces: Seq<Seq<char>>, k: int, n: int)
    requires
        0 <= k <= n,
        nodes_of(pieces, k) is Err,
    ensures
        nodes_of(pieces, n) == nodes_of(pieces, k),
    decreases n,
{
    if k < n {
        lemma_nodes_error(pieces, k, n - 1);
    }
}

proof fn lemma_groups_error(sides: Seq<Seq<char>>, k: int, n: int)
    requires
        0 <= k <= n,
        groups_of(sides, k) is Err,
    ensures
        groups_of(sides, n) == groups_of(sides, k),
    decreases n,
{
    if k < n {
        lemma_groups_error(sides, k, n - 1);
    }
}

fn parse_partition(v: &Vec<char>) -> (r: Result<Partition, String>)
    ensures
        match r {
            Ok(p) => partition_of(v@) == Ok::<Seq<Seq<u32>>, Seq<char>>(p@),
            Err(e) => partition_of(v@) == Err::<Seq<Seq<u32>>, Seq<char>>(e@),
        },
{
    let sides = split_chars(v, '|');
    let ghost sv = text::split(v@, '|');
    let mut groups: Vec<Vec<u32>> = Vec::new();
    let mut i: usize = 0;
    assert(fault::group_views(groups@) =~= Seq::<Seq<u32>>::empty());
    while i < sides.len()
        invariant
            text::views(sides@) == sv,
            sv == text::split(v@, '|'),
            i <= sides@.len(),
            groups_of(sv, i as int) == Ok::<Seq<Seq<u32>>, Seq<char>>(
                fault::group_views(groups@),
            ),
        decreases sides@.len() - i,
    {
        assert(sv[i as int] == sides@[i as int]@);
        match parse_nodes(&sides[i]) {
            Ok(nodes) => {
                if nodes.len() > 0 {
                    let ghost before = fault::group_views(groups@);
                    let ghost nv = nodes@;
                    groups.push(nodes);
                    assert(fault::group_views(groups@) =~= before.push(nv));
                }
            },
            Err(e) => {
                proof {
                    assert(groups_of(sv, i as int + 1) == Err::<Seq<Seq<u32>>, Seq<char>>(e@));
                    lemma_groups_error(sv, i as int + 1, sv.len() as int);
                }
                return Err(e);
            },
        }
        i = i + 1;
    }
    assert(i == sv.len());
    Ok(Partition::from_groups(groups))
}

proof fn lemma_model_error(
    seed: u64,
    clauses: Seq<Seq<char>>,
    readings: Seq<Option<u64>>,
    k: int,
    n: int,
)
    requires
        0 <= k <= n,
        model_of(seed, clauses, readings, k) is Err,
    ensures
        model_of(seed, clauses, readings, n) == model_of(seed, clauses, readings, k),
    decreases n,
{
    if k < n {
        lemma_model_error(seed, clauses, readings, k, n - 1);
    }
}

/// Apply one clause to the model.
fn apply_clause(m: FaultModel, clause: &Vec<char>, reading: Option<u64>) -> (r: Result<
    FaultModel,
    ParseError,
>)
    ensures
        match r {
            Ok(n) => with_clause(m@, clause@, reading) == Ok::<ModelView, ParseErrorView>(n@),
            Err(e) => with_clause(m@, clause@, reading) == Err::<ModelView, ParseErrorView>(e@),
        },
{
    let mut m = m;
    let t = trim_chars(clause);
    if t.len() == 0 {
        return Ok(m);
    }
    let (k, v): (Vec<char>, Vec<char>) = match split_once_chars(&t, '=') {
        Some(p) => p,
        None => {
            return Err(ParseError::NotKeyValue(string_of(&t)));
        },
    };
    let key = trim_chars(&k);
    let value = trim_chars(&v);
    if same(&key, "latency") || same(&key, "lat") {
        match parse_latency(&value) {
            Ok(l) => {
                m.latency = l;
                Ok(m)
            },
            Err(why) => Err(ParseError::InvalidLatency(string_of(&value), why)),
        }
    } else if same(&key, "loss") {
        let loss: Option<Loss> = match reading {
            Some(bits) => Loss::from_bits(bits),
            None => None,
        };
        match loss {
            Some(l) => {
                m.loss = l;
                Ok(m)
            },
            None => Err(ParseError::InvalidLoss(string_of(&v))),
        }
    } else if same(&key, "bw") || same(&key, "bandwidth") {
        match read_uint(&value, 10, u64::MAX) {
            Some(n) => {
                m.bandwidth_bps = n;
                Ok(m)
            },
            None => Err(ParseError::InvalidBandwidth(string_of(&v))),
        }
    } else if same(&key, "partition") || same(&key, "part") {
        match parse_partition(&value) {
            Ok(p) => {
                m.partition = p;
                Ok(m)
            },
            Err(id) => Err(ParseError::InvalidPartition(id)),
        }
    } else {
        Err(ParseError::UnknownKey(string_of(&key)))
    }
}

/// Read a network-condition text into a [`FaultModel`] for `seed`; the empty
/// text is a reliable network. `readings` gives, clause by clause, the bits of
/// the double-precision number that the loss value of a `loss` clause reads as
/// (see [`loss_values`]).
pub fn parse(seed: u64, spec: &str, readings: &Vec<Option<u64>>) -> (r: Result<
    FaultModel,
    ParseError,
>)
    requires
        readings@.len() == clauses_of(spec@).len(),
    ensures
        match r {
            Ok(m) => model_of(seed, clauses_of(spec@), readings@, readings@.len() as int) == Ok::<
                ModelView,
                ParseErrorView,
            >(m@),
            Err(e) => model_of(seed, clauses_of(spec@), readings@, readings@.len() as int) == Err::<
                ModelView,
                ParseErrorView,
            >(e@),
        },
{
    let clauses = split_chars(&chars_of(spec), ',');
    let ghost cv = clauses_of(spec@);
    let mut m = FaultModel::reliable(seed);
    let mut i: usize = 0;
    while i < clauses.len()
        invariant
            text::views(clauses@) == cv,
            cv == clauses_of(spec@),
            readings@.len() == cv.len(),
            i <= clauses@.len(),
            model_of(seed, cv, readings@, i as int) == Ok::<ModelView, ParseErrorView>(m@),
        decreases clauses@.len() - i,
    {
        assert(cv[i as int] == clauses@[i as int]@);
        match apply_clause(m, &clauses[i], readings[i]) {
            Ok(n) => {
                m = n;
            },
            Err(e) => {
                proof {
                    lemma_model_error(
                        seed,
                        cv,
                        readings@,
                        i as int + 1,
                        cv.len() as int,
                    );
                }
                return Err(e);
            },
        }
        i = i + 1;
    }
    assert(i == cv.len());
    Ok(m)
}

/// The empty text describes a reliable network.
pub proof fn law_empty_is_reliable(seed: u64, readings: Seq<Option<u64>>)
    requires
        readings.len() == 1,
    ensures
        model_of(seed, clauses_of(Seq::empty()), readings, 1) == Ok::<ModelView, ParseErrorView>(
            reliable_model(seed),
        ),
{
    let c = clauses_of(Seq::empty());
    assert(c =~= seq![Seq::<char>::empty()]);
    reveal_with_fuel(model_of, 2);
}

/// A text that is accepted sets nothing but a probability as its loss.
pub proof fn law_loss_is_probability(
    seed: u64,
    clauses: Seq<Seq<char>>,
    readings: Seq<Option<u64>>,
    n: int,
)
    requires
        model_of(seed, clauses, readings, n) is Ok,
    ensures
        fault::is_probability(model_of(seed, clauses, readings, n)->Ok_0.loss),
        model_of(seed, clauses, readings, n)->Ok_0.seed == seed,
    decreases n,
{
    if n > 0 {
        law_loss_is_probability(seed, clauses, readings, n - 1);
    }
}

} // verus!
