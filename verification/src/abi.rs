//! What the command line and the library preloaded into target programs agree
//! on: environment variables, the interleaving strategies, the random-stream
//! domains, and how the run seed is read and expanded.

use vstd::prelude::*;

use crate::text;
use crate::text::{chars_of, sub_chars, same, lower_chars, trim_chars, read_uint};

verus! {

/// Carries the run seed (decimal, or hexadecimal after `0x`). Its presence
/// activates interception in a target process.
pub const ENV_SEED: &'static str = "WEFT_SEED";

/// Enables per-call tracing to standard error (`"1"` enables).
pub const ENV_TRACE: &'static str = "WEFT_TRACE";

/// Overrides the path to the preloaded shared object.
pub const ENV_SHIM: &'static str = "WEFT_SHIM";

/// Selects the interleaving strategy; see [`Strategy`].
pub const ENV_STRATEGY: &'static str = "WEFT_STRATEGY";

/// Disables deterministic thread scheduling when `"0"` or `"off"`.
pub const ENV_SCHED: &'static str = "WEFT_SCHED";

/// Makes a target process print scheduler statistics at exit (`"1"`).
pub const ENV_SCHED_STATS: &'static str = "WEFT_SCHED_STATS";

/// The path or address of the broker. Its presence activates network
/// interception.
pub const ENV_BROKER: &'static str = "WEFT_BROKER";

/// The node index of a target process in the simulated cluster.
pub const ENV_NODE_ID: &'static str = "WEFT_NODE_ID";

/// The host a target process runs on, in a run over several hosts.
pub const ENV_HOST_ID: &'static str = "WEFT_HOST_ID";

/// The width of a sequencing window in nanoseconds, in a windowed run.
pub const ENV_WINDOW_NS: &'static str = "WEFT_WINDOW_NS";

/// The network-condition text, read by the broker.
pub const ENV_NET: &'static str = "WEFT_NET";

/// How the deterministic scheduler picks the next thread. Both strategies are
/// functions of the run seed.
#[derive(Clone, Copy, Debug, PartialEq, Eq, Structural)]
pub enum Strategy {
    /// Uniform selection among the enabled threads.
    Random,
    /// Rotation with an occasional seed-driven perturbation.
    RoundRobin,
}

impl Default for Strategy {
    fn default() -> (r: Self)
        ensures
            r == Strategy::Random,
    {
        Strategy::Random
    }
}

/// The strategy that `s` names: surrounding whitespace and letter case do not
/// matter.
pub open spec fn strategy_named(s: Seq<char>) -> Option<Strategy> {
    let t = text::lower_all(text::trim(s));
    if t == "random"@ || t == "rand"@ {
        Some(Strategy::Random)
    } else if t == "rr"@ || t == "round-robin"@ || t == "roundrobin"@ {
        Some(Strategy::RoundRobin)
    } else {
        None
    }
}

pub open spec fn strategy_name(s: Strategy) -> Seq<char> {
    match s {
        Strategy::Random => "random"@,
        Strategy::RoundRobin => "rr"@,
    }
}

impl Strategy {
    /// Read a strategy name, in any letter case.
    pub fn parse(s: &str) -> (r: Result<Self, &'static str>)
        ensures
            match r {
                Ok(x) => strategy_named(s@) == Some(x),
                Err(e) => strategy_named(s@) is None && e@
                    == "unknown strategy (expected 'random' or 'rr')"@,
            },
    {
        let t = lower_chars(&trim_chars(&chars_of(s)));
        if same(&t, "random") || same(&t, "rand") {
            Ok(Strategy::Random)
        } else if same(&t, "rr") || same(&t, "round-robin") || same(&t, "roundrobin") {
            Ok(Strategy::RoundRobin)
        } else {
            Err("unknown strategy (expected 'random' or 'rr')")
        }
    }

    /// The canonical name, which [`Strategy::parse`] reads back.
    #[must_use]
    pub fn name(self) -> (r: &'static str)
        ensures
            r@ == strategy_name(self),
    {
        match self {
            Strategy::Random => "random",
            Strategy::RoundRobin => "rr",
        }
    }
}

/// The name of a strategy reads back as that strategy.
pub proof fn law_strategy_round_trip(s: Strategy)
    ensures
        strategy_named(strategy_name(s)) == Some(s),
{
    reveal_strlit("random");
    reveal_strlit("rand");
    reveal_strlit("rr");
    reveal_strlit("round-robin");
    reveal_strlit("roundrobin");
    let n = strategy_name(s);
    assert(text::trim_start(n) == n);
    assert(text::trim(n) == n);
    assert(text::lower_all(n) =~= n);
}

/// Independent random streams, one for each intercepted source.
#[derive(Clone, Copy, Debug, PartialEq, Eq, Structural)]
pub enum Domain {
    /// The `rand`, `random` and `drand48` families.
    LibcRand,
    /// `getrandom` and `getentropy`.
    GetRandom,
    /// Reads from the random devices.
    DevRandom,
    /// The sixteen bytes that the kernel hands every process.
    AuxRandom,
    /// The offset applied to the virtual realtime clock.
    ClockOffset,
    /// The scheduler's selection stream.
    Scheduler,
}

impl Domain {
    /// The number of the stream.
    #[must_use]
    pub fn stream(self) -> (r: u64)
        ensures
            r == match self {
                Domain::LibcRand => 0u64,
                Domain::GetRandom => 1,
                Domain::DevRandom => 2,
                Domain::AuxRandom => 3,
                Domain::ClockOffset => 4,
                Domain::Scheduler => 5,
            },
    {
        match self {
            Domain::LibcRand => 0,
            Domain::GetRandom => 1,
            Domain::DevRandom => 2,
            Domain::AuxRandom => 3,
            Domain::ClockOffset => 4,
            Domain::Scheduler => 5,
        }
    }
}

/// The state that follows `state`.
pub open spec fn splitmix_next(state: u64) -> u64 {
    state.wrapping_add(0x9E37_79B9_7F4A_7C15)
}

/// The finalizer of SplitMix64.
pub open spec fn splitmix_mix(z: u64) -> u64 {
    let a = (z ^ (z >> 30)).wrapping_mul(0xBF58_476D_1CE4_E5B9);
    let b = (a ^ (a >> 27)).wrapping_mul(0x94D0_49BB_1331_11EB);
    b ^ (b >> 31)
}

/// What one step from `state` puts out.
pub open spec fn splitmix_out(state: u64) -> u64 {
    splitmix_mix(splitmix_next(state))
}

/// One step of SplitMix64.
#[must_use]
pub fn splitmix64(state: &mut u64) -> (r: u64)
    ensures
        *final(state) == splitmix_next(*old(state)),
        r == splitmix_out(*old(state)),
{
    *state = state.wrapping_add(0x9E37_79B9_7F4A_7C15);
    let z: u64 = *state;
    let a: u64 = (z ^ (z >> 30)).wrapping_mul(0xBF58_476D_1CE4_E5B9);
    let b: u64 = (a ^ (a >> 27)).wrapping_mul(0x94D0_49BB_1331_11EB);
    b ^ (b >> 31)
}

/// `x` in `n` bytes, the least significant first.
pub open spec fn le_bytes(x: nat, n: nat) -> Seq<u8>
    decreases n,
{
    if n == 0 {
        Seq::empty()
    } else {
        seq![(x % 256) as u8] + le_bytes(x / 256, (n - 1) as nat)
    }
}

/// The number that `s` writes, the least significant byte first.
pub open spec fn le_value(s: Seq<u8>) -> nat
    decreases s.len(),
{
    if s.len() == 0 {
        0
    } else {
        s[0] as nat + 256 * le_value(s.drop_first())
    }
}

/// 256 to the power of `n`.
pub open spec fn pow256(n: nat) -> nat
    decreases n,
{
    if n == 0 {
        1
    } else {
        256 * pow256((n - 1) as nat)
    }
}

/// Bytes written least significant first are read back.
pub proof fn lemma_le_round_trip(x: nat, n: nat)
    requires
        x < pow256(n),
    ensures
        le_bytes(x, n).len() == n,
        le_value(le_bytes(x, n)) == x,
    decreases n,
{
    if n > 0 {
        lemma_le_round_trip(x / 256, (n - 1) as nat);
        let b = le_bytes(x, n);
        assert(b.drop_first() =~= le_bytes(x / 256, (n - 1) as nat));
    }
}

pub proof fn lemma_le_len(x: nat, n: nat)
    ensures
        le_bytes(x, n).len() == n,
    decreases n,
{
    if n > 0 {
        lemma_le_len(x / 256, (n - 1) as nat);
    }
}

pub proof fn lemma_le_value_bound(s: Seq<u8>)
    ensures
        le_value(s) < pow256(s.len()),
    decreases s.len(),
{
    if s.len() > 0 {
        lemma_le_value_bound(s.drop_first());
    }
}

/// Append the low `n` bytes of `x`, the least significant first.
pub fn push_le(out: &mut Vec<u8>, x: u64, n: usize)
    ensures
        final(out)@ == old(out)@ + le_bytes(x as nat, n as nat),
{
    let ghost start = out@;
    let mut i: usize = 0;
    let mut rest: u64 = x;
    assert(out@ + le_bytes(rest as nat, n as nat) =~= start + le_bytes(x as nat, n as nat));
    while i < n
        invariant
            i <= n,
            out@ + le_bytes(rest as nat, (n - i) as nat) == start + le_bytes(x as nat, n as nat),
        decreases n - i,
    {
        let ghost before = out@;
        let ghost tail = le_bytes(rest as nat / 256, (n - i - 1) as nat);
        out.push((rest % 256) as u8);
        assert(out@ + tail =~= before + (seq![(rest as nat % 256) as u8] + tail));
        rest = rest / 256;
        i = i + 1;
    }
    assert(out@ + le_bytes(rest as nat, 0) =~= out@);
}

/// The four outputs that follow `seed`.
pub open spec fn seed_word(seed: u64, k: nat) -> u64
    decreases k,
{
    if k == 0 {
        splitmix_out(seed)
    } else {
        seed_word(splitmix_next(seed), (k - 1) as nat)
    }
}

/// The key that `seed` expands to: four outputs of eight bytes each.
pub open spec fn expanded(seed: u64) -> Seq<u8> {
    le_bytes(seed_word(seed, 0) as nat, 8) + le_bytes(seed_word(seed, 1) as nat, 8) + le_bytes(
        seed_word(seed, 2) as nat,
        8,
    ) + le_bytes(seed_word(seed, 3) as nat, 8)
}

/// Expand a seed into a key of 32 bytes by four SplitMix64 steps.
#[must_use]
pub fn expand_seed(seed: u64) -> (key: [u8; 32])
    ensures
        key@ == expanded(seed),
{
    let mut state: u64 = seed;
    let mut bytes: Vec<u8> = Vec::new();
    let w0: u64 = splitmix64(&mut state);
    push_le(&mut bytes, w0, 8);
    let w1: u64 = splitmix64(&mut state);
    push_le(&mut bytes, w1, 8);
    let w2: u64 = splitmix64(&mut state);
    push_le(&mut bytes, w2, 8);
    let w3: u64 = splitmix64(&mut state);
    push_le(&mut bytes, w3, 8);
    proof {
        reveal_with_fuel(seed_word, 4);
        lemma_le_len(w0 as nat, 8);
        lemma_le_len(w1 as nat, 8);
        lemma_le_len(w2 as nat, 8);
        lemma_le_len(w3 as nat, 8);
        assert(bytes@ =~= expanded(seed));
    }
    let mut key: [u8; 32] = [0u8; 32];
    let mut i: usize = 0;
    while i < 32
        invariant
            i <= 32,
            bytes@.len() == 32,
            forall|j: int| 0 <= j < i ==> key@[j] == bytes@[j],
        decreases 32 - i,
    {
        key[i] = bytes[i];
        i = i + 1;
    }
    assert(key@ =~= bytes@);
    key
}

/// Why a seed text is refused.
pub open spec fn seed_error(s: Seq<char>) -> Seq<char> {
    let t = text::trim(s);
    if t.len() >= 2 && t[0] == '0' && (t[1] == 'x' || t[1] == 'X') {
        "invalid hex seed"@
    } else if t.len() == 0 {
        "empty seed"@
    } else {
        "invalid decimal seed"@
    }
}

/// The seed that `s` writes: decimal, or hexadecimal after `0x` or `0X`.
pub open spec fn seed_value(s: Seq<char>) -> Option<int> {
    let t = text::trim(s);
    if t.len() >= 2 && t[0] == '0' && (t[1] == 'x' || t[1] == 'X') {
        text::parse_uint(t.skip(2), 16, u64::MAX as int)
    } else {
        text::parse_uint(t, 10, u64::MAX as int)
    }
}

/// Read a seed.
pub fn parse_seed(s: &str) -> (r: Result<u64, &'static str>)
    ensures
        match r {
            Ok(n) => seed_value(s@) == Some(n as int),
            Err(e) => seed_value(s@) is None && e@ == seed_error(s@),
        },
{
    let t = trim_chars(&chars_of(s));
    if t.len() >= 2 && t[0] == '0' && (t[1] == 'x' || t[1] == 'X') {
        let body = sub_chars(&t, 2, t.len());
        assert(body@ =~= t@.skip(2));
        match read_uint(&body, 16, u64::MAX) {
            Some(n) => Ok(n),
            None => Err("invalid hex seed"),
        }
    } else if t.len() == 0 {
        Err("empty seed")
    } else {
        match read_uint(&t, 10, u64::MAX) {
            Some(n) => Ok(n),
            None => Err("invalid decimal seed"),
        }
    }
}

} // verus!
