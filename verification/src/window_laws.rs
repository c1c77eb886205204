//! What the windowed sequencer promises over whole runs: the order it assigns
//! depends neither on the order of arrival nor on how often it is asked to
//! seal.

use vstd::prelude::*;

use crate::window;
use crate::window::ConnState;
use crate::window::SendView;
use crate::window::SeqModel;
use crate::window::INFINITY;
use crate::wire::VAddr;

verus! {

/// One call on a sequencer.
pub enum SeqAct {
    Register { conn: u64, host_id: u32, node_id: u32 },
    Send { conn: u64, local_vt: u64, src: VAddr, dst: VAddr, payload: Seq<u8> },
    Frontier { conn: u64, f: u64 },
    Block { conn: u64, at_vt: u64 },
    Wake { conn: u64, deliv_vt: u64 },
    Close { conn: u64 },
    Seal,
}

/// The connection that a call concerns; sealing concerns all of them.
pub open spec fn act_conn(a: SeqAct) -> Option<u64> {
    match a {
        SeqAct::Register { conn, .. } => Some(conn),
        SeqAct::Send { conn, .. } => Some(conn),
        SeqAct::Frontier { conn, .. } => Some(conn),
        SeqAct::Block { conn, .. } => Some(conn),
        SeqAct::Wake { conn, .. } => Some(conn),
        SeqAct::Close { conn } => Some(conn),
        SeqAct::Seal => None,
    }
}

/// Neither the connection nor its place in the cluster is taken.
pub open spec fn fresh(m: SeqModel, conn: u64, host_id: u32, node_id: u32) -> bool {
    &&& !m.conns.contains_key(conn)
    &&& forall|k: u64| #[trigger]
        m.conns.contains_key(k) ==> m.conns[k].host_id != host_id || m.conns[k].node_id != node_id
}

/// The state and the sends that a call gives; `None` where it is refused, or
/// registers a connection or a place in the cluster for the second time.
pub open spec fn step(m: SeqModel, a: SeqAct) -> Option<(SeqModel, Seq<SendView>)> {
    match a {
        SeqAct::Register { conn, host_id, node_id } => if fresh(m, conn, host_id, node_id) {
            Some((window::seq_register(m, conn, host_id, node_id), Seq::empty()))
        } else {
            None
        },
        SeqAct::Send { conn, local_vt, src, dst, payload } => if window::admit_answer(
            m,
            conn,
            local_vt,
        ) is Ok && m.conns[conn].next_seq < u64::MAX {
            Some((window::seq_admitted(m, conn, local_vt, src, dst, payload), Seq::empty()))
        } else {
            None
        },
        SeqAct::Frontier { conn, f } => if window::frontier_answer(m, conn, f) is Ok {
            Some((window::seq_declared(m, conn, f), Seq::empty()))
        } else {
            None
        },
        SeqAct::Block { conn, at_vt } => Some((window::seq_blocked(m, conn, at_vt), Seq::empty())),
        SeqAct::Wake { conn, deliv_vt } => Some(
            (window::seq_woken(m, conn, deliv_vt), Seq::empty()),
        ),
        SeqAct::Close { conn } => Some((window::seq_closed(m, conn), Seq::empty())),
        SeqAct::Seal => Some((window::seq_sealed(m), window::seal_output(m))),
    }
}

/// The state after a script of calls, and everything that its seals handed
/// out; `None` where a call is refused.
pub open spec fn run(m: SeqModel, script: Seq<SeqAct>) -> Option<(SeqModel, Seq<SendView>)>
    decreases script.len(),
{
    if script.len() == 0 {
        Some((m, Seq::empty()))
    } else {
        match run(m, script.drop_last()) {
            Some((n, out)) => match step(n, script.last()) {
                Some((n2, o)) => Some((n2, out + o)),
                None => None,
            },
            None => None,
        }
    }
}

/// The script without its seals.
pub open spec fn without_seals(script: Seq<SeqAct>) -> Seq<SeqAct>
    decreases script.len(),
{
    if script.len() == 0 {
        script
    } else if script.last() is Seal {
        without_seals(script.drop_last())
    } else {
        without_seals(script.drop_last()).push(script.last())
    }
}

// ---------------------------------------------------------------------------
// Sorting
// ---------------------------------------------------------------------------

/// No send comes after one behind it.
pub open spec fn sorted(s: Seq<SendView>) -> bool {
    forall|i: int, j: int|
        0 <= i < j < s.len() ==> !window::key_lt(#[trigger] s[j], #[trigger] s[i])
}

/// No two sends have the same key.
pub open spec fn keys_differ(s: Seq<SendView>) -> bool {
    forall|i: int, j: int|
        0 <= i < s.len() && 0 <= j < s.len() && i != j ==> window::key_lt(
            #[trigger] s[i],
            #[trigger] s[j],
        ) || window::key_lt(s[j], s[i])
}

proof fn lemma_insert_multiset(s: Seq<SendView>, x: SendView)
    ensures
        window::insert_sorted(s, x).to_multiset() == s.to_multiset().insert(x),
        window::insert_sorted(s, x).len() == s.len() + 1,
    decreases s.len(),
{
    broadcast use vstd::seq_lib::group_to_multiset_ensures;

    if s.len() > 0 && window::key_lt(x, s.last()) {
        lemma_insert_multiset(s.drop_last(), x);
        assert(s =~= s.drop_last().push(s.last()));
        assert(window::insert_sorted(s, x).to_multiset() =~= s.to_multiset().insert(x));
    }
}

proof fn lemma_insert_keeps_sorted(s: Seq<SendView>, x: SendView)
    requires
        sorted(s),
    ensures
        sorted(window::insert_sorted(s, x)),
        forall|i: int|
            0 <= i < window::insert_sorted(s, x).len() ==> (#[trigger] window::insert_sorted(
                s,
                x,
            )[i] == x || s.contains(window::insert_sorted(s, x)[i])),
    decreases s.len(),
{
    let r = window::insert_sorted(s, x);
    lemma_insert_multiset(s, x);
    if s.len() == 0 || !window::key_lt(x, s.last()) {
        assert forall|i: int, j: int| 0 <= i < j < r.len() implies !window::key_lt(
            #[trigger] r[j],
            #[trigger] r[i],
        ) by {
            if j == s.len() {
                if i < s.len() - 1 {
                    assert(!window::key_lt(s[s.len() - 1], s[i]));
                }
            }
        }
        assert forall|i: int| 0 <= i < r.len() implies (#[trigger] r[i] == x || s.contains(
            r[i],
        )) by {
            if i < s.len() {
                assert(s[i] == r[i]);
            }
        }
    } else {
        let t = s.drop_last();
        assert forall|i: int, j: int| 0 <= i < j < t.len() implies !window::key_lt(
            #[trigger] t[j],
            #[trigger] t[i],
        ) by {
            assert(!window::key_lt(s[j], s[i]));
        }
        lemma_insert_keeps_sorted(t, x);
        lemma_insert_multiset(t, x);
        let q = window::insert_sorted(t, x);
        assert forall|i: int, j: int| 0 <= i < j < r.len() implies !window::key_lt(
            #[trigger] r[j],
            #[trigger] r[i],
        ) by {
            if j < q.len() {
                assert(!window::key_lt(q[j], q[i]));
            } else {
                assert(q[i] == x || t.contains(q[i]));
                if q[i] != x {
                    let k = choose|k: int| 0 <= k < t.len() && t[k] == q[i];
                    assert(!window::key_lt(s[s.len() - 1], s[k]));
                }
            }
        }
        assert forall|i: int| 0 <= i < r.len() implies (#[trigger] r[i] == x || s.contains(
            r[i],
        )) by {
            if i < q.len() {
                assert(q[i] == x || t.contains(q[i]));
                if q[i] != x {
                    let k = choose|k: int| 0 <= k < t.len() && t[k] == q[i];
                    assert(s[k] == r[i]);
                }
            } else {
                assert(s[s.len() - 1] == r[i]);
            }
        }
    }
}

/// Sorting loses and adds nothing, and puts the sends in key order.
pub proof fn law_sort_sorts(s: Seq<SendView>)
    ensures
        sorted(window::stable_sort(s)),
        window::stable_sort(s).to_multiset() == s.to_multiset(),
        window::stable_sort(s).len() == s.len(),
    decreases s.len(),
{
    broadcast use vstd::seq_lib::group_to_multiset_ensures;

    if s.len() > 0 {
        law_sort_sorts(s.drop_last());
        lemma_insert_keeps_sorted(window::stable_sort(s.drop_last()), s.last());
        lemma_insert_multiset(window::stable_sort(s.drop_last()), s.last());
        assert(s =~= s.drop_last().push(s.last()));
    }
}

proof fn lemma_same_elements(s: Seq<SendView>, t: Seq<SendView>, i: int)
    requires
        s.to_multiset() == t.to_multiset(),
        0 <= i < s.len(),
    ensures
        t.contains(s[i]),
        s.len() == t.len(),
{
    broadcast use vstd::seq_lib::group_to_multiset_ensures;

    assert(s.contains(s[i]));
    assert(s.to_multiset().count(s[i]) > 0);
    assert(t.to_multiset().count(s[i]) > 0);
    s.to_multiset_ensures();
    t.to_multiset_ensures();
}

proof fn lemma_keys_differ_permuted(s: Seq<SendView>, t: Seq<SendView>)
    requires
        s.to_multiset() == t.to_multiset(),
        keys_differ(s),
    ensures
        keys_differ(t),
{
    broadcast use vstd::seq_lib::group_to_multiset_ensures;

    assert forall|i: int, j: int| 0 <= i < t.len() && 0 <= j < t.len() && i != j implies
        window::key_lt(#[trigger] t[i], #[trigger] t[j]) || window::key_lt(t[j], t[i]) by {
        lemma_same_elements(t, s, i);
        lemma_same_elements(t, s, j);
        let a = choose|a: int| 0 <= a < s.len() && s[a] == t[i];
        let b = choose|b: int| 0 <= b < s.len() && s[b] == t[j];
        if a == b {
            // The same send twice in `t` must be there twice in `s`.
            lemma_two_places(t, i, j);
            lemma_one_place(s, a);
        }
        assert(window::key_lt(s[a], s[b]) || window::key_lt(s[b], s[a]));
    }
}

proof fn lemma_two_places(t: Seq<SendView>, i: int, j: int)
    requires
        0 <= i < t.len(),
        0 <= j < t.len(),
        i != j,
        t[i] == t[j],
    ensures
        t.to_multiset().count(t[i]) >= 2,
{
    broadcast use vstd::seq_lib::group_to_multiset_ensures;

    let x = t[i];
    let u = t.remove(i);
    let k = if j < i {
        j
    } else {
        j - 1
    };
    assert(u[k] == x);
    assert(u.contains(x));
    assert(u.to_multiset() =~= t.to_multiset().remove(x));
    assert(u.to_multiset().count(x) > 0);
}

proof fn lemma_one_place(s: Seq<SendView>, a: int)
    requires
        keys_differ(s),
        0 <= a < s.len(),
    ensures
        s.to_multiset().count(s[a]) == 1,
{
    broadcast use vstd::seq_lib::group_to_multiset_ensures;

    let x = s[a];
    let u = s.remove(a);
    assert(s.contains(x));
    assert(u.to_multiset() =~= s.to_multiset().remove(x));
    if u.contains(x) {
        let k = choose|k: int| 0 <= k < u.len() && u[k] == x;
        let b = if k < a {
            k
        } else {
            k + 1
        };
        assert(s[b] == x);
        assert(window::key_lt(s[a], s[b]) || window::key_lt(s[b], s[a]));
    }
    assert(u.to_multiset().count(x) == 0);
}

proof fn lemma_sorted_unique(s: Seq<SendView>, t: Seq<SendView>)
    requires
        s.to_multiset() == t.to_multiset(),
        keys_differ(s),
        keys_differ(t),
        sorted(s),
        sorted(t),
    ensures
        s == t,
    decreases s.len(),
{
    broadcast use vstd::seq_lib::group_to_multiset_ensures;

    s.to_multiset_ensures();
    t.to_multiset_ensures();
    if s.len() == 0 {
        assert(s =~= t);
    } else {
        let n = s.len() - 1;
        lemma_same_elements(s, t, n);
        lemma_same_elements(t, s, n);
        let j = choose|j: int| 0 <= j < t.len() && t[j] == s[n];
        let i = choose|i: int| 0 <= i < s.len() && s[i] == t[n];
        if j < n {
            assert(!window::key_lt(t[n], t[j]));
            assert(window::key_lt(t[j], t[n]) || window::key_lt(t[n], t[j]));
            if i < n {
                assert(!window::key_lt(s[n], s[i]));
            }
        }
        assert(s[n] == t[n]);
        assert(s.remove(n) =~= s.drop_last());
        assert(t.remove(n) =~= t.drop_last());
        assert(s.drop_last().to_multiset() =~= t.drop_last().to_multiset());
        assert forall|a: int, b: int|
            0 <= a < s.drop_last().len() && 0 <= b < s.drop_last().len() && a != b implies
            window::key_lt(#[trigger] s.drop_last()[a], #[trigger] s.drop_last()[b])
            || window::key_lt(s.drop_last()[b], s.drop_last()[a]) by {
            assert(window::key_lt(s[a], s[b]) || window::key_lt(s[b], s[a]));
        }
        assert forall|a: int, b: int|
            0 <= a < t.drop_last().len() && 0 <= b < t.drop_last().len() && a != b implies
            window::key_lt(#[trigger] t.drop_last()[a], #[trigger] t.drop_last()[b])
            || window::key_lt(t.drop_last()[b], t.drop_last()[a]) by {
            assert(window::key_lt(t[a], t[b]) || window::key_lt(t[b], t[a]));
        }
        assert forall|a: int, b: int| 0 <= a < b < s.drop_last().len() implies !window::key_lt(
            #[trigger] s.drop_last()[b],
            #[trigger] s.drop_last()[a],
        ) by {
            assert(!window::key_lt(s[b], s[a]));
        }
        assert forall|a: int, b: int| 0 <= a < b < t.drop_last().len() implies !window::key_lt(
            #[trigger] t.drop_last()[b],
            #[trigger] t.drop_last()[a],
        ) by {
            assert(!window::key_lt(t[b], t[a]));
        }
        lemma_sorted_unique(s.drop_last(), t.drop_last());
        assert(s =~= s.drop_last().push(s.last()));
        assert(t =~= t.drop_last().push(t.last()));
    }
}

/// Sends with different keys sort the same, in whatever order they came.
pub proof fn law_sort_ignores_order(s: Seq<SendView>, t: Seq<SendView>)
    requires
        s.to_multiset() == t.to_multiset(),
        keys_differ(s),
    ensures
        window::stable_sort(s) == window::stable_sort(t),
{
    law_sort_sorts(s);
    law_sort_sorts(t);
    lemma_keys_differ_permuted(s, window::stable_sort(s));
    lemma_keys_differ_permuted(s, window::stable_sort(t));
    lemma_sorted_unique(window::stable_sort(s), window::stable_sort(t));
}

/// Each side of a cut holds what belongs there, as often as the whole does.
pub proof fn lemma_part_counts(s: Seq<SendView>, h: u64, want: bool, x: SendView)
    ensures
        window::part(s, h, want).to_multiset().count(x) == (if window::below(x, h) == want {
            s.to_multiset().count(x)
        } else {
            0
        }),
    decreases s.len(),
{
    broadcast use vstd::seq_lib::group_to_multiset_ensures;

    if s.len() > 0 {
        lemma_part_counts(s.drop_last(), h, want, x);
        assert(s =~= s.drop_last().push(s.last()));
    } else {
        assert(s.to_multiset().count(x) == 0) by {
            assert(!s.contains(x));
        }
    }
}

proof fn lemma_part_permuted(s: Seq<SendView>, t: Seq<SendView>, h: u64, want: bool)
    requires
        s.to_multiset() == t.to_multiset(),
    ensures
        window::part(s, h, want).to_multiset() == window::part(t, h, want).to_multiset(),
{
    assert forall|x: SendView|
        window::part(s, h, want).to_multiset().count(x) == window::part(
            t,
            h,
            want,
        ).to_multiset().count(x) by {
        lemma_part_counts(s, h, want, x);
        lemma_part_counts(t, h, want, x);
    }
    assert(window::part(s, h, want).to_multiset() =~= window::part(t, h, want).to_multiset());
}

proof fn lemma_part_inside(s: Seq<SendView>, h: u64, want: bool)
    ensures
        exists|ix: spec_fn(int) -> int| #[trigger] embeds(window::part(s, h, want), s, ix),
    decreases s.len(),
{
    if s.len() == 0 {
        assert(embeds(window::part(s, h, want), s, |i: int| i));
    } else {
        lemma_part_inside(s.drop_last(), h, want);
        let p = window::part(s.drop_last(), h, want);
        let ix = choose|ix: spec_fn(int) -> int| #[trigger] embeds(p, s.drop_last(), ix);
        let jx = |i: int|
            if i < p.len() {
                ix(i)
            } else {
                s.len() - 1
            };
        assert(embeds(window::part(s, h, want), s, jx)) by {
            let q = window::part(s, h, want);
            assert forall|i: int| 0 <= i < q.len() implies 0 <= #[trigger] jx(i) < s.len() && s[jx(
                i,
            )] == q[i] by {
                if i < p.len() {
                    assert(0 <= ix(i) < s.drop_last().len());
                }
            }
            assert forall|i: int, j: int| 0 <= i < j < q.len() implies #[trigger] jx(i)
                < #[trigger] jx(j) by {
                assert(0 <= ix(i) < s.drop_last().len());
                if j < p.len() {
                    assert(ix(i) < ix(j));
                }
            }
        }
    }
}

/// `p` is `s` with some sends left out, its `i`-th being the `ix(i)`-th there.
spec fn embeds(p: Seq<SendView>, s: Seq<SendView>, ix: spec_fn(int) -> int) -> bool {
    &&& forall|i: int|
        0 <= i < p.len() ==> 0 <= #[trigger] ix(i) < s.len() && s[ix(i)] == p[i]
    &&& forall|i: int, j: int| 0 <= i < j < p.len() ==> #[trigger] ix(i) < #[trigger] ix(j)
}

proof fn lemma_part_keys_differ(s: Seq<SendView>, h: u64, want: bool)
    requires
        keys_differ(s),
    ensures
        keys_differ(window::part(s, h, want)),
{
    lemma_part_inside(s, h, want);
    let p = window::part(s, h, want);
    let ix = choose|ix: spec_fn(int) -> int| #[trigger] embeds(p, s, ix);
    assert forall|i: int, j: int| 0 <= i < p.len() && 0 <= j < p.len() && i != j implies
        window::key_lt(#[trigger] p[i], #[trigger] p[j]) || window::key_lt(p[j], p[i]) by {
        assert(s[ix(i)] == p[i]);
        assert(s[ix(j)] == p[j]);
        if i < j {
            assert(ix(i) < ix(j));
        } else {
            assert(ix(j) < ix(i));
        }
        assert(window::key_lt(s[ix(i)], s[ix(j)]) || window::key_lt(s[ix(j)], s[ix(i)]));
    }
}

// ---------------------------------------------------------------------------
// Runs
// ---------------------------------------------------------------------------

/// Connections differ in their places, and each buffered send carries the
/// place of its connection and an index of its own there.
pub open spec fn orderly(m: SeqModel) -> bool {
    &&& forall|a: u64, b: u64| #[trigger]
        m.conns.contains_key(a) && #[trigger] m.conns.contains_key(b) && a != b ==> m.conns[a].host_id
            != m.conns[b].host_id || m.conns[a].node_id != m.conns[b].node_id
    &&& forall|i: int|
        0 <= i < m.pending.len() ==> known_send(m.conns, #[trigger] m.pending[i])
    &&& forall|i: int, j: int|
        0 <= i < j < m.pending.len() && (#[trigger] m.pending[i]).conn == (
        #[trigger] m.pending[j]).conn ==> m.pending[i].conn_seq != m.pending[j].conn_seq
}

pub open spec fn known_send(conns: Map<u64, ConnState>, x: SendView) -> bool {
    &&& conns.contains_key(x.conn)
    &&& x.host_id == conns[x.conn].host_id
    &&& x.node_id == conns[x.conn].node_id
    &&& x.conn_seq < conns[x.conn].next_seq
}

proof fn lemma_orderly_keys(m: SeqModel)
    requires
        orderly(m),
    ensures
        keys_differ(m.pending),
{
    let s = m.pending;
    assert forall|i: int, j: int| 0 <= i < s.len() && 0 <= j < s.len() && i != j implies
        window::key_lt(#[trigger] s[i], #[trigger] s[j]) || window::key_lt(s[j], s[i]) by {
        assert(known_send(m.conns, s[i]));
        assert(known_send(m.conns, s[j]));
        if s[i].conn == s[j].conn {
            if i < j {
                assert(s[i].conn_seq != s[j].conn_seq);
            } else {
                assert(s[j].conn_seq != s[i].conn_seq);
            }
        } else {
            assert(m.conns.contains_key(s[i].conn) && m.conns.contains_key(s[j].conn));
        }
    }
}

/// Every step keeps a run orderly.
pub proof fn lemma_step_orderly(m: SeqModel, a: SeqAct)
    requires
        orderly(m),
        step(m, a) is Some,
    ensures
        orderly(step(m, a).unwrap().0),
{
    let n = step(m, a).unwrap().0;
    match a {
        SeqAct::Seal => {
            if window::sealable(m) > m.horizon {
                let h = window::sealable(m);
                lemma_part_inside(m.pending, h, false);
                let p = window::part(m.pending, h, false);
                let ix = choose|ix: spec_fn(int) -> int| #[trigger] embeds(p, m.pending, ix);
                assert forall|i: int| 0 <= i < n.pending.len() implies known_send(
                    n.conns,
                    #[trigger] n.pending[i],
                ) by {
                    assert(m.pending[ix(i)] == p[i]);
                }
                assert forall|i: int, j: int|
                    0 <= i < j < n.pending.len() && (#[trigger] n.pending[i]).conn == (
                    #[trigger] n.pending[j]).conn implies n.pending[i].conn_seq
                    != n.pending[j].conn_seq by {
                    assert(ix(i) < ix(j));
                    assert(m.pending[ix(i)] == p[i]);
                    assert(m.pending[ix(j)] == p[j]);
                }
            }
        },
        SeqAct::Send { conn, local_vt, src, dst, payload } => {
            assert forall|i: int| 0 <= i < n.pending.len() implies known_send(
                n.conns,
                #[trigger] n.pending[i],
            ) by {
                if i < m.pending.len() {
                    assert(known_send(m.conns, m.pending[i]));
                }
            }
            assert forall|i: int, j: int|
                0 <= i < j < n.pending.len() && (#[trigger] n.pending[i]).conn == (
                #[trigger] n.pending[j]).conn implies n.pending[i].conn_seq
                != n.pending[j].conn_seq by {
                assert(known_send(m.conns, m.pending[i]));
                if j < m.pending.len() {
                    assert(m.pending[i].conn_seq != m.pending[j].conn_seq);
                }
            }
        },
        _ => {
            assert(n.pending == m.pending);
            assert forall|i: int| 0 <= i < n.pending.len() implies known_send(
                n.conns,
                #[trigger] n.pending[i],
            ) by {
                assert(known_send(m.conns, m.pending[i]));
            }
        },
    }
}

/// Two states that differ only in the order in which sends arrived.
pub open spec fn same_up_to_arrival(m: SeqModel, n: SeqModel) -> bool {
    &&& m.width == n.width
    &&& m.conns == n.conns
    &&& m.horizon == n.horizon
    &&& m.pending.to_multiset() == n.pending.to_multiset()
}

/// Sealing does not see the order of arrival.
pub proof fn law_seal_ignores_arrival(m: SeqModel, n: SeqModel)
    requires
        same_up_to_arrival(m, n),
        orderly(m),
    ensures
        window::seal_output(m) == window::seal_output(n),
        same_up_to_arrival(window::seq_sealed(m), window::seq_sealed(n)),
{
    lemma_output_same(m, n, window::sealable(m));
}

/// Nor does moving the horizon up to `h`.
pub proof fn lemma_output_same(m: SeqModel, n: SeqModel, h: u64)
    requires
        same_up_to_arrival(m, n),
        orderly(m),
    ensures
        window::output_below(m, h) == window::output_below(n, h),
        same_up_to_arrival(window::sealed_below(m, h), window::sealed_below(n, h)),
{
    if h > m.horizon {
        lemma_orderly_keys(m);
        lemma_part_permuted(m.pending, n.pending, h, true);
        lemma_part_permuted(m.pending, n.pending, h, false);
        lemma_part_keys_differ(m.pending, h, true);
        law_sort_ignores_order(
            window::part(m.pending, h, true),
            window::part(n.pending, h, true),
        );
    }
}

pub proof fn lemma_step_same(m: SeqModel, n: SeqModel, a: SeqAct)
    requires
        same_up_to_arrival(m, n),
        orderly(m),
        step(m, a) is Some,
    ensures
        step(n, a) is Some,
        step(m, a).unwrap().1 == step(n, a).unwrap().1,
        same_up_to_arrival(step(m, a).unwrap().0, step(n, a).unwrap().0),
{
    broadcast use vstd::seq_lib::group_to_multiset_ensures;

    match a {
        SeqAct::Seal => {
            law_seal_ignores_arrival(m, n);
        },
        _ => {},
    }
}

/// What a call other than a seal or a registration does, given what is known
/// of its connection: the connection's new state and the sends it buffers.
/// `None` where it is refused.
spec fn effect(a: SeqAct, c: Option<ConnState>, horizon: u64) -> Option<
    (Option<ConnState>, Seq<SendView>),
> {
    match a {
        SeqAct::Send { conn, local_vt, src, dst, payload } => match c {
            Some(c) => if !window::passed(horizon, local_vt) && local_vt >= c.frontier
                && c.next_seq < u64::MAX {
                Some(
                    (
                        Some(
                            ConnState {
                                frontier: local_vt,
                                next_seq: (c.next_seq + 1) as u64,
                                ..c
                            },
                        ),
                        seq![
                            SendView {
                                conn,
                                host_id: c.host_id,
                                node_id: c.node_id,
                                conn_seq: c.next_seq,
                                local_vt,
                                src,
                                dst,
                                payload,
                            },
                        ],
                    ),
                )
            } else {
                None
            },
            None => None,
        },
        SeqAct::Frontier { conn, f } => match c {
            Some(c) => if f >= c.frontier {
                Some((Some(ConnState { frontier: f, ..c }), Seq::empty()))
            } else {
                None
            },
            None => None,
        },
        SeqAct::Block { conn, at_vt } => match c {
            Some(c) => Some(
                (
                    Some(
                        ConnState {
                            frontier: window::later(c.frontier, at_vt),
                            blocked: true,
                            ..c
                        },
                    ),
                    Seq::empty(),
                ),
            ),
            None => Some((None, Seq::empty())),
        },
        SeqAct::Wake { conn, deliv_vt } => match c {
            Some(c) => if c.blocked {
                Some(
                    (
                        Some(
                            ConnState {
                                frontier: window::later(c.frontier, deliv_vt),
                                blocked: false,
                                ..c
                            },
                        ),
                        Seq::empty(),
                    ),
                )
            } else {
                Some((Some(c), Seq::empty()))
            },
            None => Some((None, Seq::empty())),
        },
        SeqAct::Close { conn } => match c {
            Some(c) => Some((Some(ConnState { live: false, ..c }), Seq::empty())),
            None => Some((None, Seq::empty())),
        },
        _ => None,
    }
}

spec fn known(m: SeqModel, conn: u64) -> Option<ConnState> {
    if m.conns.contains_key(conn) {
        Some(m.conns[conn])
    } else {
        None
    }
}

spec fn with_conn(conns: Map<u64, ConnState>, conn: u64, c: Option<ConnState>) -> Map<
    u64,
    ConnState,
> {
    match c {
        Some(c) => conns.insert(conn, c),
        None => conns,
    }
}

proof fn lemma_effect(m: SeqModel, a: SeqAct)
    requires
        act_conn(a) is Some,
        !(a is Register),
    ensures
        step(m, a) is Some <==> effect(a, known(m, act_conn(a).unwrap()), m.horizon) is Some,
        step(m, a) is Some ==> ({
            let conn = act_conn(a).unwrap();
            let (c, sends) = effect(a, known(m, conn), m.horizon).unwrap();
            let (n, out) = step(m, a).unwrap();
            &&& n.width == m.width
            &&& n.horizon == m.horizon
            &&& n.conns == with_conn(m.conns, conn, c)
            &&& n.pending == m.pending + sends
            &&& out == Seq::<SendView>::empty()
            &&& known(m, conn) is Some <==> c is Some
            &&& c is Some ==> c.unwrap().host_id == known(m, conn).unwrap().host_id
                && c.unwrap().node_id == known(m, conn).unwrap().node_id
        }),
{
    if step(m, a) is Some {
        let conn = act_conn(a).unwrap();
        let (c, sends) = effect(a, known(m, conn), m.horizon).unwrap();
        let n = step(m, a).unwrap().0;
        assert(n.pending =~= m.pending + sends);
        assert(n.conns =~= with_conn(m.conns, conn, c));
    }
}

proof fn lemma_swap_registers(m: SeqModel, x: SeqAct, y: SeqAct)
    requires
        x is Register,
        y is Register,
        act_conn(x) != act_conn(y),
        step(m, x) is Some,
        step(step(m, x).unwrap().0, y) is Some,
    ensures
        step(m, y) is Some,
        step(step(m, y).unwrap().0, x) is Some,
        step(step(m, x).unwrap().0, y).unwrap().0 == step(step(m, y).unwrap().0, x).unwrap().0,
{
    let mx = step(m, x).unwrap().0;
    if let SeqAct::Register { conn: cx, host_id: hx, node_id: nx } = x {
        if let SeqAct::Register { conn: cy, host_id: hy, node_id: ny } = y {
            assert(mx.conns.contains_key(cx));
            assert forall|k: u64| #[trigger] m.conns.contains_key(k) implies m.conns[k].host_id
                != hy || m.conns[k].node_id != ny by {
                assert(mx.conns.contains_key(k));
            }
            let my = step(m, y).unwrap().0;
            assert forall|k: u64| #[trigger] my.conns.contains_key(k) implies my.conns[k].host_id
                != hx || my.conns[k].node_id != nx by {
                if k != cy {
                    assert(m.conns.contains_key(k));
                }
            }
            assert(fresh(my, cx, hx, nx));
            assert(step(mx, y).unwrap().0.conns =~= step(my, x).unwrap().0.conns);
        }
    }
}

/// A registration and another call can be swapped, from either order.
proof fn lemma_swap_register(m: SeqModel, x: SeqAct, y: SeqAct)
    requires
        x is Register,
        !(y is Register),
        act_conn(y) is Some,
        act_conn(x) != act_conn(y),
    ensures
        (step(m, x) is Some && step(step(m, x).unwrap().0, y) is Some) <==> (step(m, y) is Some
            && step(step(m, y).unwrap().0, x) is Some),
        (step(m, x) is Some && step(step(m, x).unwrap().0, y) is Some) ==> step(
            step(m, x).unwrap().0,
            y,
        ).unwrap().0 == step(step(m, y).unwrap().0, x).unwrap().0,
{
    let cy = act_conn(y).unwrap();
    lemma_effect(m, y);
    if let SeqAct::Register { conn: cx, host_id: hx, node_id: nx } = x {
        if step(m, y) is Some {
            let my = step(m, y).unwrap().0;
            assert forall|k: u64| fresh(m, cx, hx, nx) && #[trigger] my.conns.contains_key(
                k,
            ) implies my.conns[k].host_id != hx || my.conns[k].node_id != nx by {
                assert(m.conns.contains_key(k));
            }
            assert forall|k: u64| fresh(my, cx, hx, nx) && #[trigger] m.conns.contains_key(
                k,
            ) implies m.conns[k].host_id != hx || m.conns[k].node_id != nx by {
                assert(my.conns.contains_key(k));
            }
            assert(fresh(m, cx, hx, nx) == fresh(my, cx, hx, nx));
        }
        if fresh(m, cx, hx, nx) {
            let mx = step(m, x).unwrap().0;
            assert(known(mx, cy) == known(m, cy));
            lemma_effect(mx, y);
            if step(m, y) is Some {
                let my = step(m, y).unwrap().0;
                assert(step(mx, y).unwrap().0.conns =~= step(my, x).unwrap().0.conns);
            }
        }
    }
}

/// Two calls on different connections can be swapped.
pub proof fn lemma_swap(m: SeqModel, x: SeqAct, y: SeqAct)
    requires
        act_conn(x) is Some,
        act_conn(y) is Some,
        act_conn(x) != act_conn(y),
        step(m, x) is Some,
        step(step(m, x).unwrap().0, y) is Some,
    ensures
        step(m, y) is Some,
        step(step(m, y).unwrap().0, x) is Some,
        same_up_to_arrival(
            step(step(m, x).unwrap().0, y).unwrap().0,
            step(step(m, y).unwrap().0, x).unwrap().0,
        ),
{
    if x is Register {
        if y is Register {
            lemma_swap_registers(m, x, y);
        } else {
            lemma_swap_register(m, x, y);
        }
    } else if y is Register {
        lemma_swap_register(m, y, x);
    } else {
        let cx = act_conn(x).unwrap();
        let cy = act_conn(y).unwrap();
        lemma_effect(m, x);
        let mx = step(m, x).unwrap().0;
        lemma_effect(mx, y);
        assert(known(mx, cy) == known(m, cy));
        lemma_effect(m, y);
        let my = step(m, y).unwrap().0;
        assert(known(my, cx) == known(m, cx));
        lemma_effect(my, x);
        let a = step(mx, y).unwrap().0;
        let b = step(my, x).unwrap().0;
        assert(a.conns =~= b.conns);
        let p = effect(x, known(m, cx), m.horizon).unwrap().1;
        let q = effect(y, known(m, cy), m.horizon).unwrap().1;
        vstd::seq_lib::lemma_multiset_commutative(m.pending, p);
        vstd::seq_lib::lemma_multiset_commutative(m.pending + p, q);
        vstd::seq_lib::lemma_multiset_commutative(m.pending, q);
        vstd::seq_lib::lemma_multiset_commutative(m.pending + q, p);
        assert(a.pending.to_multiset() =~= b.pending.to_multiset());
    }
}

pub proof fn lemma_no_output(m: SeqModel, a: SeqAct)
    requires
        act_conn(a) is Some,
        step(m, a) is Some,
    ensures
        step(m, a).unwrap().1 == Seq::<SendView>::empty(),
{
}

pub proof fn lemma_run_orderly(m: SeqModel, script: Seq<SeqAct>)
    requires
        orderly(m),
        run(m, script) is Some,
    ensures
        orderly(run(m, script).unwrap().0),
    decreases script.len(),
{
    if script.len() > 0 {
        lemma_run_orderly(m, script.drop_last());
        lemma_step_orderly(run(m, script.drop_last()).unwrap().0, script.last());
    }
}

/// The assigned order does not depend on the order of arrival: swapping two
/// neighbouring calls on different connections, anywhere in a run, changes
/// nothing that the run hands out.
pub proof fn law_arrival_order(
    width: u64,
    front: Seq<SeqAct>,
    x: SeqAct,
    y: SeqAct,
    back: Seq<SeqAct>,
)
    requires
        width > 0,
        act_conn(x) is Some,
        act_conn(y) is Some,
        act_conn(x) != act_conn(y),
        run(window::seq_new(width), front + seq![x, y] + back) is Some,
    ensures
        run(window::seq_new(width), front + seq![y, x] + back) is Some,
        run(window::seq_new(width), front + seq![x, y] + back).unwrap().1 == run(
            window::seq_new(width),
            front + seq![y, x] + back,
        ).unwrap().1,
        same_up_to_arrival(
            run(window::seq_new(width), front + seq![x, y] + back).unwrap().0,
            run(window::seq_new(width), front + seq![y, x] + back).unwrap().0,
        ),
    decreases back.len(),
{
    let m = window::seq_new(width);
    assert(orderly(m));
    let s = front + seq![x, y] + back;
    let t = front + seq![y, x] + back;
    if back.len() == 0 {
        assert(s.drop_last() =~= front.push(x));
        assert(s.drop_last().drop_last() =~= front);
        assert(s.last() == y && s.drop_last().last() == x);
        assert(t.drop_last() =~= front.push(y));
        assert(t.drop_last().drop_last() =~= front);
        assert(t.last() == x && t.drop_last().last() == y);
        reveal_with_fuel(run, 3);
        let (n, out) = run(m, front).unwrap();
        lemma_swap(n, x, y);
        lemma_no_output(n, x);
        lemma_no_output(n, y);
        lemma_no_output(step(n, x).unwrap().0, y);
        lemma_no_output(step(n, y).unwrap().0, x);
        assert(run(m, s).unwrap().1 =~= out);
        assert(run(m, t).unwrap().1 =~= out);
    } else {
        let b = back.drop_last();
        assert(s.drop_last() =~= front + seq![x, y] + b);
        assert(t.drop_last() =~= front + seq![y, x] + b);
        assert(s.last() == back.last() && t.last() == back.last());
        law_arrival_order(width, front, x, y, b);
        lemma_run_orderly(m, s.drop_last());
        lemma_step_same(
            run(m, s.drop_last()).unwrap().0,
            run(m, t.drop_last()).unwrap().0,
            back.last(),
        );
    }
}

// ---------------------------------------------------------------------------
// Sealing step by step
// ---------------------------------------------------------------------------

/// A seal never lowers the horizon, and hands out only sends between the old
/// horizon and the new one, in key order.
pub proof fn law_seal_moves_up(m: SeqModel)
    requires
        window::seq_ok(m),
    ensures
        m.horizon <= window::seq_sealed(m).horizon,
        window::seq_ok(window::seq_sealed(m)),
        sorted(window::seal_output(m)),
        forall|i: int|
            0 <= i < window::seal_output(m).len() ==> window::below(
                #[trigger] window::seal_output(m)[i],
                window::seq_sealed(m).horizon,
            ) && !window::below(window::seal_output(m)[i], m.horizon),
{
    let h = window::sealable(m);
    if h > m.horizon {
        let p = window::part(m.pending, h, true);
        let out = window::stable_sort(p);
        window::lemma_part_sides(m.pending, h);
        assert(window::none_late(window::part(m.pending, h, false), h));
        law_sort_sorts(p);
        lemma_part_inside(m.pending, h, true);
        let ix = choose|ix: spec_fn(int) -> int| #[trigger] embeds(p, m.pending, ix);
        assert forall|i: int| 0 <= i < out.len() implies window::below(#[trigger] out[i], h)
            && !window::below(out[i], m.horizon) by {
            lemma_same_elements(out, p, i);
            let k = choose|k: int| 0 <= k < p.len() && p[k] == out[i];
            assert(window::below(p[k], h));
            assert(m.pending[ix(k)] == p[k]);
        }
    }
}

/// Splitting with one send more.
pub proof fn lemma_part_step(s: Seq<SendView>, x: SendView, h: u64, want: bool)
    ensures
        window::part(s.push(x), h, want) == (if window::below(x, h) == want {
            window::part(s, h, want).push(x)
        } else {
            window::part(s, h, want)
        }),
{
    assert(s.push(x).drop_last() =~= s);
}

/// Splitting what lies at or above `h` at a higher horizon.
pub proof fn lemma_part_twice(s: Seq<SendView>, h: u64, g: u64, want: bool)
    requires
        h != INFINITY,
        h <= g,
    ensures
        !want ==> window::part(window::part(s, h, false), g, want) == window::part(s, g, want),
    decreases s.len(),
{
    if s.len() > 0 {
        lemma_part_twice(s.drop_last(), h, g, want);
        lemma_part_step(window::part(s.drop_last(), h, false), s.last(), g, want);
    }
}

proof fn lemma_insert_left(a: Seq<SendView>, b: Seq<SendView>, x: SendView)
    requires
        forall|i: int| 0 <= i < b.len() ==> window::key_lt(x, #[trigger] b[i]),
    ensures
        window::insert_sorted(a + b, x) == window::insert_sorted(a, x) + b,
    decreases b.len(),
{
    if b.len() == 0 {
        assert(a + b =~= a);
        assert(window::insert_sorted(a, x) + b =~= window::insert_sorted(a, x));
    } else {
        assert((a + b).drop_last() =~= a + b.drop_last());
        assert((a + b).last() == b.last());
        assert(window::key_lt(x, b[b.len() - 1]));
        assert forall|i: int| 0 <= i < b.drop_last().len() implies window::key_lt(
            x,
            #[trigger] b.drop_last()[i],
        ) by {
            assert(window::key_lt(x, b[i]));
        }
        lemma_insert_left(a, b.drop_last(), x);
        assert(window::insert_sorted(a + b, x) =~= window::insert_sorted(a, x) + b);
    }
}

proof fn lemma_insert_right(a: Seq<SendView>, b: Seq<SendView>, x: SendView)
    requires
        forall|i: int| 0 <= i < a.len() ==> !window::key_lt(x, #[trigger] a[i]),
    ensures
        window::insert_sorted(a + b, x) == a + window::insert_sorted(b, x),
    decreases b.len(),
{
    if b.len() == 0 {
        assert(a + b =~= a);
        if a.len() > 0 {
            assert(!window::key_lt(x, a[a.len() - 1]));
        }
        assert(window::insert_sorted(a + b, x) =~= a + window::insert_sorted(b, x));
    } else {
        assert((a + b).drop_last() =~= a + b.drop_last());
        assert((a + b).last() == b.last());
        lemma_insert_right(a, b.drop_last(), x);
        assert(window::insert_sorted(a + b, x) =~= a + window::insert_sorted(b, x));
    }
}

proof fn lemma_sorted_sides(s: Seq<SendView>, h: u64, want: bool)
    ensures
        forall|i: int|
            0 <= i < window::stable_sort(window::part(s, h, want)).len() ==> window::below(
                #[trigger] window::stable_sort(window::part(s, h, want))[i],
                h,
            ) == want,
{
    let p = window::part(s, h, want);
    let q = window::stable_sort(p);
    window::lemma_part_sides(s, h);
    law_sort_sorts(p);
    assert forall|i: int| 0 <= i < q.len() implies window::below(#[trigger] q[i], h) == want by {
        lemma_same_elements(q, p, i);
        let k = choose|k: int| 0 <= k < p.len() && p[k] == q[i];
        assert(window::below(p[k], h) == want);
    }
}

/// Sorting below `h`, then between `h` and `g`, is sorting below `g`.
pub proof fn lemma_sort_in_two(s: Seq<SendView>, h: u64, g: u64)
    requires
        h != INFINITY,
        h <= g,
    ensures
        window::stable_sort(window::part(s, h, true)) + window::stable_sort(
            window::part(window::part(s, h, false), g, true),
        ) == window::stable_sort(window::part(s, g, true)),
    decreases s.len(),
{
    let lo = window::part(s, h, true);
    let hi = window::part(s, h, false);
    let mid = window::part(hi, g, true);
    let all = window::part(s, g, true);
    if s.len() == 0 {
        assert(window::stable_sort(lo) + window::stable_sort(mid) =~= window::stable_sort(all));
    } else {
        let r = s.drop_last();
        let x = s.last();
        lemma_sort_in_two(r, h, g);
        let rlo = window::part(r, h, true);
        let rhi = window::part(r, h, false);
        let rmid = window::part(rhi, g, true);
        let rall = window::part(r, g, true);
        lemma_part_step(rhi, x, g, true);
        lemma_sorted_sides(r, h, true);
        if window::below(x, h) {
            assert(window::below(x, g));
            assert(lo.drop_last() =~= rlo && lo.last() == x);
            assert(all.drop_last() =~= rall && all.last() == x);
            let q = window::stable_sort(rmid);
            law_sort_sorts(rmid);
            lemma_mid_sides(r, h, g);
            lemma_insert_left(window::stable_sort(rlo), q, x);
        } else if window::below(x, g) {
            assert(mid.drop_last() =~= rmid && mid.last() == x);
            assert(all.drop_last() =~= rall && all.last() == x);
            lemma_insert_right(window::stable_sort(rlo), window::stable_sort(rmid), x);
        }
    }
}

proof fn lemma_mid_sides(r: Seq<SendView>, h: u64, g: u64)
    requires
        h != INFINITY,
    ensures
        forall|i: int|
            #![trigger window::stable_sort(window::part(window::part(r, h, false), g, true))[i]]
            0 <= i < window::stable_sort(window::part(window::part(r, h, false), g, true)).len()
                ==> h <= window::stable_sort(
                window::part(window::part(r, h, false), g, true),
            )[i].local_vt,
{
    let hi = window::part(r, h, false);
    let mid = window::part(hi, g, true);
    let q = window::stable_sort(mid);
    law_sort_sorts(mid);
    window::lemma_part_sides(r, h);
    lemma_part_inside(hi, g, true);
    let ix = choose|ix: spec_fn(int) -> int| #[trigger] embeds(mid, hi, ix);
    assert forall|i: int| 0 <= i < q.len() implies h <= (#[trigger] q[i]).local_vt by {
        lemma_same_elements(q, mid, i);
        let k = choose|k: int| 0 <= k < mid.len() && mid[k] == q[i];
        assert(hi[ix(k)] == mid[k]);
        assert(!window::below(hi[ix(k)], h));
    }
}

/// What relates a run with seals to the same run without: the sealed sends are
/// those below the horizon, in sorted order, and the buffered ones are the rest.
proof fn lemma_in_step(width: u64, script: Seq<SeqAct>)
    requires
        width > 0,
        run(window::seq_new(width), script) is Some,
    ensures
        run(window::seq_new(width), without_seals(script)) is Some,
        ({
            let (b, out) = run(window::seq_new(width), script).unwrap();
            let (a, none) = run(window::seq_new(width), without_seals(script)).unwrap();
            &&& a.width == width && b.width == width
            &&& a.conns == b.conns
            &&& a.horizon == 0
            &&& none == Seq::<SendView>::empty()
            &&& out == window::stable_sort(window::part(a.pending, b.horizon, true))
            &&& b.pending == window::part(a.pending, b.horizon, false)
        }),
    decreases script.len(),
{
    let m = window::seq_new(width);
    if script.len() == 0 {
        assert(window::stable_sort(window::part(m.pending, 0, true)) =~= Seq::<SendView>::empty());
        assert(window::part(m.pending, 0, false) =~= Seq::<SendView>::empty());
    } else {
        let front = script.drop_last();
        let act = script.last();
        let (b0, out0) = run(m, front).unwrap();
        let (b, o) = step(b0, act).unwrap();
        lemma_in_step(width, front);
        let (a0, none0) = run(m, without_seals(front)).unwrap();
        match act {
            SeqAct::Seal => {
                let h = b0.horizon;
                let g = window::sealable(b0);
                if g > h {
                    lemma_sort_in_two(a0.pending, h, g);
                    lemma_part_twice(a0.pending, h, g, false);
                } else {
                    assert(out0 + o =~= out0);
                }
            },
            SeqAct::Send { conn, local_vt, src, dst, payload } => {
                let w = without_seals(script);
                assert(w.drop_last() =~= without_seals(front));
                let a = step(a0, act).unwrap().0;
                let x = a.pending.last();
                assert(a.pending =~= a0.pending.push(x));
                lemma_part_step(a0.pending, x, b0.horizon, true);
                lemma_part_step(a0.pending, x, b0.horizon, false);
                assert(out0 + o =~= out0);
                assert(none0 + Seq::<SendView>::empty() =~= none0);
            },
            _ => {
                let w = without_seals(script);
                assert(w.drop_last() =~= without_seals(front));
                assert(w.last() == act);
                assert(out0 + o =~= out0);
                assert(none0 + Seq::<SendView>::empty() =~= none0);
            },
        }
    }
}

/// Sealing again and again, at any points of a run, hands out the same sends
/// in the same order as sealing once at its end, as long as the last seal
/// reaches as far as those before it.
pub proof fn law_incremental_sealing(width: u64, script: Seq<SeqAct>)
    requires
        width > 0,
        run(window::seq_new(width), script) is Some,
        window::sealable(run(window::seq_new(width), script).unwrap().0) >= run(
            window::seq_new(width),
            script,
        ).unwrap().0.horizon,
    ensures
        run(window::seq_new(width), without_seals(script)) is Some,
        run(window::seq_new(width), script).unwrap().1 + window::seal_output(
            run(window::seq_new(width), script).unwrap().0,
        ) == window::seal_output(run(window::seq_new(width), without_seals(script)).unwrap().0),
{
    lemma_in_step(width, script);
    let (b, out) = run(window::seq_new(width), script).unwrap();
    let (a, none) = run(window::seq_new(width), without_seals(script)).unwrap();
    let h = b.horizon;
    let g = window::sealable(b);
    assert(window::sealable(a) == g);
    if g > h {
        lemma_sort_in_two(a.pending, h, g);
    } else {
        assert(out + window::seal_output(b) =~= out);
        if g == 0 {
            lemma_nothing_below_zero(a.pending);
        }
    }
}

proof fn lemma_nothing_below_zero(s: Seq<SendView>)
    ensures
        window::part(s, 0, true) == Seq::<SendView>::empty(),
    decreases s.len(),
{
    if s.len() > 0 {
        lemma_nothing_below_zero(s.drop_last());
    } else {
        assert(window::part(s, 0, true) =~= Seq::<SendView>::empty());
    }
}

/// Once every connection has released its frontier, one seal hands out all
/// that is buffered and leaves the sequencer quiescent.
pub proof fn law_release_drains(m: SeqModel)
    requires
        window::seq_ok(m),
        forall|k: u64| #[trigger]
            m.conns.contains_key(k) ==> window::effective(m.conns[k]) == INFINITY,
    ensures
        window::seal_output(m) == window::stable_sort(m.pending),
        window::quiescent(window::seq_sealed(m)),
{
    assert(window::is_min_frontier(m.conns, INFINITY));
    let f = window::min_frontier(m.conns);
    assert(window::is_min_frontier(m.conns, f));
    if f != INFINITY {
        let k = choose|k: u64| #[trigger]
            m.conns.contains_key(k) && window::effective(m.conns[k]) == f;
        assert(m.conns.contains_key(k));
    }
    lemma_all_below_infinity(m.pending);
    if m.horizon == INFINITY {
        assert(m.pending.len() == 0) by {
            if m.pending.len() > 0 {
                assert(!window::below(m.pending[0], INFINITY));
            }
        }
        assert(window::seal_output(m) =~= window::stable_sort(m.pending));
    }
}

proof fn lemma_all_below_infinity(s: Seq<SendView>)
    ensures
        window::part(s, INFINITY, true) == s,
        window::part(s, INFINITY, false).len() == 0,
    decreases s.len(),
{
    if s.len() > 0 {
        lemma_all_below_infinity(s.drop_last());
        assert(s =~= s.drop_last().push(s.last()));
    }
}

} // verus!
