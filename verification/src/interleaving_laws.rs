//! Laws of arrival: runs of the sequencer that every connection sees alike give
//! the same, however the connections are interleaved.

use vstd::prelude::*;

use crate::window;
use crate::window::{SendView, SeqModel};
use crate::window_laws;
use crate::window_laws::{act_conn, run, same_up_to_arrival, step, SeqAct};

verus! {

/// Whether a connection takes part in a call: in its own, and in every seal.
pub open spec fn concerns(a: SeqAct, conn: u64) -> bool {
    act_conn(a) is None || act_conn(a) == Some(conn)
}

/// What a connection sees of a script.
pub open spec fn seen_by(script: Seq<SeqAct>, conn: u64) -> Seq<SeqAct> {
    script.filter(|a: SeqAct| concerns(a, conn))
}

/// Every connection sees the same of both scripts.
pub open spec fn same_to_all(s: Seq<SeqAct>, t: Seq<SeqAct>) -> bool {
    forall|conn: u64| #[trigger] seen_by(s, conn) == seen_by(t, conn)
}

/// Two runs end alike, with the same handed out.
pub open spec fn end_alike(
    a: Option<(SeqModel, Seq<SendView>)>,
    b: Option<(SeqModel, Seq<SendView>)>,
) -> bool {
    &&& a is Some && b is Some
    &&& a.unwrap().1 == b.unwrap().1
    &&& same_up_to_arrival(a.unwrap().0, b.unwrap().0)
}

/// A run of two scripts, one behind the other.
proof fn lemma_run_add(m: SeqModel, s: Seq<SeqAct>, t: Seq<SeqAct>)
    ensures
        run(m, s + t) is Some <==> run(m, s) is Some && run(run(m, s).unwrap().0, t) is Some,
        run(m, s + t) is Some ==> run(m, s + t).unwrap().0 == run(
            run(m, s).unwrap().0,
            t,
        ).unwrap().0 && run(m, s + t).unwrap().1 == run(m, s).unwrap().1 + run(
            run(m, s).unwrap().0,
            t,
        ).unwrap().1,
    decreases t.len(),
{
    if t.len() == 0 {
        assert(s + t =~= s);
        if run(m, s) is Some {
            assert(run(m, s).unwrap().1 + Seq::<SendView>::empty() =~= run(m, s).unwrap().1);
        }
    } else {
        let u = t.drop_last();
        lemma_run_add(m, s, u);
        assert((s + t).drop_last() =~= s + u);
        assert((s + t).last() == t.last());
        if run(m, s + t) is Some {
            let n = run(m, s).unwrap().0;
            let o = step(run(n, u).unwrap().0, t.last()).unwrap().1;
            assert(run(m, s).unwrap().1 + run(n, u).unwrap().1 + o =~= run(m, s).unwrap().1 + (run(
                n,
                u,
            ).unwrap().1 + o));
        }
    }
}

proof fn lemma_run_one(m: SeqModel, a: SeqAct)
    ensures
        run(m, seq![a]) is Some <==> step(m, a) is Some,
        step(m, a) is Some ==> run(m, seq![a]).unwrap() == step(m, a).unwrap(),
{
    reveal_with_fuel(run, 2);
    assert(seq![a].drop_last() =~= Seq::<SeqAct>::empty());
    if step(m, a) is Some {
        assert(Seq::<SendView>::empty() + step(m, a).unwrap().1 =~= step(m, a).unwrap().1);
    }
}

/// States that differ in arrival alone go on alike.
proof fn lemma_run_same(m: SeqModel, n: SeqModel, script: Seq<SeqAct>)
    requires
        same_up_to_arrival(m, n),
        window_laws::orderly(m),
        run(m, script) is Some,
    ensures
        end_alike(run(m, script), run(n, script)),
    decreases script.len(),
{
    if script.len() > 0 {
        let u = script.drop_last();
        lemma_run_same(m, n, u);
        window_laws::lemma_run_orderly(m, u);
        window_laws::lemma_step_same(
            run(m, u).unwrap().0,
            run(n, u).unwrap().0,
            script.last(),
        );
    }
}

/// A call can be moved behind calls on other connections.
proof fn lemma_move_back(m: SeqModel, a: SeqAct, u: Seq<SeqAct>)
    requires
        window_laws::orderly(m),
        act_conn(a) is Some,
        forall|i: int|
            0 <= i < u.len() ==> act_conn(#[trigger] u[i]) is Some && act_conn(u[i]) != act_conn(a),
        run(m, seq![a] + u) is Some,
    ensures
        end_alike(run(m, seq![a] + u), run(m, u + seq![a])),
    decreases u.len(),
{
    if u.len() == 0 {
        assert(seq![a] + u =~= u + seq![a]);
    } else {
        let v = u.drop_last();
        let x = u.last();
        assert(act_conn(u[u.len() - 1]) is Some);
        assert forall|i: int| 0 <= i < v.len() implies act_conn(#[trigger] v[i]) is Some
            && act_conn(v[i]) != act_conn(a) by {
            assert(v[i] == u[i]);
        }
        assert(seq![a] + u =~= (seq![a] + v) + seq![x]);
        lemma_run_add(m, seq![a] + v, seq![x]);
        lemma_move_back(m, a, v);
        let p = run(m, seq![a] + v).unwrap().0;
        let q = run(m, v + seq![a]).unwrap().0;
        window_laws::lemma_run_orderly(m, seq![a] + v);
        lemma_run_same(p, q, seq![x]);
        lemma_run_add(m, v + seq![a], seq![x]);
        lemma_run_add(m, v, seq![a]);
        let n = run(m, v).unwrap().0;
        lemma_run_one(n, a);
        lemma_run_one(q, x);
        window_laws::lemma_swap(n, a, x);
        let nx = step(n, x).unwrap().0;
        window_laws::lemma_no_output(n, a);
        window_laws::lemma_no_output(n, x);
        window_laws::lemma_no_output(step(n, a).unwrap().0, x);
        window_laws::lemma_no_output(nx, a);
        lemma_run_one(n, x);
        lemma_run_one(nx, a);
        lemma_run_add(m, v, seq![x]);
        assert(v + seq![x] =~= u);
        lemma_run_add(m, u, seq![a]);
        lemma_run_one(p, x);
        window_laws::lemma_no_output(p, x);
        let out = run(m, v).unwrap().1;
        let none = Seq::<SendView>::empty();
        assert(out + none =~= out);
        assert(run(m, seq![a] + v).unwrap().1 + none =~= run(m, seq![a] + v).unwrap().1);
    }
}

proof fn lemma_seen_add(s: Seq<SeqAct>, t: Seq<SeqAct>, conn: u64)
    ensures
        seen_by(s + t, conn) == seen_by(s, conn) + seen_by(t, conn),
{
    Seq::filter_distributes_over_add(s, t, |a: SeqAct| concerns(a, conn));
}

proof fn lemma_seen_one(a: SeqAct, conn: u64)
    ensures
        seen_by(seq![a], conn) == if concerns(a, conn) {
            seq![a]
        } else {
            Seq::empty()
        },
{
    reveal(Seq::filter);
    let p = |a: SeqAct| concerns(a, conn);
    assert(seq![a].drop_last() =~= Seq::<SeqAct>::empty());
    assert(Seq::<SeqAct>::empty().filter(p) =~= Seq::<SeqAct>::empty());
    assert(Seq::<SeqAct>::empty().push(a) =~= seq![a]);
}

/// Nothing is seen of a script that a connection has no part in.
proof fn lemma_seen_nothing(s: Seq<SeqAct>, conn: u64)
    requires
        forall|i: int| 0 <= i < s.len() ==> !concerns(#[trigger] s[i], conn),
    ensures
        seen_by(s, conn) == Seq::<SeqAct>::empty(),
    decreases s.len(),
{
    if s.len() == 0 {
        reveal(Seq::filter);
        assert(seen_by(s, conn) =~= Seq::<SeqAct>::empty());
    } else {
        let u = s.drop_last();
        assert(s =~= u + seq![s.last()]);
        assert(!concerns(s[s.len() - 1], conn));
        assert forall|i: int| 0 <= i < u.len() implies !concerns(#[trigger] u[i], conn) by {
            assert(u[i] == s[i]);
        }
        lemma_seen_nothing(u, conn);
        lemma_seen_add(u, seq![s.last()], conn);
        lemma_seen_one(s.last(), conn);
        assert(seen_by(s, conn) =~= Seq::<SeqAct>::empty());
    }
}

/// The first call that a connection takes part in, from `i` on.
spec fn first_of(s: Seq<SeqAct>, conn: u64, i: int) -> int
    decreases s.len() - i,
{
    if i < 0 || i >= s.len() || concerns(s[i], conn) {
        i
    } else {
        first_of(s, conn, i + 1)
    }
}

proof fn lemma_first_of(s: Seq<SeqAct>, conn: u64, i: int)
    requires
        0 <= i <= s.len(),
    ensures
        i <= first_of(s, conn, i) <= s.len(),
        first_of(s, conn, i) < s.len() ==> concerns(s[first_of(s, conn, i)], conn),
        forall|j: int| i <= j < first_of(s, conn, i) ==> !concerns(#[trigger] s[j], conn),
    decreases s.len() - i,
{
    if i < s.len() && !concerns(s[i], conn) {
        lemma_first_of(s, conn, i + 1);
    }
}

/// What a connection sees begins with the first call it takes part in.
proof fn lemma_seen_from(s: Seq<SeqAct>, conn: u64)
    ensures
        ({
            let p = first_of(s, conn, 0);
            if p < s.len() {
                seen_by(s, conn) == seq![s[p]] + seen_by(s.skip(p + 1), conn)
            } else {
                seen_by(s, conn) == Seq::<SeqAct>::empty()
            }
        }),
{
    let p = first_of(s, conn, 0);
    lemma_first_of(s, conn, 0);
    let front = s.take(p);
    assert forall|i: int| 0 <= i < front.len() implies !concerns(#[trigger] front[i], conn) by {
        assert(front[i] == s[i]);
    }
    lemma_seen_nothing(front, conn);
    if p < s.len() {
        let back = s.skip(p + 1);
        assert(s =~= front + (seq![s[p]] + back));
        lemma_seen_add(front, seq![s[p]] + back, conn);
        lemma_seen_add(seq![s[p]], back, conn);
        lemma_seen_one(s[p], conn);
        assert(seen_by(s, conn) =~= seq![s[p]] + seen_by(back, conn));
    } else {
        assert(s =~= front);
    }
}

/// Where the first call of `s` stands in a script that everyone sees alike: in
/// front of it are calls on other connections alone.
proof fn lemma_first_found(s: Seq<SeqAct>, t: Seq<SeqAct>) -> (p: int)
    requires
        same_to_all(s, t),
        s.len() > 0,
    ensures
        0 <= p < t.len(),
        t[p] == s[0],
        act_conn(s[0]) is None ==> p == 0,
        forall|i: int|
            0 <= i < p ==> act_conn(#[trigger] t[i]) is Some && act_conn(t[i]) != act_conn(s[0]),
        same_to_all(s.skip(1), t.take(p) + t.skip(p + 1)),
{
    let a = s[0];
    let conn = match act_conn(a) {
        Some(c) => c,
        None => 0,
    };
    let p = first_of(t, conn, 0);
    lemma_first_of(t, conn, 0);
    lemma_seen_from(s, conn);
    lemma_seen_from(t, conn);
    assert(first_of(s, conn, 0) == 0);
    assert(seen_by(s, conn)[0] == a);
    assert(seen_by(s, conn) == seen_by(t, conn));
    assert(p < t.len());
    assert(t[p] == a) by {
        assert(seen_by(t, conn)[0] == t[p]);
    }
    if act_conn(a) is None && p > 0 {
        // The connection of the first call would see it in front of the seal.
        assert(!concerns(t[0], conn));
        let c = act_conn(t[0]).unwrap();
        lemma_seen_from(s, c);
        lemma_seen_from(t, c);
        assert(first_of(t, c, 0) == 0);
        assert(first_of(s, c, 0) == 0);
        assert(seen_by(s, c) == seen_by(t, c));
        assert(seen_by(t, c)[0] == t[0]);
        assert(seen_by(s, c)[0] == a);
        assert(false);
    }
    assert forall|i: int| 0 <= i < p implies act_conn(#[trigger] t[i]) is Some && act_conn(t[i])
        != act_conn(a) by {
        assert(!concerns(t[i], conn));
    }
    let front = t.take(p);
    let back = t.skip(p + 1);
    let rest = s.skip(1);
    assert(s =~= seq![a] + rest);
    assert(t =~= front + (seq![a] + back));
    assert forall|c: u64| #[trigger] seen_by(rest, c) == seen_by(front + back, c) by {
        assert(seen_by(s, c) == seen_by(t, c));
        lemma_seen_add(seq![a], rest, c);
        lemma_seen_add(front, seq![a] + back, c);
        lemma_seen_add(seq![a], back, c);
        lemma_seen_add(front, back, c);
        lemma_seen_one(a, c);
        if concerns(a, c) {
            assert forall|i: int| 0 <= i < front.len() implies !concerns(#[trigger] front[i], c) by {
                assert(front[i] == t[i]);
            }
            lemma_seen_nothing(front, c);
            let x = seq![a] + seen_by(rest, c);
            let y = seen_by(front, c) + (seq![a] + seen_by(back, c));
            assert(x == y);
            assert(y =~= seq![a] + seen_by(back, c));
            assert(seen_by(rest, c) =~= x.skip(1));
            assert(seen_by(back, c) =~= (seq![a] + seen_by(back, c)).skip(1));
            assert(seen_by(front + back, c) =~= seen_by(back, c));
        } else {
            let none = Seq::<SeqAct>::empty();
            assert(none + seen_by(rest, c) =~= seen_by(rest, c));
            assert(none + seen_by(back, c) =~= seen_by(back, c));
        }
    }
    p
}

proof fn lemma_interleaved(m: SeqModel, s: Seq<SeqAct>, t: Seq<SeqAct>)
    requires
        window_laws::orderly(m),
        same_to_all(s, t),
        run(m, s) is Some,
    ensures
        end_alike(run(m, s), run(m, t)),
    decreases s.len(),
{
    if s.len() == 0 {
        if t.len() > 0 {
            let p = lemma_first_found(t, s);
        }
        assert(t =~= s);
    } else {
        let a = s[0];
        let p = lemma_first_found(s, t);
        let front = t.take(p);
        let back = t.skip(p + 1);
        let rest = s.skip(1);
        assert(s =~= seq![a] + rest);
        lemma_run_add(m, seq![a], rest);
        lemma_run_one(m, a);
        let n = step(m, a).unwrap().0;
        window_laws::lemma_step_orderly(m, a);
        lemma_interleaved(n, rest, front + back);
        lemma_run_add(m, seq![a], front + back);
        assert(seq![a] + (front + back) =~= (seq![a] + front) + back);
        lemma_run_add(m, seq![a] + front, back);
        if p == 0 {
            assert(front =~= Seq::<SeqAct>::empty());
            assert(seq![a] + front =~= front + seq![a]);
            window_laws::lemma_run_orderly(m, seq![a] + front);
        } else {
            assert forall|i: int| 0 <= i < front.len() implies act_conn(#[trigger] front[i]) is Some
                && act_conn(front[i]) != act_conn(a) by {
                assert(front[i] == t[i]);
            }
            lemma_move_back(m, a, front);
        }
        let x = run(m, seq![a] + front).unwrap().0;
        let y = run(m, front + seq![a]).unwrap().0;
        window_laws::lemma_run_orderly(m, seq![a] + front);
        lemma_run_same(x, y, back);
        lemma_run_add(m, front + seq![a], back);
        assert(t =~= (front + seq![a]) + back);
    }
}

/// The order in which calls of different connections arrive has no influence:
/// two scripts of which every connection sees the same, its own calls and the
/// seals between them, run alike. They hand out the same sends in the same
/// order, and leave states that differ at most in the order of arrival of what
/// is still buffered.
pub proof fn law_interleaving_does_not_show(width: u64, s: Seq<SeqAct>, t: Seq<SeqAct>)
    requires
        width > 0,
        same_to_all(s, t),
        run(window::seq_new(width), s) is Some,
    ensures
        run(window::seq_new(width), t) is Some,
        run(window::seq_new(width), s).unwrap().1 == run(window::seq_new(width), t).unwrap().1,
        same_up_to_arrival(
            run(window::seq_new(width), s).unwrap().0,
            run(window::seq_new(width), t).unwrap().0,
        ),
        window::seal_output(run(window::seq_new(width), s).unwrap().0) == window::seal_output(
            run(window::seq_new(width), t).unwrap().0,
        ),
        window::seq_sealed(run(window::seq_new(width), s).unwrap().0).horizon
            == window::seq_sealed(run(window::seq_new(width), t).unwrap().0).horizon,
{
    let m = window::seq_new(width);
    assert(window_laws::orderly(m));
    lemma_interleaved(m, s, t);
    window_laws::lemma_run_orderly(m, s);
    window_laws::law_seal_ignores_arrival(run(m, s).unwrap().0, run(m, t).unwrap().0);
}

} // verus!
