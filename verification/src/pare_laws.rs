//! The laws of one round of paring a failure down, and of what a reproducer
//! says of itself.

use vstd::prelude::*;

use crate::input;
use crate::input::OpView;
use crate::shrink;

verus! {

/// The `j`-th part of the operations is left out.
pub open spec fn spared(ops: Seq<OpView>, size: nat, j: int) -> Seq<OpView> {
    shrink::without(ops, (j * size) as nat, ((j + 1) * size) as nat)
}

/// A round takes the first part that can be left out with the failure still
/// there, and none where no part can; it tries every part, while it may.
pub proof fn law_round_takes_the_first(
    bad: spec_fn(Seq<OpView>) -> bool,
    ops: Seq<OpView>,
    size: nat,
    k: nat,
    count: nat,
    j: int,
)
    requires
        count + k <= shrink::MAX_EXECUTIONS,
        0 <= j < k,
    ensures
        ({
            let (won, c) = shrink::tried(bad, ops, size, k, count);
            &&& c == count + k
            &&& won is None ==> !bad(spared(ops, size, j))
            &&& bad(spared(ops, size, j)) && (forall|i: int|
                0 <= i < j ==> !bad(#[trigger] spared(ops, size, i))) ==> won == Some(
                spared(ops, size, j),
            )
            &&& won matches Some(s) ==> bad(s)
        }),
    decreases k,
{
    let (before, c) = shrink::tried(bad, ops, size, (k - 1) as nat, count);
    if k > 1 {
        law_round_takes_the_first(bad, ops, size, (k - 1) as nat, count, if j < k - 1 {
            j
        } else {
            0
        });
    }
    assert(c == count + k - 1);
    let last = shrink::without(ops, ((k - 1) * size) as nat, (k * size) as nat);
    assert(last == spared(ops, size, k - 1));
    if j == k - 1 && bad(last) && (forall|i: int|
        0 <= i < j ==> !bad(#[trigger] spared(ops, size, i))) {
        lemma_none(bad, ops, size, (k - 1) as nat, count);
    }
}

proof fn lemma_none(
    bad: spec_fn(Seq<OpView>) -> bool,
    ops: Seq<OpView>,
    size: nat,
    k: nat,
    count: nat,
)
    requires
        forall|i: int| 0 <= i < k ==> !bad(#[trigger] spared(ops, size, i)),
    ensures
        shrink::tried(bad, ops, size, k, count).0 is None,
    decreases k,
{
    if k > 0 {
        lemma_none(bad, ops, size, (k - 1) as nat, count);
        let last = shrink::without(ops, ((k - 1) * size) as nat, (k * size) as nat);
        assert(last == spared(ops, size, k - 1));
    }
}

/// Leaving out the operations from the `lo`-th to the `hi`-th that may be left
/// out keeps every connect, and every other operation that is not among them.
pub proof fn law_what_is_left_out(ops: Seq<OpView>, lo: nat, hi: nat)
    ensures
        shrink::without(ops, lo, lo) == ops,
        lo <= hi <= shrink::removables(ops) ==> shrink::removables(shrink::without(ops, lo, hi))
            == shrink::removables(ops) - (hi - lo),
        forall|i: int|
            0 <= i < ops.len() && (#[trigger] ops[i]) is Connect ==> shrink::without(
                ops,
                lo,
                hi,
            ).contains(ops[i]),
    decreases ops.len(),
{
    if ops.len() > 0 {
        let p = ops.drop_last();
        let x = ops.last();
        law_what_is_left_out(p, lo, hi);
        let q = shrink::without(p, lo, hi);
        assert(p.push(x) =~= ops);
        assert(q.push(x).drop_last() =~= q);
        lemma_at_most(p, lo, hi);
        assert forall|i: int| 0 <= i < ops.len() && (#[trigger] ops[i]) is Connect implies
            shrink::without(ops, lo, hi).contains(ops[i]) by {
            if i < p.len() {
                assert(p[i] == ops[i]);
                assert(q.contains(p[i]));
                let k = choose|k: int| 0 <= k < q.len() && q[k] == p[i];
                assert(q.push(x)[k] == ops[i]);
            } else {
                assert(q.push(x)[q.len() as int] == x);
            }
        }
    } else {
        assert(shrink::without(ops, lo, hi) =~= ops);
    }
}

/// How many operations that may be left out stay, wherever the range ends.
proof fn lemma_at_most(ops: Seq<OpView>, lo: nat, hi: nat)
    ensures
        ({
            let r = shrink::removables(ops);
            let kept = shrink::removables(shrink::without(ops, lo, hi));
            &&& r <= lo || hi <= lo ==> kept == r
            &&& lo <= r <= hi ==> kept == lo
            &&& lo <= hi <= r ==> kept == r - (hi - lo)
        }),
    decreases ops.len(),
{
    if ops.len() > 0 {
        let p = ops.drop_last();
        lemma_at_most(p, lo, hi);
        let q = shrink::without(p, lo, hi);
        assert(q.push(ops.last()).drop_last() =~= q);
    }
}

/// A reproducer says with which seed and on which network it was made, that it
/// has no windows, and what it is.
pub proof fn law_reproducer_names_its_inputs(seed: u64, net: Seq<char>, label: Seq<char>)
    ensures
        ({
            let h = input::exec_header(seed, net, label);
            h.seed == seed && h.net == net && h.window_ns == 0 && h.meta.label == Some(label)
        }),
{
}

/// What is said of paring a failure down is true: how many operations there
/// were and how many are left; and where the failure is not there at all,
/// nothing is changed.
pub proof fn law_what_is_said_of_paring(
    bad: spec_fn(Seq<OpView>) -> bool,
    ops: Seq<OpView>,
    first: Option<u64>,
)
    ensures
        ({
            let (r, stats) = shrink::shrunk(bad, ops, first);
            &&& stats.ops_before == ops.len() as usize
            &&& stats.ops_after == r.len() as usize
            &&& first is None ==> r == ops && stats.executions == 1 && !stats.budget_exhausted
        }),
{
}

/// A connect stays if and only if something else on its connection stays;
/// everything else stays.
pub proof fn law_idle_connects_go(ops: Seq<OpView>, n: int, x: OpView)
    requires
        0 <= n <= ops.len(),
    ensures
        shrink::collected(ops, n).contains(x) <==> (exists|i: int|
            0 <= i < n && #[trigger] ops[i] == x) && (x is Connect ==> exists|j: int|
            0 <= j < ops.len() && !((#[trigger] ops[j]) is Connect) && input::conn_of(ops[j])
                == input::conn_of(x)),
    decreases n,
{
    if n > 0 {
        law_idle_connects_go(ops, n - 1, x);
        let p = shrink::collected(ops, n - 1);
        let o = ops[n - 1];
        if shrink::removable(o) || shrink::acts(ops, input::conn_of(o)) {
            let r = p.push(o);
            assert(r[p.len() as int] == o);
            if p.contains(x) {
                let k = choose|k: int| 0 <= k < p.len() && p[k] == x;
                assert(r[k] == x);
            }
            if r.contains(x) {
                let k = choose|k: int| 0 <= k < r.len() && r[k] == x;
                if k < p.len() {
                    assert(p[k] == x);
                }
            }
            if o is Connect {
                let j = choose|j: int|
                    0 <= j < ops.len() && shrink::removable(#[trigger] ops[j]) && input::conn_of(
                        ops[j],
                    ) == input::conn_of(o);
                assert(!(ops[j] is Connect));
            }
        } else {
            assert(forall|j: int|
                0 <= j < ops.len() && !((#[trigger] ops[j]) is Connect) ==> input::conn_of(ops[j])
                    != input::conn_of(o)) by {
                assert forall|j: int|
                    0 <= j < ops.len() && !((#[trigger] ops[j]) is Connect) implies input::conn_of(
                    ops[j],
                ) != input::conn_of(o) by {
                    assert(shrink::removable(ops[j]));
                }
            }
        }
    }
}

} // verus!
