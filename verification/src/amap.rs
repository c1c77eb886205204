//! A small map over a vector of entries, viewed as a mathematical map. Its keys
//! are structs, which are compared by their fields.

use vstd::prelude::*;

verus! {

/// A key that can be compared for equality.
pub trait Key: Copy {
    fn same(&self, other: &Self) -> (b: bool)
        ensures
            b == (*self == *other),
    ;
}

/// A map whose entries keep the order in which their keys first came.
#[derive(Clone, Debug)]
pub struct AMap<K, V> {
    pub entries: Vec<(K, V)>,
}

/// No key occurs twice.
pub open spec fn distinct_keys<K, V>(e: Seq<(K, V)>) -> bool {
    forall|i: int, j: int| 0 <= i < j < e.len() ==> (#[trigger] e[i]).0 != (#[trigger] e[j]).0
}

/// The map that a sequence of entries stands for.
pub open spec fn entries_map<K, V>(e: Seq<(K, V)>) -> Map<K, V>
    decreases e.len(),
{
    if e.len() == 0 {
        Map::empty()
    } else {
        entries_map(e.drop_last()).insert(e.last().0, e.last().1)
    }
}

impl<K, V> View for AMap<K, V> {
    type V = Map<K, V>;

    open spec fn view(&self) -> Map<K, V> {
        entries_map(self.entries@)
    }
}

/// A key is in the map where an entry holds it.
pub proof fn lemma_entries_dom<K, V>(e: Seq<(K, V)>, k: K)
    ensures
        entries_map(e).contains_key(k) <==> exists|i: int|
            0 <= i < e.len() && (#[trigger] e[i]).0 == k,
        entries_map(e).dom().finite(),
    decreases e.len(),
{
    if e.len() > 0 {
        lemma_entries_dom(e.drop_last(), k);
        if entries_map(e.drop_last()).contains_key(k) {
            let i = choose|i: int|
                0 <= i < e.drop_last().len() && (#[trigger] e.drop_last()[i]).0 == k;
            assert(e[i].0 == k);
        }
        if exists|i: int| 0 <= i < e.len() && (#[trigger] e[i]).0 == k {
            let i = choose|i: int| 0 <= i < e.len() && (#[trigger] e[i]).0 == k;
            if i < e.len() - 1 {
                assert(e.drop_last()[i].0 == k);
            } else {
                assert(e.last().0 == k);
            }
        }
        if e.last().0 == k {
            assert(e[e.len() - 1].0 == k);
        }
    }
}

/// An entry gives its key's value.
pub proof fn lemma_entries_value<K, V>(e: Seq<(K, V)>, i: int)
    requires
        distinct_keys(e),
        0 <= i < e.len(),
    ensures
        entries_map(e).contains_key(e[i].0),
        entries_map(e)[e[i].0] == e[i].1,
    decreases e.len(),
{
    if i < e.len() - 1 {
        assert forall|a: int, b: int| 0 <= a < b < e.drop_last().len() implies (
        #[trigger] e.drop_last()[a]).0 != (#[trigger] e.drop_last()[b]).0 by {
            assert(e[a].0 != e[b].0);
        }
        lemma_entries_value(e.drop_last(), i);
        assert(e.drop_last()[i] == e[i]);
        assert(e[i].0 != e[e.len() - 1].0);
    }
}

/// Changing one value changes the map there and nowhere else.
proof fn lemma_entries_update<K, V>(e: Seq<(K, V)>, i: int, v: V)
    requires
        distinct_keys(e),
        0 <= i < e.len(),
    ensures
        distinct_keys(e.update(i, (e[i].0, v))),
        entries_map(e.update(i, (e[i].0, v))) == entries_map(e).insert(e[i].0, v),
    decreases e.len(),
{
    let f = e.update(i, (e[i].0, v));
    assert forall|a: int, b: int| 0 <= a < b < f.len() implies (#[trigger] f[a]).0 != (
    #[trigger] f[b]).0 by {
        assert(e[a].0 != e[b].0);
    }
    if i < e.len() - 1 {
        assert forall|a: int, b: int| 0 <= a < b < e.drop_last().len() implies (
        #[trigger] e.drop_last()[a]).0 != (#[trigger] e.drop_last()[b]).0 by {
            assert(e[a].0 != e[b].0);
        }
        lemma_entries_update(e.drop_last(), i, v);
        assert(f.drop_last() =~= e.drop_last().update(i, (e[i].0, v)));
        assert(e[i].0 != e[e.len() - 1].0);
        assert(entries_map(f) =~= entries_map(e).insert(e[i].0, v));
    } else {
        assert(f.drop_last() =~= e.drop_last());
        assert(entries_map(f) =~= entries_map(e).insert(e[i].0, v));
    }
}

/// Taking an entry out takes its key out.
pub proof fn lemma_entries_remove<K, V>(e: Seq<(K, V)>, i: int)
    requires
        distinct_keys(e),
        0 <= i < e.len(),
    ensures
        distinct_keys(e.remove(i)),
        entries_map(e.remove(i)) == entries_map(e).remove(e[i].0),
    decreases e.len(),
{
    let f = e.remove(i);
    assert forall|a: int, b: int| 0 <= a < b < f.len() implies (#[trigger] f[a]).0 != (
    #[trigger] f[b]).0 by {
        let x = if a < i {
            a
        } else {
            a + 1
        };
        let y = if b < i {
            b
        } else {
            b + 1
        };
        assert(e[x].0 != e[y].0);
    }
    if i < e.len() - 1 {
        assert forall|a: int, b: int| 0 <= a < b < e.drop_last().len() implies (
        #[trigger] e.drop_last()[a]).0 != (#[trigger] e.drop_last()[b]).0 by {
            assert(e[a].0 != e[b].0);
        }
        lemma_entries_remove(e.drop_last(), i);
        assert(f.drop_last() =~= e.drop_last().remove(i));
        assert(f.last() == e.last());
        assert(e[i].0 != e[e.len() - 1].0);
        assert(entries_map(f) =~= entries_map(e).remove(e[i].0));
    } else {
        assert(f =~= e.drop_last());
        lemma_entries_dom(e.drop_last(), e[i].0);
        if entries_map(e.drop_last()).contains_key(e[i].0) {
            let j = choose|j: int|
                0 <= j < e.drop_last().len() && (#[trigger] e.drop_last()[j]).0 == e[i].0;
            assert(e[j].0 != e[i].0);
        }
        assert(entries_map(f) =~= entries_map(e).remove(e[i].0));
    }
}

impl<K: Key, V> AMap<K, V> {
    pub open spec fn wf(&self) -> bool {
        distinct_keys(self.entries@)
    }

    #[must_use]
    pub fn new() -> (r: Self)
        ensures
            r.wf(),
            r@ == Map::<K, V>::empty(),
            r.entries@.len() == 0,
    {
        AMap { entries: Vec::new() }
    }

    /// The position of the entry for `k`; the number of entries without one.
    fn find(&self, k: &K) -> (i: usize)
        requires
            self.wf(),
        ensures
            i <= self.entries@.len(),
            i < self.entries@.len() ==> self.entries@[i as int].0 == *k,
            i < self.entries@.len() <==> self@.contains_key(*k),
            i < self.entries@.len() ==> self@[*k] == self.entries@[i as int].1,
    {
        let mut i: usize = 0;
        while i < self.entries.len()
            invariant
                self.wf(),
                i <= self.entries@.len(),
                forall|j: int| 0 <= j < i ==> (#[trigger] self.entries@[j]).0 != *k,
            decreases self.entries@.len() - i,
        {
            if self.entries[i].0.same(k) {
                proof {
                    lemma_entries_value(self.entries@, i as int);
                }
                return i;
            }
            i = i + 1;
        }
        proof {
            lemma_entries_dom(self.entries@, *k);
        }
        i
    }

    #[must_use]
    pub fn get(&self, k: &K) -> (r: Option<&V>)
        requires
            self.wf(),
        ensures
            match r {
                Some(v) => self@.contains_key(*k) && *v == self@[*k],
                None => !self@.contains_key(*k),
            },
    {
        let i = self.find(k);
        if i < self.entries.len() {
            Some(&self.entries[i].1)
        } else {
            None
        }
    }

    /// Set the value for `k`.
    pub fn insert(&mut self, k: K, v: V)
        requires
            old(self).wf(),
        ensures
            final(self).wf(),
            final(self)@ == old(self)@.insert(k, v),
    {
        let i = self.find(&k);
        let ghost e = self.entries@;
        if i < self.entries.len() {
            self.entries.set(i, (k, v));
            proof {
                lemma_entries_update(e, i as int, v);
            }
        } else {
            self.entries.push((k, v));
            proof {
                assert(self.entries@.drop_last() =~= e);
                lemma_entries_dom(e, k);
                assert forall|a: int, b: int| 0 <= a < b < self.entries@.len() implies (
                #[trigger] self.entries@[a]).0 != (#[trigger] self.entries@[b]).0 by {
                    if b < e.len() {
                        assert(e[a].0 != e[b].0);
                    } else {
                        assert(e[a].0 != k);
                    }
                }
            }
        }
    }
}

} // verus!
