//! Per-partition high-water marks, and the entry-list-to-map reading shared
//! with the batcher: a list of keyed entries, no key twice, read as a `Map`.
use vstd::prelude::*;
use crate::partition::{PartitionKey, PartitionKeyV};

verus! {

/// The mapping an entry list stands for.
pub open spec fn map_of<V>(s: Seq<(PartitionKeyV, V)>) -> Map<PartitionKeyV, V>
    decreases s.len(),
{
    if s.len() == 0 {
        Map::empty()
    } else {
        map_of(s.drop_last()).insert(s.last().0, s.last().1)
    }
}

/// No key appears twice.
pub open spec fn distinct_keys<V>(s: Seq<(PartitionKeyV, V)>) -> bool {
    forall|i: int, j: int| 0 <= i < j < s.len() ==> (#[trigger] s[i]).0 != (#[trigger] s[j]).0
}

pub proof fn lemma_distinct_drop_last<V>(s: Seq<(PartitionKeyV, V)>)
    requires
        distinct_keys(s),
        s.len() > 0,
    ensures
        distinct_keys(s.drop_last()),
{
    assert forall|i: int, j: int| 0 <= i < j < s.drop_last().len() implies (#[trigger] s.drop_last()[
        i
    ]).0 != (#[trigger] s.drop_last()[j]).0 by {
        assert(s.drop_last()[i] == s[i]);
        assert(s.drop_last()[j] == s[j]);
    }
}

/// A key is in the map exactly when some entry carries it.
pub proof fn lemma_map_of_contains<V>(s: Seq<(PartitionKeyV, V)>, k: PartitionKeyV)
    ensures
        map_of(s).contains_key(k) <==> exists|i: int|
            0 <= i < s.len() && (#[trigger] s[i]).0 == k,
    decreases s.len(),
{
    if s.len() > 0 {
        lemma_map_of_contains(s.drop_last(), k);
        if s.last().0 == k {
            assert((s[s.len() - 1]).0 == k);
        } else {
            if map_of(s).contains_key(k) {
                let i = choose|i: int|
                    0 <= i < s.drop_last().len() && (#[trigger] s.drop_last()[i]).0 == k;
                assert((s[i]).0 == k);
            }
            if exists|i: int| 0 <= i < s.len() && (#[trigger] s[i]).0 == k {
                let i = choose|i: int| 0 <= i < s.len() && (#[trigger] s[i]).0 == k;
                assert(i < s.len() - 1);
                assert((s.drop_last()[i]).0 == k);
            }
        }
    }
}

/// With distinct keys, the entry that carries `k` gives the map's value.
pub proof fn lemma_map_of_found<V>(s: Seq<(PartitionKeyV, V)>, k: PartitionKeyV, i: int)
    requires
        distinct_keys(s),
        0 <= i < s.len(),
        (s[i]).0 == k,
    ensures
        map_of(s).contains_key(k),
        map_of(s)[k] == (s[i]).1,
    decreases s.len(),
{
    if i == s.len() - 1 {
    } else {
        assert((s[s.len() - 1]).0 != k);
        lemma_distinct_drop_last(s);
        assert((s.drop_last()[i]).0 == k);
        lemma_map_of_found(s.drop_last(), k, i);
    }
}

/// Replacing the entry that carries `k` updates the map at `k` alone.
pub proof fn lemma_map_of_update<V>(s: Seq<(PartitionKeyV, V)>, i: int, k: PartitionKeyV, v: V)
    requires
        distinct_keys(s),
        0 <= i < s.len(),
        (s[i]).0 == k,
    ensures
        map_of(s.update(i, (k, v))) == map_of(s).insert(k, v),
    decreases s.len(),
{
    let t = s.update(i, (k, v));
    if i == s.len() - 1 {
        assert(t.drop_last() =~= s.drop_last());
        assert(t.last() == (k, v));
        assert(map_of(t) =~= map_of(s).insert(k, v));
    } else {
        assert((s[s.len() - 1]).0 != k);
        lemma_distinct_drop_last(s);
        assert((s.drop_last()[i]).0 == k);
        lemma_map_of_update(s.drop_last(), i, k, v);
        assert(t.drop_last() =~= s.drop_last().update(i, (k, v)));
        assert(t.last() == s.last());
        assert(map_of(t) =~= map_of(s).insert(k, v));
    }
}

/// Appending a fresh key inserts it.
pub proof fn lemma_map_of_push<V>(s: Seq<(PartitionKeyV, V)>, k: PartitionKeyV, v: V)
    ensures
        map_of(s.push((k, v))) == map_of(s).insert(k, v),
{
    assert(s.push((k, v)).drop_last() =~= s);
    assert(s.push((k, v)).last() == (k, v));
}

/// Removing the entry that carries `k` removes it from the map.
pub proof fn lemma_map_of_remove<V>(s: Seq<(PartitionKeyV, V)>, i: int, k: PartitionKeyV)
    requires
        distinct_keys(s),
        0 <= i < s.len(),
        (s[i]).0 == k,
    ensures
        map_of(s.remove(i)) == map_of(s).remove(k),
    decreases s.len(),
{
    if i == s.len() - 1 {
        assert(s.remove(i) =~= s.drop_last());
        assert forall|j: int| 0 <= j < s.drop_last().len() implies (#[trigger] s.drop_last()[j]).0
            != k by {
            assert(s.drop_last()[j] == s[j]);
        }
        lemma_map_of_contains(s.drop_last(), k);
        assert(!map_of(s.drop_last()).contains_key(k));
        assert(map_of(s.remove(i)) =~= map_of(s).remove(k));
    } else {
        assert((s[s.len() - 1]).0 != k);
        lemma_distinct_drop_last(s);
        assert((s.drop_last()[i]).0 == k);
        lemma_map_of_remove(s.drop_last(), i, k);
        assert(s.remove(i).drop_last() =~= s.drop_last().remove(i));
        assert(s.remove(i).last() == s.last());
        assert(map_of(s.remove(i)) =~= map_of(s).remove(k));
    }
}

/// The entry list read as keyed views.
pub open spec fn mark_views(s: Seq<(PartitionKey, i64)>) -> Seq<(PartitionKeyV, i64)> {
    s.map_values(|p: (PartitionKey, i64)| (p.0@, p.1))
}

/// The last-admitted timestamp of every partition seen so far. Owned by one
/// order corrector; nothing else reads or writes it.
pub struct HighWaterMarks {
    entries: Vec<(PartitionKey, i64)>,
}

impl View for HighWaterMarks {
    type V = Map<PartitionKeyV, i64>;

    closed spec fn view(&self) -> Map<PartitionKeyV, i64> {
        map_of(mark_views(self.entries@))
    }
}

impl HighWaterMarks {
    /// Validity: no partition is tracked twice.
    pub closed spec fn wf(&self) -> bool {
        distinct_keys(mark_views(self.entries@))
    }

    /// No partition tracked yet.
    pub fn new() -> (r: Self)
        ensures
            r@ == Map::<PartitionKeyV, i64>::empty(),
            r.wf(),
    {
        let r = HighWaterMarks { entries: Vec::new() };
        r
    }

    /// The mark for one partition, if the partition was seen.
    pub fn get(&self, k: &PartitionKey) -> (r: Option<i64>)
        requires
            self.wf(),
        ensures
            match r {
                Some(t) => self@.contains_key(k@) && self@[k@] == t,
                None => !self@.contains_key(k@),
            },
    {
        let n = self.entries.len();
        let mut i: usize = 0;
        while i < n
            invariant
                self.wf(),
                n == self.entries@.len(),
                i <= n,
                forall|j: int| 0 <= j < i ==> (#[trigger] mark_views(self.entries@)[j]).0 != k@,
            decreases n - i,
        {
            let e = &self.entries[i];
            if e.0.key_eq(k) {
                proof {
                    lemma_map_of_found(mark_views(self.entries@), k@, i as int);
                }
                return Some(e.1);
            }
            i += 1;
        }
        proof {
            lemma_map_of_contains(mark_views(self.entries@), k@);
        }
        None
    }

    /// Sets the mark for one partition; every other partition's mark stays.
    pub fn insert(&mut self, k: PartitionKey, t: i64)
        requires
            old(self).wf(),
        ensures
            final(self)@ == old(self)@.insert(k@, t),
            final(self).wf(),
    {
        let n = self.entries.len();
        let mut i: usize = 0;
        while i < n
            invariant
                self.wf(),
                n == self.entries@.len(),
                i <= n,
                self.entries@ == old(self).entries@,
                forall|j: int| 0 <= j < i ==> (#[trigger] mark_views(self.entries@)[j]).0 != k@,
            decreases n - i,
        {
            if self.entries[i].0.key_eq(&k) {
                let ghost before = mark_views(self.entries@);
                self.entries.remove(i);
                self.entries.insert(i, (k, t));
                proof {
                    let after = mark_views(self.entries@);
                    assert(after =~= before.update(i as int, (k@, t)));
                    lemma_map_of_update(before, i as int, k@, t);
                    assert forall|a: int, b: int| 0 <= a < b < after.len() implies (
                    #[trigger] after[a]).0 != (#[trigger] after[b]).0 by {
                        assert(before[a].0 == after[a].0);
                        assert(before[b].0 == after[b].0);
                    }
                }
                return;
            }
            i += 1;
        }
        let ghost before = mark_views(self.entries@);
        self.entries.push((k, t));
        proof {
            let after = mark_views(self.entries@);
            assert(after =~= before.push((k@, t)));
            lemma_map_of_push(before, k@, t);
            assert forall|a: int, b: int| 0 <= a < b < after.len() implies (#[trigger] after[a]).0
                != (#[trigger] after[b]).0 by {
                if b < before.len() {
                    assert(before[a].0 == after[a].0);
                    assert(before[b].0 == after[b].0);
                } else {
                    assert(after[b].0 == k@);
                    assert(before[a].0 == after[a].0);
                }
            }
        }
    }
}

} // verus!
