//! Partition-aware batching: each partition accumulates its own open batch;
//! a batch closes when it reaches the configured record count, and the rest
//! drain on flush. Partitions never share a batch.
use vstd::prelude::*;
use crate::marks::{
    distinct_keys, lemma_map_of_contains, lemma_map_of_found, lemma_map_of_push,
    lemma_map_of_remove, lemma_map_of_update, map_of,
};
use crate::partition::{PartitionKey, PartitionKeyV};
use crate::record::{record_views, LokiRecord, RecordV};

verus! {

/// The open batches read as keyed views.
pub open spec fn batch_views(s: Seq<(PartitionKey, Vec<LokiRecord>)>) -> Seq<(
    PartitionKeyV,
    Seq<RecordV>,
)> {
    s.map_values(|p: (PartitionKey, Vec<LokiRecord>)| (p.0@, record_views(p.1@)))
}

/// Groups corrected records into per-partition batches of a bounded record
/// count.
pub struct Batcher {
    max_events: usize,
    open_batches: Vec<(PartitionKey, Vec<LokiRecord>)>,
}

impl View for Batcher {
    type V = Map<PartitionKeyV, Seq<RecordV>>;

    closed spec fn view(&self) -> Map<PartitionKeyV, Seq<RecordV>> {
        map_of(batch_views(self.open_batches@))
    }
}

impl Batcher {
    /// Validity: one open batch per partition, each non-empty and below the
    /// closing threshold.
    pub closed spec fn wf(&self) -> bool {
        &&& self.max_events >= 1
        &&& distinct_keys(batch_views(self.open_batches@))
        &&& forall|i: int| 0 <= i < self.open_batches@.len() ==> 1 <= (#[trigger] self.open_batches@[
            i
        ]).1@.len() < self.max_events
    }

    /// The record count at which a batch closes.
    pub closed spec fn spec_max(&self) -> usize {
        self.max_events
    }

    /// The open batches, keyed, in partition arrival order.
    pub closed spec fn spec_open(&self) -> Seq<(PartitionKeyV, Seq<RecordV>)> {
        batch_views(self.open_batches@)
    }

    pub fn new(max_events: usize) -> (r: Self)
        requires
            max_events >= 1,
        ensures
            r.wf(),
            r@ == Map::<PartitionKeyV, Seq<RecordV>>::empty(),
            r.spec_max() == max_events,
    {
        let r = Batcher { max_events, open_batches: Vec::new() };
        r
    }

    /// Adds one record to its partition's open batch. Exactly when the batch
    /// reaches the threshold it closes and is returned; the record joins the
    /// end of its own partition's batch and no other batch moves.
    pub fn push(&mut self, r: LokiRecord) -> (out: Option<(PartitionKey, Vec<LokiRecord>)>)
        requires
            old(self).wf(),
        ensures
            final(self).wf(),
            final(self).spec_max() == old(self).spec_max(),
            ({
                let k = r.partition@;
                let cur = if old(self)@.contains_key(k) {
                    old(self)@[k]
                } else {
                    Seq::<RecordV>::empty()
                };
                let ext = cur.push(r@);
                if ext.len() >= old(self).spec_max() {
                    &&& match out {
                        Option::Some(b) => b.0@ == k && record_views(b.1@) == ext,
                        Option::None => false,
                    }
                    &&& final(self)@ == old(self)@.remove(k)
                } else {
                    &&& out is None
                    &&& final(self)@ == old(self)@.insert(k, ext)
                }
            }),
    {
        let ghost k = r.partition@;
        let n = self.open_batches.len();
        let mut i: usize = 0;
        while i < n
            invariant
                self.wf(),
                self.spec_max() == old(self).spec_max(),
                self.open_batches@ == old(self).open_batches@,
                n == self.open_batches@.len(),
                i <= n,
                k == r.partition@,
                forall|j: int| 0 <= j < i ==> (#[trigger] batch_views(self.open_batches@)[j]).0
                    != k,
            decreases n - i,
        {
            let hit = self.open_batches[i].0.key_eq(&r.partition);
            proof {
                assert(hit == (self.open_batches@[i as int].0@ == k));
            }
            if hit {
                let ghost before = batch_views(self.open_batches@);
                proof {
                    assert(before[i as int].0 == self.open_batches@[i as int].0@);
                    lemma_map_of_found(before, k, i as int);
                }
                let (bkey, mut batch) = self.open_batches.remove(i);
                let ghost cur = record_views(batch@);
                batch.push(r);
                proof {
                    assert(record_views(batch@) =~= cur.push(r@));
                }
                if batch.len() >= self.max_events {
                    proof {
                        lemma_map_of_remove(before, i as int, k);
                        assert(batch_views(self.open_batches@) =~= before.remove(i as int));
                        let after = batch_views(self.open_batches@);
                        assert forall|a: int, b: int| 0 <= a < b < after.len() implies (
                        #[trigger] after[a]).0 != (#[trigger] after[b]).0 by {
                            if a < i as int {
                                assert(after[a] == before[a]);
                            } else {
                                assert(after[a] == before[a + 1]);
                            }
                            if b < i as int {
                                assert(after[b] == before[b]);
                            } else {
                                assert(after[b] == before[b + 1]);
                            }
                        }
                    }
                    return Some((bkey, batch));
                } else {
                    self.open_batches.insert(i, (bkey, batch));
                    proof {
                        assert(batch_views(self.open_batches@) =~= before.update(
                            i as int,
                            (k, cur.push(r@)),
                        ));
                        lemma_map_of_update(before, i as int, k, cur.push(r@));
                        let after = batch_views(self.open_batches@);
                        assert forall|a: int, b: int| 0 <= a < b < after.len() implies (
                        #[trigger] after[a]).0 != (#[trigger] after[b]).0 by {
                            assert(after[a].0 == before[a].0);
                            assert(after[b].0 == before[b].0);
                        }
                    }
                    return None;
                }
            }
            proof {
                assert((batch_views(self.open_batches@)[i as int]).0 == self.open_batches@[
                    i as int
                ].0@);
            }
            i += 1;
        }
        proof {
            lemma_map_of_contains(batch_views(self.open_batches@), k);
            assert(!old(self)@.contains_key(k));
        }
        let ghost rv0 = r@;
        if self.max_events <= 1 {
            let key = r.partition.clone();
            let mut batch: Vec<LokiRecord> = Vec::new();
            batch.push(r);
            proof {
                assert(record_views(batch@) =~= Seq::<RecordV>::empty().push(rv0));
                assert(old(self)@.remove(k) =~= old(self)@);
            }
            Some((key, batch))
        } else {
            let key = r.partition.clone();
            let mut batch: Vec<LokiRecord> = Vec::new();
            batch.push(r);
            let ghost before = batch_views(self.open_batches@);
            self.open_batches.push((key, batch));
            proof {
                assert(record_views(self.open_batches@.last().1@) =~= Seq::<
                    RecordV,
                >::empty().push(rv0));
                assert(batch_views(self.open_batches@) =~= before.push(
                    (k, Seq::<RecordV>::empty().push(rv0)),
                ));
                lemma_map_of_push(before, k, Seq::<RecordV>::empty().push(rv0));
                let after = batch_views(self.open_batches@);
                assert forall|a: int, b: int| 0 <= a < b < after.len() implies (
                #[trigger] after[a]).0 != (#[trigger] after[b]).0 by {
                    if b < before.len() {
                        assert(after[a] == before[a]);
                        assert(after[b] == before[b]);
                    } else {
                        assert(after[b].0 == k);
                        assert(after[a] == before[a]);
                    }
                }
            }
            None
        }
    }

    /// Drains every open batch, in partition arrival order; afterwards no
    /// partition has an open batch. Each drained batch is non-empty.
    pub fn flush(&mut self) -> (out: Vec<(PartitionKey, Vec<LokiRecord>)>)
        requires
            old(self).wf(),
        ensures
            final(self).wf(),
            final(self).spec_max() == old(self).spec_max(),
            final(self)@ == Map::<PartitionKeyV, Seq<RecordV>>::empty(),
            final(self).spec_open() == Seq::<(PartitionKeyV, Seq<RecordV>)>::empty(),
            batch_views(out@) == old(self).spec_open(),
            map_of(batch_views(out@)) == old(self)@,
            distinct_keys(batch_views(out@)),
            forall|i: int| 0 <= i < out@.len() ==> (#[trigger] out@[i]).1@.len() >= 1,
    {
        let mut drained: Vec<(PartitionKey, Vec<LokiRecord>)> = Vec::new();
        core::mem::swap(&mut drained, &mut self.open_batches);
        proof {
            assert(batch_views(self.open_batches@) =~= Seq::<(PartitionKeyV, Seq<RecordV>)>::empty());
        }
        drained
    }
}

} // verus!
