//! The order corrector: per partition, admitted timestamps never decrease.
//! A record that falls behind its partition's high-water mark is dropped or
//! rewritten, by configured policy; other partitions are never consulted.
use vstd::prelude::*;
use crate::marks::HighWaterMarks;
use crate::partition::PartitionKeyV;
use crate::record::{record_views, LokiRecord, RecordV};
use crate::OutOfOrderAction;

verus! {

/// One admission decision: what leaves the corrector for this record, and
/// the marks afterwards. The first record of a partition is always admitted.
pub open spec fn step(m: Map<PartitionKeyV, i64>, r: RecordV, action: OutOfOrderAction) -> (
    Option<RecordV>,
    Map<PartitionKeyV, i64>,
) {
    let k = r.partition;
    if !m.contains_key(k) {
        (Some(r), m.insert(k, r.timestamp))
    } else if r.timestamp >= m[k] {
        (Some(r), m.insert(k, r.timestamp))
    } else if action == OutOfOrderAction::Drop {
        (None, m)
    } else {
        (Some(RecordV { timestamp: m[k], ..r }), m)
    }
}

/// A whole stream folded through `step`, in order.
pub open spec fn run(m: Map<PartitionKeyV, i64>, rs: Seq<RecordV>, action: OutOfOrderAction) -> (
    Seq<RecordV>,
    Map<PartitionKeyV, i64>,
) decreases rs.len(),
{
    if rs.len() == 0 {
        (Seq::empty(), m)
    } else {
        let first = step(m, rs[0], action);
        let rest = run(first.1, rs.skip(1), action);
        (
            match first.0 {
                Some(r) => seq![r] + rest.0,
                None => rest.0,
            },
            rest.1,
        )
    }
}

/// Enforces non-decreasing timestamps per partition over a record stream.
pub struct OrderCorrector {
    marks: HighWaterMarks,
    out_of_order_action: OutOfOrderAction,
}

impl OrderCorrector {
    /// Validity of the internal mark table.
    pub closed spec fn wf(&self) -> bool {
        self.marks.wf()
    }

    /// The high-water mark of every partition seen so far.
    pub closed spec fn spec_marks(&self) -> Map<PartitionKeyV, i64> {
        self.marks@
    }

    /// The configured out-of-order policy.
    pub closed spec fn spec_action(&self) -> OutOfOrderAction {
        self.out_of_order_action
    }

    pub fn action(&self) -> (r: OutOfOrderAction)
        ensures
            r == self.spec_action(),
    {
        self.out_of_order_action
    }

    pub fn new(action: OutOfOrderAction) -> (r: Self)
        ensures
            r.wf(),
            r.spec_marks() == Map::<PartitionKeyV, i64>::empty(),
            r.spec_action() == action,
    {
        OrderCorrector { marks: HighWaterMarks::new(), out_of_order_action: action }
    }

    /// Admits, rewrites or drops one record, exactly as `step` says; the
    /// marks of every other partition stay as they were.
    pub fn observe(&mut self, record: LokiRecord) -> (out: Option<LokiRecord>)
        requires
            old(self).wf(),
        ensures
            final(self).wf(),
            final(self).spec_action() == old(self).spec_action(),
            ({
                let s = step(old(self).spec_marks(), record@, old(self).spec_action());
                &&& final(self).spec_marks() == s.1
                &&& match out {
                    Some(r) => s.0 == Some(r@),
                    None => s.0 is None,
                }
            }),
    {
        let mut record = record;
        let ghost rv = record@;
        let mark_opt = self.marks.get(&record.partition);
        match mark_opt {
            None => {
                let k = record.partition.clone();
                let t = record.event.timestamp;
                self.marks.insert(k, t);
                Some(record)
            },
            Some(mark) => {
                if record.event.timestamp >= mark {
                    let k = record.partition.clone();
                    let t = record.event.timestamp;
                    self.marks.insert(k, t);
                    Some(record)
                } else {
                    match self.out_of_order_action {
                        OutOfOrderAction::Drop => None,
                        OutOfOrderAction::RewriteTimestamp => {
                            record.event.timestamp = mark;
                            proof {
                                assert(record@ =~= (RecordV { timestamp: mark, ..rv }));
                            }
                            Some(record)
                        },
                    }
                }
            },
        }
    }

    /// Runs a whole record sequence through the corrector, in order.
    pub fn correct_stream(&mut self, records: Vec<LokiRecord>) -> (out: Vec<LokiRecord>)
        requires
            old(self).wf(),
        ensures
            final(self).wf(),
            final(self).spec_action() == old(self).spec_action(),
            record_views(out@) == run(
                old(self).spec_marks(),
                record_views(records@),
                old(self).spec_action(),
            ).0,
            final(self).spec_marks() == run(
                old(self).spec_marks(),
                record_views(records@),
                old(self).spec_action(),
            ).1,
    {
        let ghost m0 = self.spec_marks();
        let ghost all = record_views(records@);
        let ghost action = self.spec_action();
        let mut rest = records;
        let mut out: Vec<LokiRecord> = Vec::new();
        proof {
            assert(record_views(rest@) =~= all);
            assert(record_views(out@) =~= Seq::<RecordV>::empty());
            assert(run(m0, all, action).0 =~= record_views(out@) + run(
                self.spec_marks(),
                record_views(rest@),
                action,
            ).0);
        }
        while rest.len() > 0
            invariant
                self.wf(),
                self.spec_action() == action,
                run(m0, all, action).0 == record_views(out@) + run(
                    self.spec_marks(),
                    record_views(rest@),
                    action,
                ).0,
                run(m0, all, action).1 == run(self.spec_marks(), record_views(rest@), action).1,
            decreases rest.len(),
        {
            let ghost rv = record_views(rest@);
            let ghost pre_marks = self.spec_marks();
            let r = rest.remove(0);
            let ghost r0 = r@;
            proof {
                assert(record_views(rest@) =~= rv.skip(1));
                assert(rv[0] == r0);
                assert(rv.len() > 0);
            }
            let res = self.observe(r);
            match res {
                Some(x) => {
                    let ghost before_out = record_views(out@);
                    let ghost xa = x@;
                    out.push(x);
                    proof {
                        assert(record_views(out@) =~= before_out.push(xa));
                        assert(step(pre_marks, rv[0], action).0 == Some(xa));
                        assert(run(pre_marks, rv, action).0 == seq![xa] + run(
                            self.spec_marks(),
                            rv.skip(1),
                            action,
                        ).0);
                        assert(record_views(out@) + run(
                            self.spec_marks(),
                            record_views(rest@),
                            action,
                        ).0 =~= before_out + (seq![xa] + run(
                            self.spec_marks(),
                            rv.skip(1),
                            action,
                        ).0));
                    }
                },
                None => {
                    proof {
                        assert(step(pre_marks, rv[0], action).0 is None);
                        assert(run(pre_marks, rv, action).0 == run(
                            self.spec_marks(),
                            rv.skip(1),
                            action,
                        ).0);
                    }
                },
            }
        }
        proof {
            assert(record_views(rest@) =~= Seq::<RecordV>::empty());
            assert(run(self.spec_marks(), record_views(rest@), action).0 =~= Seq::<RecordV>::empty());
            assert(record_views(out@) + Seq::<RecordV>::empty() =~= record_views(out@));
        }
        out
    }
}

/// Monotonicity: whatever the starting marks, the records a run emits for
/// one partition carry non-decreasing timestamps; marks themselves never
/// move backwards; and under the rewrite policy every record survives.
pub proof fn lemma_run_monotonic(
    m: Map<PartitionKeyV, i64>,
    rs: Seq<RecordV>,
    action: OutOfOrderAction,
)
    ensures
        ({
            let out = run(m, rs, action).0;
            let mf = run(m, rs, action).1;
            &&& forall|k: PartitionKeyV| #[trigger] m.contains_key(k) ==> mf.contains_key(k)
                && m[k] <= mf[k]
            &&& forall|i: int| 0 <= i < out.len() ==> mf.contains_key(
                (#[trigger] out[i]).partition,
            ) && out[i].timestamp <= mf[out[i].partition]
            &&& forall|i: int| 0 <= i < out.len() && m.contains_key((#[trigger] out[i]).partition)
                ==> m[out[i].partition] <= out[i].timestamp
            &&& forall|i: int, j: int|
                0 <= i < j < out.len() && (#[trigger] out[i]).partition == (#[trigger] out[
                    j
                ]).partition ==> out[i].timestamp <= out[j].timestamp
            &&& action == OutOfOrderAction::RewriteTimestamp ==> out.len() == rs.len()
        }),
    decreases rs.len(),
{
    if rs.len() > 0 {
        let s0 = step(m, rs[0], action);
        let m1 = s0.1;
        let k0 = rs[0].partition;
        lemma_run_monotonic(m1, rs.skip(1), action);
        let out_r = run(m1, rs.skip(1), action).0;
        let mf = run(m1, rs.skip(1), action).1;
        let out = run(m, rs, action).0;

        assert(forall|k: PartitionKeyV| #[trigger] m.contains_key(k) ==> m1.contains_key(k)
            && m[k] <= m1[k]);

        match s0.0 {
            Some(x0) => {
                assert(out =~= seq![x0] + out_r);
                assert(m1.contains_key(k0));
                assert(x0.partition == k0);
                assert(x0.timestamp <= m1[k0]);
                assert(m.contains_key(k0) ==> m[k0] <= x0.timestamp);
                assert(m1.contains_key(k0));
                assert(mf.contains_key(k0) && m1[k0] <= mf[k0]);
                assert forall|i: int| 0 <= i < out.len() implies mf.contains_key(
                    (#[trigger] out[i]).partition,
                ) && out[i].timestamp <= mf[out[i].partition] by {
                    if i == 0 {
                        assert(out[0] == x0);
                    } else {
                        assert(out[i] == out_r[i - 1]);
                    }
                }
                assert forall|i: int|
                    0 <= i < out.len() && m.contains_key((#[trigger] out[i]).partition) implies m[
                    out[i].partition] <= out[i].timestamp by {
                    if i == 0 {
                        assert(out[0] == x0);
                    } else {
                        assert(out[i] == out_r[i - 1]);
                        assert(m1.contains_key(out[i].partition) && m[out[i].partition] <= m1[
                        out[i].partition]);
                    }
                }
                assert forall|i: int, j: int|
                    0 <= i < j < out.len() && (#[trigger] out[i]).partition == (#[trigger] out[
                        j
                    ]).partition implies out[i].timestamp <= out[j].timestamp by {
                    if i == 0 {
                        assert(out[0] == x0);
                        assert(out[j] == out_r[j - 1]);
                        assert(m1.contains_key(out_r[j - 1].partition));
                        assert(m1[k0] <= out_r[j - 1].timestamp);
                        assert(x0.timestamp <= m1[k0]);
                    } else {
                        assert(out[i] == out_r[i - 1]);
                        assert(out[j] == out_r[j - 1]);
                    }
                }
            },
            None => {
                assert(out =~= out_r);
                assert(m1 == m);
                assert forall|i: int| 0 <= i < out.len() implies mf.contains_key(
                    (#[trigger] out[i]).partition,
                ) && out[i].timestamp <= mf[out[i].partition] by {
                    assert(out[i] == out_r[i]);
                }
                assert forall|i: int|
                    0 <= i < out.len() && m.contains_key((#[trigger] out[i]).partition) implies m[
                    out[i].partition] <= out[i].timestamp by {
                    assert(out[i] == out_r[i]);
                }
                assert forall|i: int, j: int|
                    0 <= i < j < out.len() && (#[trigger] out[i]).partition == (#[trigger] out[
                        j
                    ]).partition implies out[i].timestamp <= out[j].timestamp by {
                    assert(out[i] == out_r[i]);
                    assert(out[j] == out_r[j]);
                }
            },
        }
    }
}

/// Partition isolation: the admission decision reads only the record's own
/// partition, and leaves every other partition's mark untouched. Two mark
/// tables that agree on one partition decide every record of that partition
/// the same way.
pub proof fn lemma_step_isolation(
    m1: Map<PartitionKeyV, i64>,
    m2: Map<PartitionKeyV, i64>,
    r: RecordV,
    action: OutOfOrderAction,
)
    requires
        m1.contains_key(r.partition) == m2.contains_key(r.partition),
        m1.contains_key(r.partition) ==> m1[r.partition] == m2[r.partition],
    ensures
        step(m1, r, action).0 == step(m2, r, action).0,
        step(m1, r, action).1.contains_key(r.partition) == step(m2, r, action).1.contains_key(
            r.partition,
        ),
        step(m1, r, action).1.contains_key(r.partition) ==> step(m1, r, action).1[r.partition]
            == step(m2, r, action).1[r.partition],
        forall|k: PartitionKeyV| k != r.partition ==> #[trigger] step(m1, r, action).1.contains_key(
            k,
        ) == m1.contains_key(k),
        forall|k: PartitionKeyV| k != r.partition && m1.contains_key(k) ==> #[trigger] step(
            m1,
            r,
            action,
        ).1[k] == m1[k],
{
}

} // verus!
