//! The encoded record: rendered labels, the serialized body with its
//! timestamp, the partition key, and the finalizers moved from the event.
use vstd::prelude::*;
use crate::event::EventFinalizers;
use crate::partition::{labels_view, LabelsV, PartitionKey, PartitionKeyV};

verus! {

/// The serialized body of one record.
pub struct LokiEvent {
    pub timestamp: i64,
    pub event: String,
}

/// One encoded record, ready for batching.
pub struct LokiRecord {
    pub labels: Vec<(String, String)>,
    pub event: LokiEvent,
    pub partition: PartitionKey,
    pub finalizers: EventFinalizers,
}

/// The mathematical form of a record.
#[verifier::ext_equal]
pub struct RecordV {
    pub labels: LabelsV,
    pub timestamp: i64,
    pub line: Seq<char>,
    pub partition: PartitionKeyV,
    pub finalizers: Seq<u64>,
}

impl View for LokiRecord {
    type V = RecordV;

    open spec fn view(&self) -> RecordV {
        RecordV {
            labels: labels_view(self.labels@),
            timestamp: self.event.timestamp,
            line: self.event.event@,
            partition: self.partition@,
            finalizers: self.finalizers@,
        }
    }
}

/// The views of a record sequence.
pub open spec fn record_views(rs: Seq<LokiRecord>) -> Seq<RecordV> {
    rs.map_values(|r: LokiRecord| r@)
}

/// Projects the grouping key out of a record, so batching need not know the
/// record's insides.
pub struct RecordPartitioner;

impl RecordPartitioner {
    pub fn partition(&self, item: &LokiRecord) -> (r: PartitionKey)
        ensures
            r@ == item.partition@,
    {
        item.partition.clone()
    }
}

} // verus!
