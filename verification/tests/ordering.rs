use loki_sink::corrector::OrderCorrector;
use loki_sink::encoder::EventEncoder;
use loki_sink::event::{LogEvent, Value};
use loki_sink::marks::HighWaterMarks;
use loki_sink::partition::{KeyPartitioner, PartitionKey};
use loki_sink::record::LokiRecord;
use loki_sink::serialize::Encoding;
use loki_sink::template::Template;
use loki_sink::OutOfOrderAction;

const BASE_TS: i64 = 1_600_000_000_000_000_000;
const SECOND: i64 = 1_000_000_000;

fn plain_encoder() -> EventEncoder {
    EventEncoder {
        key_partitioner: KeyPartitioner::new(None),
        encoding: Encoding::Json,
        labels: Vec::new(),
        remove_label_fields: false,
        remove_timestamp: false,
    }
}

fn tenant_encoder() -> EventEncoder {
    EventEncoder {
        key_partitioner: KeyPartitioner::new(Some(Template::parse("{{ tenant }}"))),
        encoding: Encoding::Json,
        labels: Vec::new(),
        remove_label_fields: false,
        remove_timestamp: false,
    }
}

fn stamped(encoder: &EventEncoder, line: String, ts: i64) -> LokiRecord {
    let mut event = LogEvent::new();
    event.insert("message", Value::Text(line));
    event.insert("timestamp", Value::Timestamp(ts));
    encoder.encode_event(event)
}

fn drop_test_input() -> Vec<LokiRecord> {
    let encoder = plain_encoder();
    let mut records = Vec::new();
    for i in 0..20i64 {
        let ts = if i % 5 == 1 { BASE_TS } else { BASE_TS + i * SECOND };
        records.push(stamped(&encoder, format!("line {}", i), ts));
    }
    records
}

#[test]
fn filter_encoder_drop() {
    let mut corrector = OrderCorrector::new(OutOfOrderAction::Drop);
    let out = corrector.correct_stream(drop_test_input());
    assert_eq!(out.len(), 17);
    // Exactly the repeated stamps behind the mark are gone: of the indices
    // with a repeated t0, only index 1 (equal to the mark) is admitted.
    let expected: Vec<i64> = (0..20i64)
        .filter(|i| !(i % 5 == 1 && *i > 1))
        .map(|i| if i == 1 { BASE_TS } else { BASE_TS + i * SECOND })
        .collect();
    let got: Vec<i64> = out.iter().map(|r| r.event.timestamp).collect();
    assert_eq!(got, expected);
}

#[test]
fn filter_encoder_rewrite_keeps_all_and_orders() {
    let mut corrector = OrderCorrector::new(OutOfOrderAction::RewriteTimestamp);
    let out = corrector.correct_stream(drop_test_input());
    assert_eq!(out.len(), 20);
    for pair in out.windows(2) {
        assert!(pair[0].event.timestamp <= pair[1].event.timestamp);
    }
    // A rewritten record carries its partition's mark at that moment.
    let got: Vec<i64> = out.iter().map(|r| r.event.timestamp).collect();
    assert_eq!(got[6], BASE_TS + 5 * SECOND);
    assert_eq!(got[11], BASE_TS + 10 * SECOND);
    assert_eq!(got[16], BASE_TS + 15 * SECOND);
}

#[test]
fn partitions_do_not_observe_each_other() {
    let encoder = tenant_encoder();
    let mut corrector = OrderCorrector::new(OutOfOrderAction::Drop);
    let mut survivors_a = 0usize;
    let mut survivors_b = 0usize;
    // Interleave: partition b bursts old timestamps while a advances.
    let steps: Vec<(&str, i64)> = vec![
        ("a", BASE_TS + 100 * SECOND),
        ("b", BASE_TS + 500 * SECOND),
        ("a", BASE_TS + 101 * SECOND),
        ("b", BASE_TS),
        ("b", BASE_TS + 1),
        ("a", BASE_TS + 102 * SECOND),
        ("a", BASE_TS + 103 * SECOND),
    ];
    for (tenant, ts) in steps {
        let mut event = LogEvent::new();
        event.insert("message", Value::Text("x".to_string()));
        event.insert("tenant", Value::Text(tenant.to_string()));
        event.insert("timestamp", Value::Timestamp(ts));
        let record = encoder.encode_event(event);
        let admitted = corrector.observe(record);
        if let Some(r) = admitted {
            match r.partition.tenant_id.as_deref() {
                Some("a") => survivors_a += 1,
                Some("b") => survivors_b += 1,
                other => panic!("unexpected tenant {:?}", other),
            }
        }
    }
    // Partition a admits all four despite b's burst of old stamps; b keeps
    // only its first record.
    assert_eq!(survivors_a, 4);
    assert_eq!(survivors_b, 1);
}

#[test]
fn equal_timestamps_are_admitted() {
    let mut corrector = OrderCorrector::new(OutOfOrderAction::Drop);
    let encoder = plain_encoder();
    let a = stamped(&encoder, "first".to_string(), BASE_TS);
    let b = stamped(&encoder, "second".to_string(), BASE_TS);
    assert!(corrector.observe(a).is_some());
    assert!(corrector.observe(b).is_some());
}

#[test]
fn rewrite_moves_timestamp_up_to_mark() {
    let mut corrector = OrderCorrector::new(OutOfOrderAction::RewriteTimestamp);
    let encoder = plain_encoder();
    let a = stamped(&encoder, "first".to_string(), BASE_TS + SECOND);
    let b = stamped(&encoder, "late".to_string(), BASE_TS);
    assert!(corrector.observe(a).is_some());
    let rewritten = corrector.observe(b).unwrap();
    assert_eq!(rewritten.event.timestamp, BASE_TS + SECOND);
}

#[test]
fn high_water_marks_track_per_key() {
    let mut marks = HighWaterMarks::new();
    let empty_labels: Vec<(String, String)> = Vec::new();
    let ka = PartitionKey::new(Some("a".to_string()), &empty_labels);
    let kb = PartitionKey::new(Some("b".to_string()), &empty_labels);
    assert_eq!(marks.get(&ka), None);
    marks.insert(ka.clone(), 10);
    marks.insert(kb.clone(), 20);
    assert_eq!(marks.get(&ka), Some(10));
    assert_eq!(marks.get(&kb), Some(20));
    marks.insert(ka.clone(), 15);
    assert_eq!(marks.get(&ka), Some(15));
    assert_eq!(marks.get(&kb), Some(20));
}
