use loki_sink::batch::Batcher;
use loki_sink::builder::{LokiBatchEncoder, LokiRequestBuilder, RequestBuildError};
use loki_sink::encoder::EventEncoder;
use loki_sink::event::{LogEvent, Value};
use loki_sink::partition::KeyPartitioner;
use loki_sink::record::{LokiRecord, RecordPartitioner};
use loki_sink::serialize::Encoding;
use loki_sink::template::Template;

const BASE_TS: i64 = 1_600_000_000_000_000_000;

fn labelled_encoder() -> EventEncoder {
    let mut labels = Vec::new();
    labels.push((Template::parse("app"), Template::parse("demo")));
    EventEncoder {
        key_partitioner: KeyPartitioner::new(None),
        encoding: Encoding::Json,
        labels,
        remove_label_fields: false,
        remove_timestamp: false,
    }
}

fn record_with_finalizers(line: &str, ts: i64, ids: &[u64]) -> LokiRecord {
    let encoder = labelled_encoder();
    let mut event = LogEvent::new();
    event.insert("message", Value::Text(line.to_string()));
    event.insert("timestamp", Value::Timestamp(ts));
    for id in ids {
        event.add_finalizer(*id);
    }
    encoder.encode_event(event)
}

#[test]
fn split_input_conserves_finalizers() {
    let a = record_with_finalizers("one", BASE_TS, &[1, 2]);
    let b = record_with_finalizers("two", BASE_TS + 1, &[3]);
    let c = record_with_finalizers("three", BASE_TS + 2, &[4, 5, 6]);
    let key = a.partition.clone();
    let total: usize = [&a, &b, &c].iter().map(|r| r.finalizers.len()).sum();
    let builder = LokiRequestBuilder::default();
    let ((tenant, batch_size, finalizers), records) = builder.split_input((key, vec![a, b, c]));
    assert_eq!(tenant, None);
    assert_eq!(batch_size, 3);
    assert_eq!(finalizers.len(), total);
    assert_eq!(finalizers.len(), 6);
    for r in &records {
        assert_eq!(r.finalizers.len(), 0);
    }
}

#[test]
fn build_request_carries_metadata() {
    let builder = LokiRequestBuilder::default();
    let a = record_with_finalizers("one", BASE_TS, &[7]);
    let key = a.partition.clone();
    let (metadata, records) = builder.split_input((key.clone(), vec![a]));
    let payload = builder.encode_payload(&key, &records).unwrap();
    let request = builder.build_request(metadata, payload.clone());
    assert_eq!(request.batch_size, 1);
    assert_eq!(request.tenant_id, None);
    assert_eq!(request.finalizers.len(), 1);
    assert_eq!(request.payload, payload);
}

#[test]
fn payload_is_wellformed_wire_json() {
    let a = record_with_finalizers("hello", BASE_TS, &[]);
    let key = a.partition.clone();
    let encoder = LokiBatchEncoder;
    let bytes = encoder.encode_batch(&key, &vec![a]);
    let text = String::from_utf8(bytes).unwrap();
    let parsed: serde_json::Value = serde_json::from_str(&text).unwrap();
    let stream = &parsed["streams"][0];
    assert_eq!(stream["stream"]["app"], "demo");
    let entry = &stream["values"][0];
    assert_eq!(entry[0], "1600000000000000000");
    assert!(entry[1].as_str().unwrap().contains("hello"));
}

#[test]
fn payload_too_big_is_raised_at_the_ceiling() {
    let a = record_with_finalizers("a very long line that will not fit", BASE_TS, &[]);
    let key = a.partition.clone();
    let records = vec![a];
    let tight = LokiRequestBuilder {
        encoder: LokiBatchEncoder,
        max_payload_bytes: Some(10),
    };
    match tight.encode_payload(&key, &records) {
        Err(RequestBuildError::PayloadTooBig) => {}
        other => panic!("expected PayloadTooBig, got {:?}", other.is_ok()),
    }
    let roomy = LokiRequestBuilder {
        encoder: LokiBatchEncoder,
        max_payload_bytes: Some(1_000_000),
    };
    assert!(roomy.encode_payload(&key, &records).is_ok());
}

#[test]
fn batcher_closes_at_threshold_and_flushes_rest() {
    let mut batcher = Batcher::new(2);
    let a = record_with_finalizers("one", BASE_TS, &[]);
    let b = record_with_finalizers("two", BASE_TS + 1, &[]);
    let c = record_with_finalizers("three", BASE_TS + 2, &[]);
    assert!(batcher.push(a).is_none());
    let closed = batcher.push(b).expect("second record closes the batch");
    assert_eq!(closed.1.len(), 2);
    assert!(batcher.push(c).is_none());
    let open = batcher.flush();
    assert_eq!(open.len(), 1);
    assert_eq!(open[0].1.len(), 1);
    assert!(batcher.flush().is_empty());
}

#[test]
fn partition_key_ignores_label_order() {
    let forward = vec![
        ("zone".to_string(), "eu".to_string()),
        ("app".to_string(), "demo".to_string()),
    ];
    let backward = vec![
        ("app".to_string(), "demo".to_string()),
        ("zone".to_string(), "eu".to_string()),
    ];
    let k1 = loki_sink::partition::PartitionKey::new(None, &forward);
    let k2 = loki_sink::partition::PartitionKey::new(None, &backward);
    assert!(k1.key_eq(&k2));
    let other = vec![("app".to_string(), "other".to_string())];
    let k3 = loki_sink::partition::PartitionKey::new(None, &other);
    assert!(!k1.key_eq(&k3));
}

#[test]
fn record_partitioner_projects_key() {
    let a = record_with_finalizers("one", BASE_TS, &[]);
    let projected = RecordPartitioner.partition(&a);
    assert!(projected.key_eq(&a.partition));
    assert_eq!(projected.tenant_id, None);
    assert_eq!(projected.labels, a.labels);
}
