use loki_sink::encoder::EventEncoder;
use loki_sink::event::{LogEvent, Value};
use loki_sink::partition::KeyPartitioner;
use loki_sink::serialize::Encoding;
use loki_sink::template::Template;
use std::collections::HashMap;

const BASE_TS: i64 = 1_600_000_000_000_000_000;

fn text_event(message: &str) -> LogEvent {
    let mut event = LogEvent::new();
    event.insert("message", Value::Text(message.to_string()));
    event
}

#[test]
fn encoder_no_labels() {
    let encoder = EventEncoder {
        key_partitioner: KeyPartitioner::new(None),
        encoding: Encoding::Json,
        labels: Vec::new(),
        remove_label_fields: false,
        remove_timestamp: false,
    };
    let mut event = text_event("hello world");
    event.insert("timestamp", Value::Timestamp(BASE_TS));
    let record = encoder.encode_event(event);
    assert!(record.event.event.contains("timestamp"));
    assert_eq!(record.labels.len(), 1);
    assert_eq!(
        record.labels[0],
        ("agent".to_string(), "vector".to_string())
    );
}

#[test]
fn encoder_with_labels() {
    let mut labels = Vec::new();
    labels.push((Template::parse("static"), Template::parse("value")));
    labels.push((Template::parse("{{ name }}"), Template::parse("{{ value }}")));
    let encoder = EventEncoder {
        key_partitioner: KeyPartitioner::new(None),
        encoding: Encoding::Json,
        labels,
        remove_label_fields: false,
        remove_timestamp: false,
    };
    let mut event = text_event("hello world");
    event.insert("timestamp", Value::Timestamp(BASE_TS));
    event.insert("name", Value::Text("foo".to_string()));
    event.insert("value", Value::Text("bar".to_string()));
    let record = encoder.encode_event(event);
    assert!(record.event.event.contains("timestamp"));
    assert_eq!(record.labels.len(), 2);
    let labels: HashMap<String, String> = record.labels.into_iter().collect();
    assert_eq!(labels["static"], "value".to_string());
    assert_eq!(labels["foo"], "bar".to_string());
}

#[test]
fn encoder_no_ts() {
    let encoder = EventEncoder {
        key_partitioner: KeyPartitioner::new(None),
        encoding: Encoding::Json,
        labels: Vec::new(),
        remove_label_fields: false,
        remove_timestamp: true,
    };
    let mut event = text_event("hello world");
    event.insert("timestamp", Value::Timestamp(BASE_TS));
    let record = encoder.encode_event(event);
    assert!(!record.event.event.contains("timestamp"));
}

#[test]
fn encoder_no_record_labels() {
    let mut labels = Vec::new();
    labels.push((Template::parse("static"), Template::parse("value")));
    labels.push((Template::parse("{{ name }}"), Template::parse("{{ value }}")));
    let encoder = EventEncoder {
        key_partitioner: KeyPartitioner::new(None),
        encoding: Encoding::Json,
        labels,
        remove_label_fields: true,
        remove_timestamp: false,
    };
    let mut event = text_event("hello world");
    event.insert("timestamp", Value::Timestamp(BASE_TS));
    event.insert("name", Value::Text("foo".to_string()));
    event.insert("value", Value::Text("bar".to_string()));
    let record = encoder.encode_event(event);
    assert!(!record.event.event.contains("value"));
    assert!(!record.event.event.contains("bar"));
}

#[test]
fn key_template_fields_are_removed_too() {
    let mut labels = Vec::new();
    labels.push((Template::parse("{{ name }}"), Template::parse("fixed")));
    let encoder = EventEncoder {
        key_partitioner: KeyPartitioner::new(None),
        encoding: Encoding::Json,
        labels,
        remove_label_fields: true,
        remove_timestamp: false,
    };
    let mut event = text_event("hello world");
    event.insert("name", Value::Text("foo".to_string()));
    let record = encoder.encode_event(event);
    assert_eq!(record.labels.len(), 1);
    assert_eq!(record.labels[0], ("foo".to_string(), "fixed".to_string()));
    assert!(!record.event.event.contains("foo"));
}

#[test]
fn json_body_parses_and_keeps_fields() {
    let encoder = EventEncoder {
        key_partitioner: KeyPartitioner::new(None),
        encoding: Encoding::Json,
        labels: Vec::new(),
        remove_label_fields: false,
        remove_timestamp: false,
    };
    let mut event = text_event("hello world");
    event.insert("timestamp", Value::Timestamp(BASE_TS));
    let record = encoder.encode_event(event);
    let parsed: serde_json::Value = serde_json::from_str(&record.event.event).unwrap();
    assert_eq!(parsed["message"], "hello world");
    assert_eq!(parsed["timestamp"], 1_600_000_000_000_000_000i64);
    assert_eq!(record.event.timestamp, BASE_TS);
}

#[test]
fn text_codec_takes_message_only() {
    let encoder = EventEncoder {
        key_partitioner: KeyPartitioner::new(None),
        encoding: Encoding::Text,
        labels: Vec::new(),
        remove_label_fields: false,
        remove_timestamp: false,
    };
    let mut event = text_event("just the line");
    event.insert("timestamp", Value::Timestamp(BASE_TS));
    let record = encoder.encode_event(event);
    assert_eq!(record.event.event, "just the line");
}

#[test]
fn logfmt_codec_writes_pairs() {
    let encoder = EventEncoder {
        key_partitioner: KeyPartitioner::new(None),
        encoding: Encoding::Logfmt,
        labels: Vec::new(),
        remove_label_fields: false,
        remove_timestamp: false,
    };
    let mut event = LogEvent::new();
    event.insert("message", Value::Text("hi".to_string()));
    event.insert("level", Value::Text("info".to_string()));
    let record = encoder.encode_event(event);
    assert_eq!(record.event.event, "message=\"hi\" level=\"info\"");
}

#[test]
fn tenant_template_renders_and_falls_back() {
    let partitioner = KeyPartitioner::new(Some(Template::parse("{{ tenant }}")));
    let mut event = text_event("hello");
    event.insert("tenant", Value::Text("acme".to_string()));
    assert_eq!(partitioner.partition(&event), Some("acme".to_string()));
    let other = text_event("no tenant field here");
    assert_eq!(partitioner.partition(&other), None);
    let fixed = KeyPartitioner::new(None);
    assert_eq!(fixed.partition(&event), None);
}

#[test]
fn template_parse_shapes() {
    let lit = Template::parse("static");
    assert!(lit.get_fields().is_empty());
    let field = Template::parse("{{ name }}");
    assert_eq!(field.get_fields(), vec!["name".to_string()]);
    let mut event = LogEvent::new();
    event.insert("name", Value::Text("foo".to_string()));
    assert_eq!(field.render(&event).ok().unwrap(), "foo");
    assert_eq!(lit.render(&event).ok().unwrap(), "static");
    assert!(Template::parse("{{ missing }}").render(&event).is_err());
    // Braces inside the delimiters make the whole source fixed text.
    let mixed = Template::parse("{{ a }} and {{ b }}");
    assert!(mixed.get_fields().is_empty());
    assert_eq!(mixed.render(&event).ok().unwrap(), "{{ a }} and {{ b }}");
}

#[test]
fn body_escapes_control_characters() {
    let encoder = EventEncoder {
        key_partitioner: KeyPartitioner::new(None),
        encoding: Encoding::Json,
        labels: Vec::new(),
        remove_label_fields: false,
        remove_timestamp: false,
    };
    let mut event = LogEvent::new();
    event.insert(
        "message",
        Value::Text("line one\nline two\ttabbed\rreturn \u{1} bell".to_string()),
    );
    let record = encoder.encode_event(event);
    let parsed: serde_json::Value = serde_json::from_str(&record.event.event).unwrap();
    assert_eq!(parsed["message"], "line one\nline two\ttabbed\rreturn \u{1} bell");
    assert!(record.event.event.contains("\\n"));
    assert!(record.event.event.contains("\\u0001"));
}

#[test]
fn body_escapes_quotes() {
    let encoder = EventEncoder {
        key_partitioner: KeyPartitioner::new(None),
        encoding: Encoding::Json,
        labels: Vec::new(),
        remove_label_fields: false,
        remove_timestamp: false,
    };
    let mut event = LogEvent::new();
    event.insert("message", Value::Text("say \"hi\" \\ bye".to_string()));
    let record = encoder.encode_event(event);
    let parsed: serde_json::Value = serde_json::from_str(&record.event.event).unwrap();
    assert_eq!(parsed["message"], "say \"hi\" \\ bye");
}
