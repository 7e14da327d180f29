//! The body codecs: an event's remaining fields are written as a JSON
//! object, as the bare message field, or as logfmt `key=value` pairs.
use vstd::prelude::*;
use vstd::string::StringExecFns;
use crate::event::{FieldsV, LogEvent, Value, ValueV, lookup};
use crate::text::{dec_into, dec_str_of, escape_into, escaped, push_char};

verus! {

/// The configured body codec.
#[derive(Clone, Copy, PartialEq, Eq, Structural, Debug)]
pub enum Encoding {
    Json,
    Text,
    Logfmt,
}

/// The name of the field that carries an event's timestamp.
pub open spec fn timestamp_key() -> Seq<char> {
    "timestamp"@
}

pub fn timestamp_key_str() -> (r: &'static str)
    ensures
        r@ == timestamp_key(),
{
    "timestamp"
}

/// The name of the field that carries an event's message.
pub open spec fn message_key() -> Seq<char> {
    "message"@
}

pub fn message_key_str() -> (r: &'static str)
    ensures
        r@ == message_key(),
{
    "message"
}

/// How one value is written: text quoted and escaped, a timestamp as its
/// decimal nanosecond count.
pub open spec fn quoted_value(v: ValueV) -> Seq<char> {
    match v {
        ValueV::Text(s) => seq!['"'] + escaped(s) + seq!['"'],
        ValueV::Timestamp(n) => dec_str_of(n as int),
    }
}

/// One JSON object member: the quoted key, a colon, the value.
pub open spec fn json_member(f: (Seq<char>, ValueV)) -> Seq<char> {
    seq!['"'] + escaped(f.0) + seq!['"', ':'] + quoted_value(f.1)
}

/// The members of a JSON object, comma-separated, in field order.
pub open spec fn json_members(fs: FieldsV) -> Seq<char>
    decreases fs.len(),
{
    if fs.len() == 0 {
        Seq::empty()
    } else if fs.len() == 1 {
        json_member(fs[0])
    } else {
        json_members(fs.drop_last()) + seq![','] + json_member(fs.last())
    }
}

/// A whole field map as a JSON object.
pub open spec fn json_of(fs: FieldsV) -> Seq<char> {
    seq!['{'] + json_members(fs) + seq!['}']
}

/// One logfmt pair: the bare key, an equals sign, the value.
pub open spec fn logfmt_member(f: (Seq<char>, ValueV)) -> Seq<char> {
    f.0 + seq!['='] + quoted_value(f.1)
}

/// A whole field map in logfmt, space-separated, in field order.
pub open spec fn logfmt_of(fs: FieldsV) -> Seq<char>
    decreases fs.len(),
{
    if fs.len() == 0 {
        Seq::empty()
    } else if fs.len() == 1 {
        logfmt_member(fs[0])
    } else {
        logfmt_of(fs.drop_last()) + seq![' '] + logfmt_member(fs.last())
    }
}

/// The text codec: the message field's text, the decimal form of its
/// timestamp, or the empty string when the field is absent.
pub open spec fn text_line_of(fs: FieldsV) -> Seq<char> {
    match lookup(fs, message_key()) {
        Some(ValueV::Text(s)) => s,
        Some(ValueV::Timestamp(n)) => dec_str_of(n as int),
        None => Seq::empty(),
    }
}

/// What the configured codec writes for a field map.
pub open spec fn serialize_spec(codec: Encoding, fs: FieldsV) -> Seq<char> {
    match codec {
        Encoding::Json => json_of(fs),
        Encoding::Text => text_line_of(fs),
        Encoding::Logfmt => logfmt_of(fs),
    }
}

/// Appends the written form of one value.
fn quoted_value_into(out: &mut String, v: &Value)
    ensures
        final(out)@ == old(out)@ + quoted_value(v@),
{
    match v {
        Value::Text(s) => {
            push_char(out, '"');
            escape_into(out, s.as_str());
            push_char(out, '"');
            proof {
                assert(out@ =~= old(out)@ + quoted_value(v@));
            }
        },
        Value::Timestamp(n) => {
            dec_into(out, *n);
        },
    }
}

/// Serializes an event's fields with the given codec.
pub fn serialize_event(codec: Encoding, event: &LogEvent) -> (r: String)
    ensures
        r@ == serialize_spec(codec, event@),
{
    match codec {
        Encoding::Json => {
            let mut out = String::new();
            push_char(&mut out, '{');
            let n = event.len();
            let mut i: usize = 0;
            proof {
                assert(out@ =~= seq!['{'] + json_members(event@.take(0)));
            }
            while i < n
                invariant
                    n == event@.len(),
                    i <= n,
                    out@ == seq!['{'] + json_members(event@.take(i as int)),
                decreases n - i,
            {
                let ghost pre = out@;
                if i > 0 {
                    push_char(&mut out, ',');
                }
                let f = event.field_at(i);
                push_char(&mut out, '"');
                escape_into(&mut out, f.0.as_str());
                push_char(&mut out, '"');
                push_char(&mut out, ':');
                quoted_value_into(&mut out, &f.1);
                proof {
                    assert(event@.take(i + 1).drop_last() =~= event@.take(i as int));
                    assert(event@.take(i + 1).last() == event@[i as int]);
                    if i == 0 {
                        assert(out@ =~= seq!['{'] + json_members(event@.take(1)));
                    } else {
                        assert(out@ =~= seq!['{'] + json_members(event@.take(i + 1)));
                    }
                }
                i += 1;
            }
            push_char(&mut out, '}');
            proof {
                assert(event@.take(n as int) =~= event@);
                assert(out@ =~= json_of(event@));
            }
            out
        },
        Encoding::Text => {
            match event.get(message_key_str()) {
                Some(v) => {
                    match v {
                        Value::Text(s) => s.clone(),
                        Value::Timestamp(n) => crate::text::fmt_i64(*n),
                    }
                },
                None => String::new(),
            }
        },
        Encoding::Logfmt => {
            let mut out = String::new();
            let n = event.len();
            let mut i: usize = 0;
            proof {
                assert(out@ =~= logfmt_of(event@.take(0)));
            }
            while i < n
                invariant
                    n == event@.len(),
                    i <= n,
                    out@ == logfmt_of(event@.take(i as int)),
                decreases n - i,
            {
                if i > 0 {
                    push_char(&mut out, ' ');
                }
                let f = event.field_at(i);
                out.append(f.0.as_str());
                push_char(&mut out, '=');
                quoted_value_into(&mut out, &f.1);
                proof {
                    assert(event@.take(i + 1).drop_last() =~= event@.take(i as int));
                    assert(event@.take(i + 1).last() == event@[i as int]);
                    if i == 0 {
                        assert(out@ =~= logfmt_of(event@.take(1)));
                    } else {
                        assert(out@ =~= logfmt_of(event@.take(i + 1)));
                    }
                }
                i += 1;
            }
            proof {
                assert(event@.take(n as int) =~= event@);
            }
            out
        },
    }
}

} // verus!
