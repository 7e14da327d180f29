//! The event encoder: renders labels, strips configured fields, extracts
//! the timestamp, serializes the body, and stamps the partition key.
use vstd::prelude::*;
use crate::clock::now_timestamp_nanos;
use crate::event::{
    has_key, lemma_lookup_absent, lemma_remove_key_gone, lemma_strip_keys_append, lookup,
    remove_key, strip_keys, FieldsV, LogEvent, Value, ValueV,
};
use crate::partition::{labels_view, KeyPartitioner, LabelsV, PartitionKey, PartitionKeyV};
use crate::record::{LokiEvent, LokiRecord};
use crate::serialize::{
    serialize_event, serialize_spec, timestamp_key, timestamp_key_str, Encoding,
};
use crate::template::{render_spec, spec_fields_of, Template, TemplateV};

verus! {

/// The views of the configured label template pairs.
pub open spec fn label_pair_views(l: Seq<(Template, Template)>) -> Seq<(TemplateV, TemplateV)> {
    l.map_values(|p: (Template, Template)| (p.0@, p.1@))
}

/// The labels an event renders to: a pair is kept only when both its key
/// and its value template render; a failing pair is skipped in silence.
pub open spec fn built_labels(pairs: Seq<(TemplateV, TemplateV)>, fields: FieldsV) -> LabelsV
    decreases pairs.len(),
{
    if pairs.len() == 0 {
        Seq::empty()
    } else {
        let rest = built_labels(pairs.drop_last(), fields);
        match (render_spec(pairs.last().0, fields), render_spec(pairs.last().1, fields)) {
            (Some(k), Some(v)) => rest.push((k, v)),
            _ => rest,
        }
    }
}

/// The event fields the label templates read — key and value templates of
/// every pair — in configuration order.
pub open spec fn label_field_names(pairs: Seq<(TemplateV, TemplateV)>) -> Seq<Seq<char>>
    decreases pairs.len(),
{
    if pairs.len() == 0 {
        Seq::empty()
    } else {
        label_field_names(pairs.drop_last()) + spec_fields_of(pairs.last().0) + spec_fields_of(
            pairs.last().1,
        )
    }
}

/// The label set a record leaves with: never empty, the fixed fallback pair
/// standing in when nothing rendered.
pub open spec fn final_labels(pairs: Seq<(TemplateV, TemplateV)>, fields: FieldsV) -> LabelsV {
    let built = built_labels(pairs, fields);
    if built.len() == 0 {
        seq![("agent"@, "vector"@)]
    } else {
        built
    }
}

/// The tenant an event resolves to: none without a template, none again on
/// a render failure.
pub open spec fn tenant_of(t: Option<TemplateV>, fields: FieldsV) -> Option<Seq<char>> {
    match t {
        Option::None => Option::None,
        Option::Some(tv) => render_spec(tv, fields),
    }
}

/// Encodes one raw event into a labelled record; total, never failing the
/// pipeline. Every fallback the contract names is observable to the caller:
/// an empty rendered label set shows as the fallback pair, a dropped tenant
/// as `tenant == None`.
pub struct EventEncoder {
    pub key_partitioner: KeyPartitioner,
    pub encoding: Encoding,
    pub labels: Vec<(Template, Template)>,
    pub remove_label_fields: bool,
    pub remove_timestamp: bool,
}

impl EventEncoder {
    pub open spec fn spec_label_pairs(&self) -> Seq<(TemplateV, TemplateV)> {
        label_pair_views(self.labels@)
    }

    /// The event's fields after the configured removals: label source
    /// fields first, then the timestamp field.
    pub open spec fn spec_body_fields(&self, fields: FieldsV) -> FieldsV {
        let f1 = if self.remove_label_fields {
            strip_keys(fields, label_field_names(self.spec_label_pairs()))
        } else {
            fields
        };
        if self.remove_timestamp {
            remove_key(f1, timestamp_key())
        } else {
            f1
        }
    }

    /// Renders every configured label pair against the event.
    pub fn build_labels(&self, event: &LogEvent) -> (r: Vec<(String, String)>)
        ensures
            labels_view(r@) == built_labels(self.spec_label_pairs(), event@),
    {
        let ghost pairs = self.spec_label_pairs();
        let mut out: Vec<(String, String)> = Vec::new();
        let n = self.labels.len();
        let mut i: usize = 0;
        proof {
            assert(labels_view(out@) =~= built_labels(pairs.take(0), event@));
        }
        while i < n
            invariant
                n == self.labels@.len(),
                i <= n,
                pairs == self.spec_label_pairs(),
                pairs.len() == n,
                labels_view(out@) == built_labels(pairs.take(i as int), event@),
            decreases n - i,
        {
            let pair = &self.labels[i];
            let ghost before = out@;
            proof {
                assert(pairs.take(i + 1).drop_last() =~= pairs.take(i as int));
                assert(pairs.take(i + 1).last() == pairs[i as int]);
            }
            match (pair.0.render(event), pair.1.render(event)) {
                (Ok(k), Ok(v)) => {
                    let q = (k, v);
                    out.push(q);
                    proof {
                        assert(labels_view(out@) =~= labels_view(before).push((q.0@, q.1@)));
                        assert(labels_view(out@) =~= built_labels(pairs.take(i + 1), event@));
                    }
                },
                _ => {
                    proof {
                        assert(labels_view(out@) =~= built_labels(pairs.take(i + 1), event@));
                    }
                },
            }
            i += 1;
        }
        proof {
            assert(pairs.take(n as int) =~= pairs);
        }
        out
    }

    /// When configured, removes from the event every field a label template
    /// reads — key and value templates alike; the already-rendered labels
    /// are unaffected.
    pub fn remove_label_fields(&self, event: &mut LogEvent)
        ensures
            final(event)@ == if self.remove_label_fields {
                strip_keys(old(event)@, label_field_names(self.spec_label_pairs()))
            } else {
                old(event)@
            },
            final(event).spec_finalizers() == old(event).spec_finalizers(),
    {
        if !self.remove_label_fields {
            return ;
        }
        let ghost pairs = self.spec_label_pairs();
        let ghost fs0 = event@;
        let n = self.labels.len();
        let mut i: usize = 0;
        proof {
            assert(label_field_names(pairs.take(0)) =~= Seq::<Seq<char>>::empty());
            assert(event@ =~= strip_keys(fs0, label_field_names(pairs.take(0))));
        }
        while i < n
            invariant
                n == self.labels@.len(),
                i <= n,
                pairs == self.spec_label_pairs(),
                pairs.len() == n,
                event@ == strip_keys(fs0, label_field_names(pairs.take(i as int))),
                event.spec_finalizers() == old(event).spec_finalizers(),
            decreases n - i,
        {
            let mut names = self.labels[i].0.get_fields();
            let ghost kview = names@.map_values(|s: String| s@);
            let mut value_names = self.labels[i].1.get_fields();
            let ghost vview = value_names@.map_values(|s: String| s@);
            names.append(&mut value_names);
            let ghost nview = names@.map_values(|s: String| s@);
            proof {
                assert(nview =~= kview + vview);
                assert(pairs.take(i + 1).drop_last() =~= pairs.take(i as int));
                assert(pairs.take(i + 1).last() == pairs[i as int]);
                assert(label_field_names(pairs.take(i + 1)) =~= label_field_names(
                    pairs.take(i as int),
                ) + nview);
            }
            let m = names.len();
            let mut j: usize = 0;
            proof {
                assert(nview.take(0) =~= Seq::<Seq<char>>::empty());
                assert(strip_keys(event@, nview.take(0)) =~= event@);
            }
            let ghost base = event@;
            while j < m
                invariant
                    m == names@.len(),
                    j <= m,
                    nview == names@.map_values(|s: String| s@),
                    event@ == strip_keys(base, nview.take(j as int)),
                    event.spec_finalizers() == old(event).spec_finalizers(),
                decreases m - j,
            {
                let ghost pre = event@;
                event.remove(names[j].as_str());
                proof {
                    assert(nview.take(j + 1).drop_last() =~= nview.take(j as int));
                    lemma_strip_keys_append(base, nview.take(j as int), seq![nview[j as int]]);
                    assert(nview.take(j as int) + seq![nview[j as int]] =~= nview.take(j + 1));
                    let single = seq![nview[j as int]];
                    assert(single.len() == 1);
                    assert(single[0] == nview[j as int]);
                    assert(single.skip(1) =~= Seq::<Seq<char>>::empty());
                    assert(strip_keys(pre, single) == strip_keys(
                        remove_key(pre, nview[j as int]),
                        single.skip(1),
                    ));
                    assert(strip_keys(remove_key(pre, nview[j as int]), single.skip(1))
                        == remove_key(pre, nview[j as int]));
                }
                j += 1;
            }
            proof {
                assert(nview.take(m as int) =~= nview);
                lemma_strip_keys_append(fs0, label_field_names(pairs.take(i as int)), nview);
            }
            i += 1;
        }
        proof {
            assert(pairs.take(n as int) =~= pairs);
        }
    }

    /// Encodes one event: labels, body, timestamp, partition key. The body
    /// is the configured codec's serialization of the fields that survive
    /// the configured removals; with the timestamp field removed, no such
    /// field reaches the body. When the event carries no timestamp field,
    /// the record is stamped with the wall clock and the contract leaves the
    /// stamp open.
    pub fn encode_event(&self, event: LogEvent) -> (r: LokiRecord)
        ensures
            ({
                let pairs = self.spec_label_pairs();
                let fields1 = if self.remove_label_fields {
                    strip_keys(event@, label_field_names(pairs))
                } else {
                    event@
                };
                let fields2 = self.spec_body_fields(event@);
                &&& r@.labels == final_labels(pairs, event@)
                &&& r@.labels.len() >= 1
                &&& r@.line == serialize_spec(self.encoding, fields2)
                &&& r@.finalizers == event.spec_finalizers()
                &&& r@.partition == (PartitionKeyV {
                    tenant: tenant_of(self.key_partitioner.spec_template(), event@),
                    labels: crate::partition::sorted_labels(final_labels(pairs, event@)),
                })
                &&& match lookup(fields1, timestamp_key()) {
                    Some(ValueV::Timestamp(n)) => r@.timestamp == n,
                    _ => true,
                }
                &&& self.remove_timestamp ==> !has_key(fields2, timestamp_key())
            }),
    {
        let mut event = event;
        let ghost fields0 = event@;
        let tenant_id = self.key_partitioner.partition(&event);
        let finalizers = event.take_finalizers();
        let mut labels = self.build_labels(&event);
        self.remove_label_fields(&mut event);

        let timestamp = match event.get(timestamp_key_str()) {
            Some(Value::Timestamp(ts)) => *ts,
            _ => now_timestamp_nanos(),
        };

        if self.remove_timestamp {
            event.remove(timestamp_key_str());
            proof {
                let fields1 = if self.remove_label_fields {
                    strip_keys(fields0, label_field_names(self.spec_label_pairs()))
                } else {
                    fields0
                };
                lemma_remove_key_gone(fields1, timestamp_key());
                lemma_lookup_absent(event@, timestamp_key());
            }
        }

        let line = serialize_event(self.encoding, &event);

        if labels.len() == 0 {
            let fallback = (
                <String as vstd::string::StringExecFns>::from_str("agent"),
                <String as vstd::string::StringExecFns>::from_str("vector"),
            );
            labels.push(fallback);
            proof {
                assert(labels_view(labels@) =~= seq![("agent"@, "vector"@)]);
            }
        }

        let partition = PartitionKey::new(tenant_id, &labels);
        LokiRecord { labels, event: LokiEvent { timestamp, event: line }, partition, finalizers }
    }
}

/// With no renderable label, the encoder substitutes exactly one label
/// pair: the fixed fallback naming the producing agent.
pub proof fn lemma_no_labels_fallback(pairs: Seq<(TemplateV, TemplateV)>, fields: FieldsV)
    requires
        built_labels(pairs, fields).len() == 0,
    ensures
        final_labels(pairs, fields).len() == 1,
        final_labels(pairs, fields)[0] == ("agent"@, "vector"@),
{
}

} // verus!
