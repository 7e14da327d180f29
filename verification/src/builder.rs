//! Request assembly: a (partition, batch) pair is split into metadata with
//! the merged finalizer set, the batch is serialized into the wire payload,
//! and a byte ceiling is enforced before anything reaches the transport.
use vstd::prelude::*;
use vstd::string::StrSliceExecFns;
use vstd::string::StringExecFns;
use vstd::string::StringSliceAdditionalSpecFns;
use vstd::utf8::encode_utf8;
use crate::event::EventFinalizers;
use crate::partition::{LabelsV, PartitionKey, PartitionKeyV};
use crate::record::{record_views, LokiRecord, RecordV};
use crate::text::{dec_into, dec_str_of, escape_into, escaped, push_char};

verus! {

/// Why a batch failed to become a request. A failed batch is abandoned with
/// its finalizers: they are dropped without an explicit release, a known
/// at-least-once gap of this stage.
#[derive(Debug)]
pub enum RequestBuildError {
    /// The encoded payload exceeds the configured ceiling.
    PayloadTooBig,
    /// Reserved for a failing compression step. The identity compression
    /// configured here cannot fail, so nothing constructs this variant.
    Io { message: String },
}

/// One wire-ready request.
pub struct LokiRequest {
    pub batch_size: usize,
    pub finalizers: EventFinalizers,
    pub payload: Vec<u8>,
    pub tenant_id: Option<String>,
}

/// Every record's finalizer handles, in record order.
pub open spec fn concat_finalizers(rs: Seq<RecordV>) -> Seq<u64>
    decreases rs.len(),
{
    if rs.len() == 0 {
        Seq::empty()
    } else {
        rs[0].finalizers + concat_finalizers(rs.skip(1))
    }
}

/// The total count of finalizer handles over a record sequence.
pub open spec fn sum_finalizer_counts(rs: Seq<RecordV>) -> int
    decreases rs.len(),
{
    if rs.len() == 0 {
        0
    } else {
        rs[0].finalizers.len() + sum_finalizer_counts(rs.skip(1))
    }
}

/// Finalizer conservation: the merged set holds exactly as many handles as
/// all contributing records together — none lost, none duplicated.
pub proof fn lemma_finalizer_conservation(rs: Seq<RecordV>)
    ensures
        concat_finalizers(rs).len() == sum_finalizer_counts(rs),
    decreases rs.len(),
{
    if rs.len() > 0 {
        lemma_finalizer_conservation(rs.skip(1));
    }
}

/// One label written as a quoted JSON member.
pub open spec fn label_member(l: (Seq<char>, Seq<char>)) -> Seq<char> {
    seq!['"'] + escaped(l.0) + seq!['"', ':', '"'] + escaped(l.1) + seq!['"']
}

/// All labels of a stream, comma-separated.
pub open spec fn label_members(ls: LabelsV) -> Seq<char>
    decreases ls.len(),
{
    if ls.len() == 0 {
        Seq::empty()
    } else if ls.len() == 1 {
        label_member(ls[0])
    } else {
        label_members(ls.drop_last()) + seq![','] + label_member(ls.last())
    }
}

/// One record as a stream entry: its timestamp and its line.
pub open spec fn entry_of(r: RecordV) -> Seq<char> {
    seq!['[', '"'] + dec_str_of(r.timestamp as int) + seq!['"', ',', '"'] + escaped(r.line) + seq![
        '"',
        ']',
    ]
}

/// All entries of a batch, comma-separated, in batch order.
pub open spec fn entries_of(rs: Seq<RecordV>) -> Seq<char>
    decreases rs.len(),
{
    if rs.len() == 0 {
        Seq::empty()
    } else if rs.len() == 1 {
        entry_of(rs[0])
    } else {
        entries_of(rs.drop_last()) + seq![','] + entry_of(rs.last())
    }
}

/// The wire body of one batch: a single stream, its label set, its entries.
pub open spec fn batch_body_of(key: PartitionKeyV, rs: Seq<RecordV>) -> Seq<char> {
    "{\"streams\":[{\"stream\":{"@ + label_members(key.labels) + "},\"values\":["@ + entries_of(rs)
        + "]}]}"@
}

/// Serializes one batch into the backend's bulk payload shape.
#[derive(Clone, Copy, PartialEq, Eq, Structural)]
pub struct LokiBatchEncoder;

impl LokiBatchEncoder {
    /// The payload bytes for one batch.
    pub fn encode_batch(&self, key: &PartitionKey, records: &Vec<LokiRecord>) -> (r: Vec<u8>)
        ensures
            r@ == encode_utf8(batch_body_of(key@, record_views(records@))),
    {
        let mut out = String::new();
        out.append("{\"streams\":[{\"stream\":{");
        let n = key.labels.len();
        let mut i: usize = 0;
        proof {
            let ls = key@.labels;
            assert(out@ =~= "{\"streams\":[{\"stream\":{"@ + label_members(ls.take(0)));
        }
        while i < n
            invariant
                n == key.labels@.len(),
                i <= n,
                out@ == "{\"streams\":[{\"stream\":{"@ + label_members(key@.labels.take(i as int)),
            decreases n - i,
        {
            let ghost ls = key@.labels;
            proof {
                assert(ls.take(i + 1).drop_last() =~= ls.take(i as int));
                assert(ls.take(i + 1).last() == ls[i as int]);
            }
            if i > 0 {
                push_char(&mut out, ',');
            }
            let l = &key.labels[i];
            push_char(&mut out, '"');
            escape_into(&mut out, l.0.as_str());
            push_char(&mut out, '"');
            push_char(&mut out, ':');
            push_char(&mut out, '"');
            escape_into(&mut out, l.1.as_str());
            push_char(&mut out, '"');
            proof {
                if i == 0 {
                    assert(out@ =~= "{\"streams\":[{\"stream\":{"@ + label_members(ls.take(1)));
                } else {
                    assert(out@ =~= "{\"streams\":[{\"stream\":{"@ + label_members(ls.take(i + 1)));
                }
            }
            i += 1;
        }
        proof {
            assert(key@.labels.take(n as int) =~= key@.labels);
        }
        out.append("},\"values\":[");
        let ghost head = out@;
        let m = records.len();
        let mut j: usize = 0;
        proof {
            assert(entries_of(record_views(records@).take(0)) =~= Seq::<char>::empty());
            assert(out@ =~= head + entries_of(record_views(records@).take(0)));
        }
        while j < m
            invariant
                m == records@.len(),
                j <= m,
                out@ == head + entries_of(record_views(records@).take(j as int)),
            decreases m - j,
        {
            let ghost rv = record_views(records@);
            proof {
                assert(rv.take(j + 1).drop_last() =~= rv.take(j as int));
                assert(rv.take(j + 1).last() == rv[j as int]);
            }
            if j > 0 {
                push_char(&mut out, ',');
            }
            let rec = &records[j];
            push_char(&mut out, '[');
            push_char(&mut out, '"');
            dec_into(&mut out, rec.event.timestamp);
            push_char(&mut out, '"');
            push_char(&mut out, ',');
            push_char(&mut out, '"');
            escape_into(&mut out, rec.event.event.as_str());
            push_char(&mut out, '"');
            push_char(&mut out, ']');
            proof {
                if j == 0 {
                    assert(out@ =~= head + entries_of(rv.take(1)));
                } else {
                    assert(out@ =~= head + entries_of(rv.take(j + 1)));
                }
            }
            j += 1;
        }
        proof {
            assert(record_views(records@).take(m as int) =~= record_views(records@));
        }
        out.append("]}]}");
        proof {
            assert(out@ =~= batch_body_of(key@, record_views(records@)));
        }
        out.as_str().as_bytes_vec()
    }
}

/// Turns one batch into a wire request: metadata first, payload second,
/// with a byte ceiling enforced between the two.
pub struct LokiRequestBuilder {
    pub encoder: LokiBatchEncoder,
    pub max_payload_bytes: Option<usize>,
}

impl Default for LokiRequestBuilder {
    /// No ceiling configured.
    fn default() -> (r: Self)
        ensures
            r.max_payload_bytes is None,
    {
        LokiRequestBuilder { encoder: LokiBatchEncoder, max_payload_bytes: Option::None }
    }
}

impl LokiRequestBuilder {
    pub fn encoder(&self) -> (r: &LokiBatchEncoder)
        ensures
            *r == self.encoder,
    {
        &self.encoder
    }

    /// Splits a batch into its metadata — tenant, record count, and the
    /// merged finalizer set — and the records kept for serialization. No
    /// finalizer handle is lost or duplicated, and the returned records
    /// carry none.
    pub fn split_input(&self, input: (PartitionKey, Vec<LokiRecord>)) -> (r: ((
        Option<String>,
        usize,
        EventFinalizers,
    ), Vec<LokiRecord>))
        ensures
            ({
                let iv = record_views(input.1@);
                &&& match r.0.0 {
                    Option::Some(s) => input.0@.tenant == Option::Some(s@),
                    Option::None => input.0@.tenant is None,
                }
                &&& r.0.1 == input.1@.len()
                &&& r.0.2@ == concat_finalizers(iv)
                &&& r.1@.len() == iv.len()
                &&& forall|i: int| 0 <= i < r.1@.len() ==> (#[trigger] r.1@[i])@ == (RecordV {
                    finalizers: Seq::empty(),
                    ..iv[i]
                })
            }),
    {
        let (key, records) = input;
        let ghost iv = record_views(records@);
        let batch_size = records.len();
        let mut rest = records;
        let mut finalizers = EventFinalizers::empty();
        let mut out: Vec<LokiRecord> = Vec::new();
        proof {
            assert(record_views(rest@) =~= iv.skip(0));
            assert(finalizers@ + concat_finalizers(iv.skip(0)) =~= concat_finalizers(iv));
        }
        while rest.len() > 0
            invariant
                out@.len() + rest@.len() == iv.len(),
                record_views(rest@) == iv.skip(out@.len() as int),
                concat_finalizers(iv) == finalizers@ + concat_finalizers(
                    record_views(rest@),
                ),
                forall|i: int| 0 <= i < out@.len() ==> (#[trigger] out@[i])@ == (RecordV {
                    finalizers: Seq::empty(),
                    ..iv[i]
                }),
            decreases rest.len(),
        {
            let ghost k = out@.len() as int;
            let ghost rv = record_views(rest@);
            let mut r = rest.remove(0);
            proof {
                assert(record_views(rest@) =~= rv.skip(1));
                assert(rv[0] == r@);
                assert(rv.skip(1) =~= iv.skip(k + 1));
            }
            let f = r.finalizers.take();
            let ghost fset = finalizers@;
            finalizers.merge(f);
            proof {
                assert(concat_finalizers(rv) == rv[0].finalizers + concat_finalizers(rv.skip(1)));
                assert(fset + (rv[0].finalizers + concat_finalizers(rv.skip(1))) =~= (fset
                    + rv[0].finalizers) + concat_finalizers(rv.skip(1)));
            }
            let ghost before_out = out@;
            out.push(r);
            proof {
                assert(r@ =~= (RecordV { finalizers: Seq::empty(), ..iv[k] }));
                assert forall|i: int| 0 <= i < out@.len() implies (#[trigger] out@[i])@ == (RecordV {
                    finalizers: Seq::empty(),
                    ..iv[i]
                }) by {
                    if i < before_out.len() {
                        assert(out@[i] == before_out[i]);
                    } else {
                        assert(out@[i] == r);
                    }
                }
            }
        }
        proof {
            assert(record_views(rest@) =~= Seq::<RecordV>::empty());
            assert(finalizers@ + Seq::<u64>::empty() =~= finalizers@);
        }
        ((key.tenant_id, batch_size, finalizers), out)
    }

    /// The payload for one batch, or `PayloadTooBig` when — and only when —
    /// a ceiling is configured and the encoding exceeds it. No other
    /// failure exists in this step: the identity compression cannot fail.
    pub fn encode_payload(&self, key: &PartitionKey, records: &Vec<LokiRecord>) -> (r: Result<
        Vec<u8>,
        RequestBuildError,
    >)
        ensures
            match r {
                Ok(p) => {
                    &&& p@ == encode_utf8(batch_body_of(key@, record_views(records@)))
                    &&& match self.max_payload_bytes {
                        Option::Some(m) => p@.len() <= m,
                        Option::None => true,
                    }
                },
                Err(e) => {
                    &&& e is PayloadTooBig
                    &&& match self.max_payload_bytes {
                        Option::Some(m) => encode_utf8(
                            batch_body_of(key@, record_views(records@)),
                        ).len() > m,
                        Option::None => false,
                    }
                },
            },
    {
        let bytes = self.encoder.encode_batch(key, records);
        match self.max_payload_bytes {
            Option::Some(m) => {
                if bytes.len() > m {
                    Err(RequestBuildError::PayloadTooBig)
                } else {
                    Ok(bytes)
                }
            },
            Option::None => Ok(bytes),
        }
    }

    /// Assembles the final request from metadata and payload, as they are.
    pub fn build_request(&self, metadata: (Option<String>, usize, EventFinalizers), payload: Vec<
        u8,
    >) -> (r: LokiRequest)
        ensures
            r.batch_size == metadata.1,
            r.finalizers@ == metadata.2@,
            r.payload@ == payload@,
            r.tenant_id == metadata.0,
    {
        let (tenant_id, batch_size, finalizers) = metadata;
        LokiRequest { batch_size, finalizers, payload, tenant_id }
    }
}

} // verus!
