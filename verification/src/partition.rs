//! Partition identity: the tenant plus the label set. Records with the same
//! key share one stream and one batch.
use vstd::prelude::*;
use vstd::multiset::Multiset;
use vstd::string::StrSliceExecFns;
use vstd::string::StringSliceAdditionalSpecFns;
use vstd::utf8::{decode_utf8, encode_utf8};
use crate::event::LogEvent;
use crate::template::{render_spec, Template, TemplateV};
use crate::text::{bytes_le, bytes_le_exec, str_eq};

verus! {

/// A label list as character sequences.
pub type LabelsV = Seq<(Seq<char>, Seq<char>)>;

pub open spec fn labels_view(l: Seq<(String, String)>) -> LabelsV {
    l.map_values(|p: (String, String)| (p.0@, p.1@))
}

/// The mathematical form of a partition key.
#[verifier::ext_equal]
pub struct PartitionKeyV {
    pub tenant: Option<Seq<char>>,
    pub labels: LabelsV,
}

/// The grouping identity of a record: the tenant, if any, and the rendered
/// label pairs in their configured order.
pub struct PartitionKey {
    pub tenant_id: Option<String>,
    pub labels: Vec<(String, String)>,
}

impl View for PartitionKey {
    type V = PartitionKeyV;

    open spec fn view(&self) -> PartitionKeyV {
        PartitionKeyV {
            tenant: match self.tenant_id {
                Option::None => Option::None,
                Option::Some(s) => Option::Some(s@),
            },
            labels: labels_view(self.labels@),
        }
    }
}

/// A copy of a label list, pair by pair.
pub fn clone_labels(src: &Vec<(String, String)>) -> (r: Vec<(String, String)>)
    ensures
        labels_view(r@) == labels_view(src@),
        r@.len() == src@.len(),
{
    let mut out: Vec<(String, String)> = Vec::new();
    let n = src.len();
    let mut i: usize = 0;
    while i < n
        invariant
            n == src@.len(),
            i <= n,
            out@.len() == i,
            forall|j: int| 0 <= j < i ==> #[trigger] labels_view(out@)[j] == labels_view(src@)[j],
        decreases n - i,
    {
        let ghost before = out@;
        let p = &src[i];
        let q = (p.0.clone(), p.1.clone());
        out.push(q);
        proof {
            assert forall|j: int| 0 <= j < i + 1 implies #[trigger] labels_view(out@)[j]
                == labels_view(src@)[j] by {
                if j < i {
                    assert(labels_view(before)[j] == labels_view(src@)[j]);
                    assert(out@[j] == before[j]);
                } else {
                    assert(out@[j] == q);
                    assert((q.0@, q.1@) == labels_view(src@)[j]);
                }
            }
        }
        i += 1;
    }
    proof {
        assert(labels_view(out@) =~= labels_view(src@));
    }
    out
}

impl Clone for PartitionKey {
    fn clone(&self) -> (r: Self)
        ensures
            r@ == self@,
    {
        let tenant_id = match &self.tenant_id {
            Option::None => Option::None,
            Option::Some(s) => Option::Some(s.clone()),
        };
        PartitionKey { tenant_id, labels: clone_labels(&self.labels) }
    }
}

/// How two rendered labels are ordered inside a key: by the bytes of the
/// name, then by the bytes of the value.
pub open spec fn label_le(x: (Seq<char>, Seq<char>), y: (Seq<char>, Seq<char>)) -> bool {
    if x.0 == y.0 {
        bytes_le(encode_utf8(x.1), encode_utf8(y.1))
    } else {
        bytes_le(encode_utf8(x.0), encode_utf8(y.0))
    }
}

fn label_le_exec(a: &(String, String), b: &(String, String)) -> (r: bool)
    ensures
        r == label_le((a.0@, a.1@), (b.0@, b.1@)),
{
    if str_eq(a.0.as_str(), b.0.as_str()) {
        bytes_le_exec(a.1.as_str().as_bytes(), b.1.as_str().as_bytes())
    } else {
        bytes_le_exec(a.0.as_str().as_bytes(), b.0.as_str().as_bytes())
    }
}

/// One label placed into an already-ordered list, before the first entry it
/// does not follow.
pub open spec fn insert_sorted(x: (Seq<char>, Seq<char>), s: LabelsV) -> LabelsV
    decreases s.len(),
{
    if s.len() == 0 {
        seq![x]
    } else if label_le(x, s[0]) {
        seq![x] + s
    } else {
        seq![s[0]] + insert_sorted(x, s.skip(1))
    }
}

/// A label list rearranged into `label_le` order, entry by entry.
pub open spec fn sorted_labels(s: LabelsV) -> LabelsV
    decreases s.len(),
{
    if s.len() == 0 {
        s
    } else {
        insert_sorted(s.last(), sorted_labels(s.drop_last()))
    }
}

/// Placing at the first position whose entry follows `x` is what
/// `insert_sorted` does.
proof fn lemma_insert_sorted_at(x: (Seq<char>, Seq<char>), s: LabelsV, j: int)
    requires
        0 <= j <= s.len(),
        forall|l: int| 0 <= l < j ==> !label_le(x, #[trigger] s[l]),
        j < s.len() ==> label_le(x, s[j]),
    ensures
        insert_sorted(x, s) == s.insert(j, x),
    decreases j,
{
    if j == 0 {
        if s.len() == 0 {
            assert(insert_sorted(x, s) =~= s.insert(0, x));
        } else {
            assert(label_le(x, s[0]));
            assert(seq![x] + s =~= s.insert(0, x));
        }
    } else {
        assert(!label_le(x, s[0]));
        assert(forall|l: int| 0 <= l < j - 1 ==> !label_le(x, #[trigger] s.skip(1)[l]));
        lemma_insert_sorted_at(x, s.skip(1), j - 1);
        assert(seq![s[0]] + s.skip(1).insert(j - 1, x) =~= s.insert(j, x));
    }
}

/// One of the two directions always holds.
proof fn lemma_label_le_total(x: (Seq<char>, Seq<char>), y: (Seq<char>, Seq<char>))
    ensures
        label_le(x, y) || label_le(y, x),
{
    if x.0 == y.0 {
        crate::text::lemma_bytes_le_total(encode_utf8(x.1), encode_utf8(y.1));
    } else {
        crate::text::lemma_bytes_le_total(encode_utf8(x.0), encode_utf8(y.0));
    }
}

/// Mutual label order is equality: the byte encoding of a character
/// sequence determines it.
proof fn lemma_label_le_antisym(x: (Seq<char>, Seq<char>), y: (Seq<char>, Seq<char>))
    requires
        label_le(x, y),
        label_le(y, x),
    ensures
        x == y,
{
    broadcast use vstd::utf8::encode_utf8_decode_utf8;

    if x.0 == y.0 {
        crate::text::lemma_bytes_le_antisym(encode_utf8(x.1), encode_utf8(y.1));
        assert(decode_utf8(encode_utf8(x.1)) == decode_utf8(encode_utf8(y.1)));
        assert(x.1 == y.1);
    } else {
        crate::text::lemma_bytes_le_antisym(encode_utf8(x.0), encode_utf8(y.0));
        assert(decode_utf8(encode_utf8(x.0)) == decode_utf8(encode_utf8(y.0)));
        assert(x.0 == y.0);
    }
}

/// The label order chains.
proof fn lemma_label_le_trans(
    x: (Seq<char>, Seq<char>),
    y: (Seq<char>, Seq<char>),
    z: (Seq<char>, Seq<char>),
)
    requires
        label_le(x, y),
        label_le(y, z),
    ensures
        label_le(x, z),
{
    broadcast use vstd::utf8::encode_utf8_decode_utf8;

    if x.0 == y.0 && y.0 == z.0 {
        crate::text::lemma_bytes_le_trans(
            encode_utf8(x.1),
            encode_utf8(y.1),
            encode_utf8(z.1),
        );
    } else if x.0 != y.0 && y.0 != z.0 {
        if x.0 == z.0 {
            crate::text::lemma_bytes_le_antisym(encode_utf8(x.0), encode_utf8(y.0));
            assert(decode_utf8(encode_utf8(x.0)) == decode_utf8(encode_utf8(y.0)));
            assert(false);
        } else {
            crate::text::lemma_bytes_le_trans(
                encode_utf8(x.0),
                encode_utf8(y.0),
                encode_utf8(z.0),
            );
        }
    }
}

/// The whole list is in order.
pub open spec fn labels_ordered(s: LabelsV) -> bool {
    forall|i: int, j: int| 0 <= i < j < s.len() ==> label_le(#[trigger] s[i], #[trigger] s[j])
}

proof fn lemma_insert_sorted_multiset(x: (Seq<char>, Seq<char>), s: LabelsV)
    ensures
        insert_sorted(x, s).to_multiset() == s.to_multiset().insert(x),
    decreases s.len(),
{
    broadcast use vstd::seq_lib::group_to_multiset_ensures;

    if s.len() == 0 {
        assert(seq![x] =~= Seq::<(Seq<char>, Seq<char>)>::empty().push(x));
        assert(insert_sorted(x, s).to_multiset() =~= s.to_multiset().insert(x));
    } else if label_le(x, s[0]) {
        vstd::seq_lib::lemma_multiset_commutative(seq![x], s);
        assert(seq![x].to_multiset() =~= Multiset::<(Seq<char>, Seq<char>)>::empty().insert(x));
        assert((seq![x] + s).to_multiset() =~= s.to_multiset().insert(x));
    } else {
        lemma_insert_sorted_multiset(x, s.skip(1));
        vstd::seq_lib::lemma_multiset_commutative(seq![s[0]], insert_sorted(x, s.skip(1)));
        vstd::seq_lib::lemma_multiset_commutative(seq![s[0]], s.skip(1));
        assert(s =~= seq![s[0]] + s.skip(1));
        assert(seq![s[0]].to_multiset() =~= Multiset::<(Seq<char>, Seq<char>)>::empty().insert(
            s[0],
        ));
        assert((seq![s[0]] + insert_sorted(x, s.skip(1))).to_multiset() =~= s.to_multiset().insert(
            x,
        ));
    }
}

/// Ordering the labels loses none and invents none: the ordered list is a
/// permutation of the rendered one.
pub proof fn lemma_sorted_labels_permutes(s: LabelsV)
    ensures
        sorted_labels(s).to_multiset() == s.to_multiset(),
        sorted_labels(s).len() == s.len(),
    decreases s.len(),
{
    broadcast use vstd::seq_lib::group_to_multiset_ensures;

    if s.len() > 0 {
        lemma_sorted_labels_permutes(s.drop_last());
        lemma_insert_sorted_multiset(s.last(), sorted_labels(s.drop_last()));
        assert(s =~= s.drop_last().push(s.last()));
        assert(sorted_labels(s).to_multiset() =~= s.to_multiset());
    }
    assert(sorted_labels(s).len() == sorted_labels(s).to_multiset().len());
    assert(s.len() == s.to_multiset().len());
}

proof fn lemma_insert_sorted_ordered(x: (Seq<char>, Seq<char>), s: LabelsV)
    requires
        labels_ordered(s),
    ensures
        labels_ordered(insert_sorted(x, s)),
    decreases s.len(),
{
    broadcast use vstd::seq_lib::group_to_multiset_ensures;

    if s.len() == 0 {
    } else if label_le(x, s[0]) {
        let r = seq![x] + s;
        assert forall|i: int, j: int| 0 <= i < j < r.len() implies label_le(
            #[trigger] r[i],
            #[trigger] r[j],
        ) by {
            if i == 0 {
                assert(r[j] == s[j - 1]);
                if j > 1 {
                    assert(label_le(s[0], s[j - 1]));
                    lemma_label_le_trans(x, s[0], s[j - 1]);
                }
            } else {
                assert(r[i] == s[i - 1]);
                assert(r[j] == s[j - 1]);
            }
        }
    } else {
        assert(forall|i: int, j: int|
            0 <= i < j < s.skip(1).len() ==> label_le(
                #[trigger] s.skip(1)[i],
                #[trigger] s.skip(1)[j],
            ));
        lemma_insert_sorted_ordered(x, s.skip(1));
        lemma_insert_sorted_multiset(x, s.skip(1));
        let t = insert_sorted(x, s.skip(1));
        lemma_label_le_total(x, s[0]);
        assert forall|j: int| 0 <= j < t.len() implies label_le(s[0], #[trigger] t[j]) by {
            assert(t.contains(t[j]));
            assert(t.to_multiset().count(t[j]) > 0);
            if t[j] == x {
                assert(label_le(s[0], x));
            } else {
                assert(s.skip(1).to_multiset().count(t[j]) > 0);
                assert(s.skip(1).contains(t[j]));
                let k = choose|k: int| 0 <= k < s.skip(1).len() && s.skip(1)[k] == t[j];
                assert(label_le(s[0], s[k + 1]));
            }
        }
        let r = seq![s[0]] + t;
        assert forall|i: int, j: int| 0 <= i < j < r.len() implies label_le(
            #[trigger] r[i],
            #[trigger] r[j],
        ) by {
            if i == 0 {
                assert(r[j] == t[j - 1]);
            } else {
                assert(r[i] == t[i - 1]);
                assert(r[j] == t[j - 1]);
            }
        }
    }
}

proof fn lemma_sorted_labels_ordered(s: LabelsV)
    ensures
        labels_ordered(sorted_labels(s)),
    decreases s.len(),
{
    if s.len() > 0 {
        lemma_sorted_labels_ordered(s.drop_last());
        lemma_insert_sorted_ordered(s.last(), sorted_labels(s.drop_last()));
    }
}

/// Two ordered lists of the same pairs are the same list.
proof fn lemma_ordered_unique(u: LabelsV, v: LabelsV)
    requires
        labels_ordered(u),
        labels_ordered(v),
        u.to_multiset() == v.to_multiset(),
    ensures
        u == v,
    decreases u.len(),
{
    broadcast use vstd::seq_lib::group_to_multiset_ensures;

    if u.len() == 0 {
        assert(v.len() == v.to_multiset().len());
        assert(u =~= v);
    } else {
        assert(v.len() == v.to_multiset().len());
        assert(u.len() == u.to_multiset().len());
        assert(u.contains(u[0]));
        assert(v.to_multiset().count(u[0]) > 0);
        assert(v.contains(u[0]));
        let i = choose|i: int| 0 <= i < v.len() && v[i] == u[0];
        lemma_label_le_total(v[0], v[0]);
        if i > 0 {
            assert(label_le(v[0], v[i]));
        }
        assert(label_le(v[0], u[0]));
        assert(v.contains(v[0]));
        assert(u.to_multiset().count(v[0]) > 0);
        assert(u.contains(v[0]));
        let k = choose|k: int| 0 <= k < u.len() && u[k] == v[0];
        lemma_label_le_total(u[0], u[0]);
        if k > 0 {
            assert(label_le(u[0], u[k]));
        }
        assert(label_le(u[0], v[0]));
        lemma_label_le_antisym(u[0], v[0]);
        assert(u[0] == v[0]);
        assert(u.remove(0) =~= u.skip(1));
        assert(v.remove(0) =~= v.skip(1));
        assert(u.skip(1).to_multiset() =~= u.to_multiset().remove(u[0]));
        assert(v.skip(1).to_multiset() =~= v.to_multiset().remove(v[0]));
        assert(forall|a: int, b: int|
            0 <= a < b < u.skip(1).len() ==> label_le(#[trigger] u.skip(1)[a], #[trigger] u.skip(
                1,
            )[b]));
        assert(forall|a: int, b: int|
            0 <= a < b < v.skip(1).len() ==> label_le(#[trigger] v.skip(1)[a], #[trigger] v.skip(
                1,
            )[b]));
        lemma_ordered_unique(u.skip(1), v.skip(1));
        assert forall|j: int| 0 <= j < u.len() implies u[j] == v[j] by {
            if j > 0 {
                assert(u[j] == u.skip(1)[j - 1]);
                assert(v[j] == v.skip(1)[j - 1]);
            }
        }
        assert(u =~= v);
    }
}

/// Order independence: two label lists made of the same pairs — in any
/// order — give the partition key the same label set, so records with the
/// same tenant and the same labels always share a partition.
pub proof fn lemma_key_order_independent(a: LabelsV, b: LabelsV)
    requires
        a.to_multiset() == b.to_multiset(),
    ensures
        sorted_labels(a) == sorted_labels(b),
{
    lemma_sorted_labels_permutes(a);
    lemma_sorted_labels_permutes(b);
    lemma_sorted_labels_ordered(a);
    lemma_sorted_labels_ordered(b);
    lemma_ordered_unique(sorted_labels(a), sorted_labels(b));
}

/// A copy of a label list in `label_le` order.
pub fn sort_labels(labels: &Vec<(String, String)>) -> (r: Vec<(String, String)>)
    ensures
        labels_view(r@) == sorted_labels(labels_view(labels@)),
{
    let ghost all = labels_view(labels@);
    let mut out: Vec<(String, String)> = Vec::new();
    let n = labels.len();
    let mut i: usize = 0;
    proof {
        assert(all.take(0) =~= Seq::<(Seq<char>, Seq<char>)>::empty());
        assert(labels_view(out@) =~= sorted_labels(all.take(0)));
    }
    while i < n
        invariant
            n == labels@.len(),
            i <= n,
            all == labels_view(labels@),
            labels_view(out@) == sorted_labels(all.take(i as int)),
        decreases n - i,
    {
        let p = &labels[i];
        let x = (p.0.clone(), p.1.clone());
        let ghost sofar = labels_view(out@);
        let m = out.len();
        let mut j: usize = 0;
        while j < m && !label_le_exec(&x, &out[j])
            invariant
                m == out@.len(),
                j <= m,
                sofar == labels_view(out@),
                (x.0@, x.1@) == all[i as int],
                forall|l: int| 0 <= l < j ==> !label_le((x.0@, x.1@), #[trigger] sofar[l]),
            decreases m - j,
        {
            j += 1;
        }
        proof {
            lemma_insert_sorted_at((x.0@, x.1@), sofar, j as int);
        }
        let ghost xv = (x.0@, x.1@);
        out.insert(j, x);
        proof {
            assert(labels_view(out@) =~= sofar.insert(j as int, xv));
            assert(all.take(i + 1).drop_last() =~= all.take(i as int));
            assert(all.take(i + 1).last() == all[i as int]);
            assert(labels_view(out@) =~= sorted_labels(all.take(i + 1)));
        }
        i += 1;
    }
    proof {
        assert(all.take(n as int) =~= all);
    }
    out
}

impl PartitionKey {
    /// Builds the key for a tenant and a rendered label list. The labels are
    /// ordered inside the key, so that lists that differ only in order name
    /// the same partition.
    pub fn new(tenant_id: Option<String>, labels: &Vec<(String, String)>) -> (r: Self)
        ensures
            r@ == (PartitionKeyV {
                tenant: match tenant_id {
                    Option::None => Option::None,
                    Option::Some(s) => Option::Some(s@),
                },
                labels: sorted_labels(labels_view(labels@)),
            }),
    {
        PartitionKey { tenant_id, labels: sort_labels(labels) }
    }

    /// Whether two keys name the same partition.
    pub fn key_eq(&self, other: &PartitionKey) -> (r: bool)
        ensures
            r == (self@ == other@),
    {
        let tenant_same = match (&self.tenant_id, &other.tenant_id) {
            (Option::None, Option::None) => true,
            (Option::Some(a), Option::Some(b)) => str_eq(a.as_str(), b.as_str()),
            _ => false,
        };
        if !tenant_same {
            return false;
        }
        let n = self.labels.len();
        if n != other.labels.len() {
            proof {
                assert(labels_view(self.labels@).len() != labels_view(other.labels@).len());
            }
            return false;
        }
        let mut i: usize = 0;
        while i < n
            invariant
                n == self.labels@.len(),
                n == other.labels@.len(),
                i <= n,
                self@.tenant == other@.tenant,
                forall|j: int| 0 <= j < i ==> #[trigger] labels_view(self.labels@)[j]
                    == labels_view(other.labels@)[j],
            decreases n - i,
        {
            let a = &self.labels[i];
            let b = &other.labels[i];
            if !str_eq(a.0.as_str(), b.0.as_str()) || !str_eq(a.1.as_str(), b.1.as_str()) {
                proof {
                    let ii = i as int;
                    assert(labels_view(self.labels@)[ii] != labels_view(other.labels@)[ii]);
                }
                return false;
            }
            i += 1;
        }
        proof {
            assert(labels_view(self.labels@) =~= labels_view(other.labels@));
            assert(self@ =~= other@);
        }
        true
    }
}

/// Derives the optional tenant identity of an event through the configured
/// template. A render failure falls back to "no tenant": it never aborts or
/// drops the event.
pub struct KeyPartitioner {
    template: Option<Template>,
}

impl KeyPartitioner {
    /// The configured template, if any.
    pub closed spec fn spec_template(&self) -> Option<TemplateV> {
        match self.template {
            Option::None => Option::None,
            Option::Some(t) => Option::Some(t@),
        }
    }

    pub fn new(template: Option<Template>) -> (r: Self)
        ensures
            r.spec_template() == (match template {
                Option::None => Option::None::<TemplateV>,
                Option::Some(t) => Option::Some(t@),
            }),
    {
        KeyPartitioner { template }
    }

    /// The tenant for an event: `None` without a template, and `None` again
    /// when rendering fails.
    pub fn partition(&self, event: &LogEvent) -> (r: Option<String>)
        ensures
            match self.spec_template() {
                Option::None => r is None,
                Option::Some(t) => match render_spec(t, event@) {
                    Option::Some(s) => r matches Some(x) && x@ == s,
                    Option::None => r is None,
                },
            },
    {
        match &self.template {
            Option::None => Option::None,
            Option::Some(t) => match t.render(event) {
                Ok(s) => Option::Some(s),
                Err(_) => Option::None,
            },
        }
    }
}

} // verus!
