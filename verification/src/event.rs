//! The event model: an ordered mapping of field names to plain values,
//! carrying a detachable set of finalizers.
use vstd::prelude::*;
use crate::text::str_eq;

verus! {

/// A field value, reduced to the plain forms the sink's logic reads: text,
/// or a timestamp as nanoseconds since the Unix epoch.
pub enum Value {
    Text(String),
    Timestamp(i64),
}

/// The mathematical form of a `Value`.
pub enum ValueV {
    Text(Seq<char>),
    Timestamp(i64),
}

impl View for Value {
    type V = ValueV;

    open spec fn view(&self) -> ValueV {
        match self {
            Value::Text(s) => ValueV::Text(s@),
            Value::Timestamp(n) => ValueV::Timestamp(*n),
        }
    }
}

impl Clone for Value {
    fn clone(&self) -> (r: Self)
        ensures
            r@ == self@,
    {
        match self {
            Value::Text(s) => Value::Text(s.clone()),
            Value::Timestamp(n) => Value::Timestamp(*n),
        }
    }
}

/// A set of opaque completion handles, each stood for by a numeric identity.
/// They are moved, never copied: detached from an event once, merged into a
/// request once.
pub struct EventFinalizers {
    items: Vec<u64>,
}

impl View for EventFinalizers {
    type V = Seq<u64>;

    closed spec fn view(&self) -> Seq<u64> {
        self.items@
    }
}

impl EventFinalizers {
    /// The empty finalizer set.
    pub fn empty() -> (r: Self)
        ensures
            r@ == Seq::<u64>::empty(),
    {
        EventFinalizers { items: Vec::new() }
    }

    /// Adds one handle.
    pub fn add(&mut self, id: u64)
        ensures
            final(self)@ == old(self)@.push(id),
    {
        self.items.push(id);
    }

    pub fn len(&self) -> (r: usize)
        ensures
            r == self@.len(),
    {
        self.items.len()
    }

    /// Moves every handle of `other` into `self`; none is lost, none is
    /// duplicated.
    pub fn merge(&mut self, other: EventFinalizers)
        ensures
            final(self)@ == old(self)@ + other@,
    {
        let mut rest = other.items;
        self.items.append(&mut rest);
    }

    /// Detaches the whole set, leaving the source empty.
    pub fn take(&mut self) -> (r: EventFinalizers)
        ensures
            r@ == old(self)@,
            final(self)@ == Seq::<u64>::empty(),
    {
        let mut out = EventFinalizers { items: Vec::new() };
        core::mem::swap(&mut out.items, &mut self.items);
        out
    }
}

/// The field sequence of an event.
pub type FieldsV = Seq<(Seq<char>, ValueV)>;

/// The value of the first field named `k`, if any.
pub open spec fn lookup(fs: FieldsV, k: Seq<char>) -> Option<ValueV>
    decreases fs.len(),
{
    if fs.len() == 0 {
        None
    } else if fs[0].0 == k {
        Some(fs[0].1)
    } else {
        lookup(fs.skip(1), k)
    }
}

pub open spec fn has_key(fs: FieldsV, k: Seq<char>) -> bool {
    lookup(fs, k) is Some
}

/// The field sequence with every field named `k` removed, order kept.
pub open spec fn remove_key(fs: FieldsV, k: Seq<char>) -> FieldsV
    decreases fs.len(),
{
    if fs.len() == 0 {
        Seq::empty()
    } else if fs.last().0 == k {
        remove_key(fs.drop_last(), k)
    } else {
        remove_key(fs.drop_last(), k).push(fs.last())
    }
}

/// The field sequence after removing each named key in turn.
pub open spec fn strip_keys(fs: FieldsV, names: Seq<Seq<char>>) -> FieldsV
    decreases names.len(),
{
    if names.len() == 0 {
        fs
    } else {
        strip_keys(remove_key(fs, names[0]), names.skip(1))
    }
}

/// Stripping a joined name list is stripping the first part, then the rest.
pub proof fn lemma_strip_keys_append(fs: FieldsV, a: Seq<Seq<char>>, b: Seq<Seq<char>>)
    ensures
        strip_keys(fs, a + b) == strip_keys(strip_keys(fs, a), b),
    decreases a.len(),
{
    if a.len() == 0 {
        assert(a + b =~= b);
    } else {
        assert((a + b)[0] == a[0]);
        assert((a + b).skip(1) =~= a.skip(1) + b);
        lemma_strip_keys_append(remove_key(fs, a[0]), a.skip(1), b);
    }
}

/// The first field named `k`, replaced in place; or the pair appended when
/// no field has that name.
pub open spec fn insert_key(fs: FieldsV, k: Seq<char>, v: ValueV) -> FieldsV
    decreases fs.len(),
{
    if fs.len() == 0 {
        seq![(k, v)]
    } else if fs[0].0 == k {
        seq![(k, v)] + fs.skip(1)
    } else {
        seq![fs[0]] + insert_key(fs.skip(1), k, v)
    }
}

/// Nothing named `k` is left after `remove_key`.
pub proof fn lemma_remove_key_gone(fs: FieldsV, k: Seq<char>)
    ensures
        forall|i: int| 0 <= i < remove_key(fs, k).len() ==> #[trigger] remove_key(fs, k)[i].0 != k,
    decreases fs.len(),
{
    if fs.len() > 0 {
        lemma_remove_key_gone(fs.drop_last(), k);
        let r = remove_key(fs, k);
        let rd = remove_key(fs.drop_last(), k);
        assert forall|i: int| 0 <= i < r.len() implies #[trigger] r[i].0 != k by {
            if fs.last().0 == k {
                assert(r[i] == rd[i]);
            } else if i < rd.len() {
                assert(r[i] == rd[i]);
            } else {
                assert(r[i] == fs.last());
            }
        }
    }
}

/// A key that no field carries looks up to `None`.
pub proof fn lemma_lookup_absent(fs: FieldsV, k: Seq<char>)
    requires
        forall|i: int| 0 <= i < fs.len() ==> #[trigger] fs[i].0 != k,
    ensures
        lookup(fs, k) is None,
    decreases fs.len(),
{
    if fs.len() > 0 {
        assert(fs[0].0 != k);
        assert(forall|i: int| 0 <= i < fs.skip(1).len() ==> #[trigger] fs.skip(1)[i].0 != k);
        lemma_lookup_absent(fs.skip(1), k);
    }
}

/// When the first `i` fields are not named `k`, the lookup continues in the
/// rest.
pub proof fn lemma_lookup_skip(fs: FieldsV, k: Seq<char>, i: int)
    requires
        0 <= i <= fs.len(),
        forall|j: int| 0 <= j < i ==> #[trigger] fs[j].0 != k,
    ensures
        lookup(fs, k) == lookup(fs.skip(i), k),
    decreases i,
{
    if i > 0 {
        assert(fs[0].0 != k);
        assert(forall|j: int| 0 <= j < i - 1 ==> #[trigger] fs.skip(1)[j].0 != k);
        lemma_lookup_skip(fs.skip(1), k, i - 1);
        assert(fs.skip(1).skip(i - 1) =~= fs.skip(i));
    } else {
        assert(fs.skip(0) =~= fs);
    }
}

/// One structured log event: ordered fields plus its finalizer set.
pub struct LogEvent {
    fields: Vec<(String, Value)>,
    finalizers: EventFinalizers,
}

impl View for LogEvent {
    type V = FieldsV;

    closed spec fn view(&self) -> FieldsV {
        self.fields@.map_values(|p: (String, Value)| (p.0@, p.1@))
    }
}

impl LogEvent {
    /// The finalizer set, as the sequence of handle identities.
    pub closed spec fn spec_finalizers(&self) -> Seq<u64> {
        self.finalizers@
    }

    /// A fresh event with no fields and no finalizers.
    pub fn new() -> (r: Self)
        ensures
            r@ == Seq::<(Seq<char>, ValueV)>::empty(),
            r.spec_finalizers() == Seq::<u64>::empty(),
    {
        let r = LogEvent { fields: Vec::new(), finalizers: EventFinalizers::empty() };
        proof {
            assert(r@ =~= Seq::<(Seq<char>, ValueV)>::empty());
        }
        r
    }

    /// Attaches one finalizer handle.
    pub fn add_finalizer(&mut self, id: u64)
        ensures
            final(self)@ == old(self)@,
            final(self).spec_finalizers() == old(self).spec_finalizers().push(id),
    {
        self.finalizers.add(id);
    }

    /// Detaches the finalizer set, leaving the event with none.
    pub fn take_finalizers(&mut self) -> (r: EventFinalizers)
        ensures
            r@ == old(self).spec_finalizers(),
            final(self)@ == old(self)@,
            final(self).spec_finalizers() == Seq::<u64>::empty(),
    {
        self.finalizers.take()
    }

    pub fn len(&self) -> (r: usize)
        ensures
            r == self@.len(),
    {
        self.fields.len()
    }

    /// The field at one position.
    pub fn field_at(&self, i: usize) -> (r: &(String, Value))
        requires
            i < self@.len(),
        ensures
            (r.0@, r.1@) == self@[i as int],
    {
        &self.fields[i]
    }

    /// The value of the first field named `key`, if any.
    pub fn get(&self, key: &str) -> (r: Option<&Value>)
        ensures
            match r {
                Some(v) => lookup(self@, key@) == Some(v@),
                None => lookup(self@, key@) is None,
            },
    {
        let n = self.fields.len();
        let mut i: usize = 0;
        while i < n
            invariant
                n == self.fields.len(),
                i <= n,
                forall|j: int| 0 <= j < i ==> #[trigger] self@[j].0 != key@,
            decreases n - i,
        {
            let p = &self.fields[i];
            if str_eq(p.0.as_str(), key) {
                proof {
                    lemma_lookup_skip(self@, key@, i as int);
                    assert(lookup(self@.skip(i as int), key@) == Some(self@[i as int].1));
                }
                return Some(&p.1);
            }
            i += 1;
        }
        proof {
            lemma_lookup_absent(self@, key@);
        }
        None
    }

    /// Replaces the first field named `key`, or appends one.
    pub fn insert(&mut self, key: &str, value: Value)
        ensures
            final(self)@ == insert_key(old(self)@, key@, value@),
            final(self).spec_finalizers() == old(self).spec_finalizers(),
    {
        let key_string = <String as vstd::string::StringExecFns>::from_str(key);
        let n = self.fields.len();
        let mut i: usize = 0;
        while i < n
            invariant
                n == self.fields.len(),
                i <= n,
                key_string@ == key@,
                self@ == old(self)@,
                self.spec_finalizers() == old(self).spec_finalizers(),
                forall|j: int| 0 <= j < i ==> #[trigger] self@[j].0 != key@,
            decreases n - i,
        {
            if str_eq(self.fields[i].0.as_str(), key) {
                let ghost before = self@;
                self.fields.remove(i);
                self.fields.insert(i, (key_string, value));
                proof {
                    lemma_insert_key_update(before, key@, value@, i as int);
                    assert(self@ =~= before.update(i as int, (key@, value@)));
                }
                return;
            }
            i += 1;
        }
        let ghost before = self@;
        self.fields.push((key_string, value));
        proof {
            lemma_insert_key_append(before, key@, value@);
            assert(self@ =~= before.push((key@, value@)));
        }
    }

    /// Removes every field named `key`.
    pub fn remove(&mut self, key: &str)
        ensures
            final(self)@ == remove_key(old(self)@, key@),
            final(self).spec_finalizers() == old(self).spec_finalizers(),
    {
        let ghost fs0 = self@;
        let mut stack: Vec<(String, Value)> = Vec::new();
        proof {
            assert(stack@.map_values(|p: (String, Value)| (p.0@, p.1@)).reverse()
                =~= Seq::<(Seq<char>, ValueV)>::empty());
            assert(fs0 =~= self@ + stack@.map_values(|p: (String, Value)| (p.0@, p.1@)).reverse());
        }
        while self.fields.len() > 0
            invariant
                fs0 == self@ + stack@.map_values(|p: (String, Value)| (p.0@, p.1@)).reverse(),
                self.spec_finalizers() == old(self).spec_finalizers(),
            decreases self.fields.len(),
        {
            let ghost selfv = self@;
            let p = self.fields.pop().unwrap();
            stack.push(p);
            proof {
                let sv = stack@.map_values(|q: (String, Value)| (q.0@, q.1@));
                assert(self@ =~= selfv.drop_last());
                assert(sv.reverse() =~= seq![(p.0@, p.1@)] + sv.drop_last().reverse());
                assert(fs0 =~= self@ + sv.reverse());
            }
        }
        proof {
            assert(self@ =~= Seq::<(Seq<char>, ValueV)>::empty());
        }
        while stack.len() > 0
            invariant
                remove_key(fs0, key@) == self@ + remove_key(
                    stack@.map_values(|p: (String, Value)| (p.0@, p.1@)).reverse(),
                    key@,
                ),
                self.spec_finalizers() == old(self).spec_finalizers(),
            decreases stack.len(),
        {
            let ghost sv = stack@.map_values(|p: (String, Value)| (p.0@, p.1@));
            let p = stack.pop().unwrap();
            let ghost sv2 = stack@.map_values(|q: (String, Value)| (q.0@, q.1@));
            proof {
                assert(sv2 =~= sv.drop_last());
                assert(sv.reverse() =~= seq![(p.0@, p.1@)] + sv2.reverse());
                lemma_remove_key_cons((p.0@, p.1@), sv2.reverse(), key@);
            }
            if str_eq(p.0.as_str(), key) {
                proof {
                    assert(remove_key(fs0, key@) =~= self@ + remove_key(sv2.reverse(), key@));
                }
            } else {
                let ghost before = self@;
                self.fields.push(p);
                proof {
                    assert(self@ =~= before.push((p.0@, p.1@)));
                    assert(remove_key(sv.reverse(), key@)
                        =~= seq![(p.0@, p.1@)] + remove_key(sv2.reverse(), key@));
                    assert(remove_key(fs0, key@) =~= self@ + remove_key(sv2.reverse(), key@));
                }
            }
        }
        proof {
            assert(stack@.map_values(|p: (String, Value)| (p.0@, p.1@)).reverse()
                =~= Seq::<(Seq<char>, ValueV)>::empty());
            assert(self@ =~= remove_key(fs0, key@));
        }
    }
}

/// `remove_key` over a sequence with a first element: the head is kept or
/// dropped, the tail is filtered the same way.
proof fn lemma_remove_key_cons(x: (Seq<char>, ValueV), rest: FieldsV, k: Seq<char>)
    ensures
        remove_key(seq![x] + rest, k) == if x.0 == k {
            remove_key(rest, k)
        } else {
            seq![x] + remove_key(rest, k)
        },
    decreases rest.len(),
{
    let whole = seq![x] + rest;
    if rest.len() == 0 {
        assert(whole.len() == 1);
        assert(whole.last() == x);
        assert(whole.drop_last() =~= Seq::<(Seq<char>, ValueV)>::empty());
        if x.0 != k {
            assert(seq![x] + remove_key(rest, k) =~= remove_key(whole.drop_last(), k).push(x));
        }
    } else {
        assert(whole.last() == rest.last());
        assert(whole.drop_last() =~= seq![x] + rest.drop_last());
        lemma_remove_key_cons(x, rest.drop_last(), k);
        if rest.last().0 == k {
            assert(remove_key(whole, k) == remove_key(whole.drop_last(), k));
        } else {
            if x.0 != k {
                assert(seq![x] + remove_key(rest, k)
                    =~= (seq![x] + remove_key(rest.drop_last(), k)).push(rest.last()));
            }
        }
    }
}

/// Replacing the first occurrence of `k`, found at index `i`, is the in-place
/// update of that index.
proof fn lemma_insert_key_update(fs: FieldsV, k: Seq<char>, v: ValueV, i: int)
    requires
        0 <= i < fs.len(),
        fs[i].0 == k,
        forall|j: int| 0 <= j < i ==> #[trigger] fs[j].0 != k,
    ensures
        insert_key(fs, k, v) == fs.update(i, (k, v)),
    decreases i,
{
    if i == 0 {
        assert(insert_key(fs, k, v) == seq![(k, v)] + fs.skip(1));
        assert(seq![(k, v)] + fs.skip(1) =~= fs.update(0, (k, v)));
    } else {
        assert(fs[0].0 != k);
        assert(forall|j: int| 0 <= j < i - 1 ==> #[trigger] fs.skip(1)[j].0 != k);
        lemma_insert_key_update(fs.skip(1), k, v, i - 1);
        assert(seq![fs[0]] + fs.skip(1).update(i - 1, (k, v)) =~= fs.update(i, (k, v)));
    }
}

/// When no field is named `k`, inserting appends the pair.
proof fn lemma_insert_key_append(fs: FieldsV, k: Seq<char>, v: ValueV)
    requires
        forall|j: int| 0 <= j < fs.len() ==> #[trigger] fs[j].0 != k,
    ensures
        insert_key(fs, k, v) == fs.push((k, v)),
    decreases fs.len(),
{
    if fs.len() == 0 {
        assert(insert_key(fs, k, v) =~= fs.push((k, v)));
    } else {
        assert(fs[0].0 != k);
        assert(forall|j: int| 0 <= j < fs.skip(1).len() ==> #[trigger] fs.skip(1)[j].0 != k);
        lemma_insert_key_append(fs.skip(1), k, v);
        assert(seq![fs[0]] + fs.skip(1).push((k, v)) =~= fs.push((k, v)));
    }
}

} // verus!
