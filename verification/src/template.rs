//! Label and tenant templates: a template is either fixed text or a
//! reference to one event field, written `{{ name }}`.
use vstd::prelude::*;
use vstd::string::StrSliceExecFns;
use crate::event::{FieldsV, LogEvent, Value, ValueV, lookup};
use crate::text::dec_str_of;

verus! {

/// A template: fixed text, or the value of one event field.
pub enum Template {
    Literal(String),
    Field(String),
}

/// The mathematical form of a `Template`.
pub enum TemplateV {
    Literal(Seq<char>),
    Field(Seq<char>),
}

impl View for Template {
    type V = TemplateV;

    open spec fn view(&self) -> TemplateV {
        match self {
            Template::Literal(s) => TemplateV::Literal(s@),
            Template::Field(s) => TemplateV::Field(s@),
        }
    }
}

impl Clone for Template {
    fn clone(&self) -> (r: Self)
        ensures
            r@ == self@,
    {
        match self {
            Template::Literal(s) => Template::Literal(s.clone()),
            Template::Field(s) => Template::Field(s.clone()),
        }
    }
}

/// Rendering failed: the referenced field is absent from the event.
pub struct RenderError {
    pub field: String,
}

/// The sequence with leading spaces removed.
pub open spec fn trim_front(s: Seq<char>) -> Seq<char>
    decreases s.len(),
{
    if s.len() > 0 && s[0] == ' ' {
        trim_front(s.skip(1))
    } else {
        s
    }
}

/// The sequence with trailing spaces removed.
pub open spec fn trim_back(s: Seq<char>) -> Seq<char>
    decreases s.len(),
{
    if s.len() > 0 && s.last() == ' ' {
        trim_back(s.drop_last())
    } else {
        s
    }
}

/// The sequence with spaces removed from both ends.
pub open spec fn trim_spaces(s: Seq<char>) -> Seq<char> {
    trim_back(trim_front(s))
}

/// No brace anywhere in the sequence.
pub open spec fn brace_free(s: Seq<char>) -> bool {
    forall|i: int| 0 <= i < s.len() ==> s[i] != '{' && s[i] != '}'
}

/// What a template source means: `{{ name }}` — one brace-free name, with
/// the surrounding spaces ignored — is a field reference; anything else is
/// fixed text.
pub open spec fn parse_spec(s: Seq<char>) -> TemplateV {
    if s.len() >= 4 && s[0] == '{' && s[1] == '{' && s[s.len() - 1] == '}' && s[s.len() - 2]
        == '}' && brace_free(s.subrange(2, s.len() - 2)) {
        TemplateV::Field(trim_spaces(s.subrange(2, s.len() - 2)))
    } else {
        TemplateV::Literal(s)
    }
}

/// What a template renders to against the given fields: fixed text renders
/// to itself; a field reference renders to the field's text, or to the
/// decimal form of its timestamp, and fails when the field is absent.
pub open spec fn render_spec(t: TemplateV, fields: FieldsV) -> Option<Seq<char>> {
    match t {
        TemplateV::Literal(s) => Some(s),
        TemplateV::Field(f) => match lookup(fields, f) {
            Some(ValueV::Text(s)) => Some(s),
            Some(ValueV::Timestamp(n)) => Some(dec_str_of(n as int)),
            None => None,
        },
    }
}

/// The names of the fields the template reads.
pub open spec fn spec_fields_of(t: TemplateV) -> Seq<Seq<char>> {
    match t {
        TemplateV::Literal(_) => Seq::empty(),
        TemplateV::Field(f) => seq![f],
    }
}

proof fn lemma_trim_front_skip(s: Seq<char>, i: int)
    requires
        0 <= i <= s.len(),
        forall|j: int| 0 <= j < i ==> s[j] == ' ',
        i < s.len() ==> s[i] != ' ',
    ensures
        trim_front(s) == s.skip(i),
    decreases i,
{
    if i == 0 {
        assert(s.skip(0) =~= s);
    } else {
        assert(s[0] == ' ');
        assert(forall|j: int| 0 <= j < i - 1 ==> s.skip(1)[j] == ' ');
        lemma_trim_front_skip(s.skip(1), i - 1);
        assert(s.skip(1).skip(i - 1) =~= s.skip(i));
    }
}

proof fn lemma_trim_back_take(s: Seq<char>, j: int)
    requires
        0 <= j <= s.len(),
        forall|l: int| j <= l < s.len() ==> s[l] == ' ',
        j > 0 ==> s[j - 1] != ' ',
    ensures
        trim_back(s) == s.take(j),
    decreases s.len() - j,
{
    if j == s.len() {
        assert(s.take(j) =~= s);
    } else {
        assert(s.last() == ' ');
        assert(forall|l: int| j <= l < s.drop_last().len() ==> s.drop_last()[l] == ' ');
        lemma_trim_back_take(s.drop_last(), j);
        assert(s.drop_last().take(j) =~= s.take(j));
    }
}

impl Template {
    /// Reads a template from its source text.
    pub fn parse(source: &str) -> (r: Template)
        ensures
            r@ == parse_spec(source@),
    {
        let n = source.unicode_len();
        if n >= 4 && source.get_char(0) == '{' && source.get_char(1) == '{' && source.get_char(
            n - 1,
        ) == '}' && source.get_char(n - 2) == '}' {
            let inner = source.substring_char(2, n - 2);
            let m = inner.unicode_len();
            let mut b: usize = 0;
            while b < m && inner.get_char(b) != '{' && inner.get_char(b) != '}'
                invariant
                    m == inner@.len(),
                    b <= m,
                    forall|j: int| 0 <= j < b ==> inner@[j] != '{' && inner@[j] != '}',
                decreases m - b,
            {
                b += 1;
            }
            if b < m {
                proof {
                    assert(inner@ =~= source@.subrange(2, source@.len() - 2));
                    assert(!brace_free(inner@));
                }
                return Template::Literal(<String as vstd::string::StringExecFns>::from_str(source));
            }
            proof {
                assert(inner@ =~= source@.subrange(2, source@.len() - 2));
                assert(brace_free(inner@));
            }
            let mut i: usize = 0;
            while i < m && inner.get_char(i) == ' '
                invariant
                    m == inner@.len(),
                    i <= m,
                    forall|j: int| 0 <= j < i ==> inner@[j] == ' ',
                decreases m - i,
            {
                i += 1;
            }
            let mut j: usize = m;
            while j > i && inner.get_char(j - 1) == ' '
                invariant
                    m == inner@.len(),
                    i <= j <= m,
                    forall|l: int| j <= l < m ==> inner@[l] == ' ',
                decreases j,
            {
                j -= 1;
            }
            let name = inner.substring_char(i, j);
            proof {
                lemma_trim_front_skip(inner@, i as int);
                if j == i {
                    lemma_trim_back_take(inner@.skip(i as int), 0);
                } else {
                    lemma_trim_back_take(inner@.skip(i as int), j - i);
                }
                assert(inner@.skip(i as int).take(j - i) =~= inner@.subrange(i as int, j as int));
                assert(inner@ =~= source@.subrange(2, source@.len() - 2));
            }
            Template::Field(<String as vstd::string::StringExecFns>::from_str(name))
        } else {
            Template::Literal(<String as vstd::string::StringExecFns>::from_str(source))
        }
    }

    /// Renders the template against an event's fields.
    pub fn render(&self, event: &LogEvent) -> (r: Result<String, RenderError>)
        ensures
            match r {
                Ok(s) => render_spec(self@, event@) == Some(s@),
                Err(_) => render_spec(self@, event@) is None,
            },
    {
        match self {
            Template::Literal(s) => Ok(s.clone()),
            Template::Field(f) => match event.get(f.as_str()) {
                Some(Value::Text(s)) => Ok(s.clone()),
                Some(Value::Timestamp(n)) => Ok(crate::text::fmt_i64(*n)),
                None => Err(RenderError { field: f.clone() }),
            },
        }
    }

    /// The names of the fields the template reads.
    pub fn get_fields(&self) -> (r: Vec<String>)
        ensures
            r@.map_values(|s: String| s@) == spec_fields_of(self@),
    {
        let mut out: Vec<String> = Vec::new();
        match self {
            Template::Literal(_) => {
                proof {
                    assert(out@.map_values(|s: String| s@) =~= spec_fields_of(self@));
                }
            },
            Template::Field(f) => {
                out.push(f.clone());
                proof {
                    assert(out@.map_values(|s: String| s@) =~= spec_fields_of(self@));
                }
            },
        }
        out
    }
}

} // verus!
