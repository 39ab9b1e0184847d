//! A TOML document as plain values: what `toml` parses a text into, one
//! value for one value, so that the logic reading it can be verified.
use vstd::prelude::*;

verus! {

#[verifier::external_type_specification]
#[verifier::external_body]
pub struct ExTomlValue(toml::Value);

/// A TOML value. A float keeps no number here: nothing in the tracker reads
/// one.
#[derive(Debug)]
pub enum TomlValue {
    Str(String),
    Int(i64),
    Float,
    Bool(bool),
    Datetime(String),
    Array(Vec<TomlValue>),
    Table(Vec<(String, TomlValue)>),
}

/// A TOML value as text and numbers.
pub enum TomlView {
    Str(Seq<char>),
    Int(i64),
    Float,
    Bool(bool),
    Datetime(Seq<char>),
    Array(Seq<TomlView>),
    Table(Seq<(Seq<char>, TomlView)>),
}

/// The view of a TOML value.
pub open spec fn toml_view(v: TomlValue) -> TomlView
    decreases v, 1nat,
{
    match v {
        TomlValue::Str(s) => TomlView::Str(s@),
        TomlValue::Int(i) => TomlView::Int(i),
        TomlValue::Float => TomlView::Float,
        TomlValue::Bool(b) => TomlView::Bool(b),
        TomlValue::Datetime(d) => TomlView::Datetime(d@),
        TomlValue::Array(a) => TomlView::Array(toml_views(a@)),
        TomlValue::Table(t) => TomlView::Table(toml_entries(t@)),
    }
}

/// The views of an array's items.
pub open spec fn toml_views(a: Seq<TomlValue>) -> Seq<TomlView>
    decreases a, 0nat,
{
    if a.len() == 0 {
        seq![]
    } else {
        toml_views(a.drop_last()).push(toml_view(a.last()))
    }
}

/// The views of a table's entries.
pub open spec fn toml_entries(t: Seq<(String, TomlValue)>) -> Seq<(Seq<char>, TomlView)>
    decreases t, 0nat,
{
    if t.len() == 0 {
        seq![]
    } else {
        toml_entries(t.drop_last()).push((t.last().0@, toml_view(t.last().1)))
    }
}

/// What `str::parse::<toml::Value>` makes of a text: the document, or the
/// parser's message.
pub uninterp spec fn toml_doc(text: Seq<char>) -> Result<TomlView, Seq<char>>;

/// `str::parse::<toml::Value>` on `text`: the document converted value for
/// value (see [`toml_tree`]), or the parse error's message.
#[verifier::external_body]
pub(crate) fn parse_toml(text: &str) -> (r: Result<TomlValue, String>)
    ensures
        match r {
            Ok(v) => toml_doc(text@) == Ok::<TomlView, Seq<char>>(toml_view(v)),
            Err(e) => toml_doc(text@) == Err::<TomlView, Seq<char>>(e@),
        },
{
    match text.parse::<toml::Value>() {
        Ok(v) => Ok(toml_tree(&v)),
        Err(e) => Err(e.to_string()),
    }
}

/// The conversion [`parse_toml`] puts its result through: each `toml::Value`
/// variant to the one of the same name, tables in their map's key order and
/// a datetime as its TOML text. It cannot be stated over an outside value,
/// so its whole contract is the one on `parse_toml`.
#[verifier::external_body]
fn toml_tree(v: &toml::Value) -> TomlValue {
    match v {
        toml::Value::String(s) => TomlValue::Str(s.clone()),
        toml::Value::Integer(i) => TomlValue::Int(*i),
        toml::Value::Float(_) => TomlValue::Float,
        toml::Value::Boolean(b) => TomlValue::Bool(*b),
        toml::Value::Datetime(d) => TomlValue::Datetime(d.to_string()),
        toml::Value::Array(a) => TomlValue::Array(a.iter().map(toml_tree).collect()),
        toml::Value::Table(t) => TomlValue::Table(t.iter().map(|(k, x)| (k.clone(), toml_tree(x))).collect()),
    }
}

/// The value under `key` in the entries of a table, the first one if any.
pub open spec fn entry_of(t: Seq<(Seq<char>, TomlView)>, key: Seq<char>) -> Option<TomlView>
    decreases t.len(),
{
    if t.len() == 0 {
        None
    } else if t[0].0 == key {
        Some(t[0].1)
    } else {
        entry_of(t.drop_first(), key)
    }
}

/// `toml::Value::get` with a string key: the entry of a table, else nothing.
pub open spec fn get_view(v: TomlView, key: Seq<char>) -> Option<TomlView> {
    match v {
        TomlView::Table(t) => entry_of(t, key),
        _ => None,
    }
}

/// The value under `key` if `v` is a table holding it.
pub fn toml_get<'a>(v: &'a TomlValue, key: &str) -> (r: Option<&'a TomlValue>)
    ensures
        match r {
            Some(x) => get_view(toml_view(*v), key@) == Some(toml_view(*x)),
            None => get_view(toml_view(*v), key@) is None,
        },
{
    match v {
        TomlValue::Table(t) => {
            let ghost tv = toml_entries(t@);
            let mut i: usize = 0;
            proof {
                lemma_entries(t@);
                assert(tv.skip(0) =~= tv);
                assert(toml_view(*v) == TomlView::Table(tv));
            }
            while i < t.len()
                invariant
                    i <= t.len(),
                    tv == toml_entries(t@),
                    toml_view(*v) == TomlView::Table(tv),
                    tv.len() == t@.len(),
                    forall|j: int| 0 <= j < t@.len() ==> #[trigger] tv[j] == (t@[j].0@, toml_view(t@[j].1)),
                    entry_of(tv, key@) == entry_of(tv.skip(i as int), key@),
                decreases t.len() - i,
            {
                assert(tv.skip(i as int).drop_first() =~= tv.skip(i + 1));
                if crate::text::str_eq(t[i].0.as_str(), key) {
                    assert(tv.skip(i as int)[0] == tv[i as int]);
                    assert(tv[i as int] == (t@[i as int].0@, toml_view(t@[i as int].1)));
                    assert(t@[i as int].0@ == key@);
                    assert(entry_of(tv.skip(i as int), key@) == Some(toml_view(t@[i as int].1)));
                    assert(toml_view(*v) == TomlView::Table(tv));
                    return Some(&t[i].1);
                }
                i = i + 1;
            }
            None
        },
        _ => None,
    }
}

pub proof fn lemma_entries(t: Seq<(String, TomlValue)>)
    ensures
        toml_entries(t).len() == t.len(),
        forall|j: int| 0 <= j < t.len() ==> #[trigger] toml_entries(t)[j] == (t[j].0@, toml_view(t[j].1)),
    decreases t.len(),
{
    if t.len() > 0 {
        lemma_entries(t.drop_last());
        assert forall|j: int| 0 <= j < t.len() implies #[trigger] toml_entries(t)[j] == (t[j].0@, toml_view(t[j].1)) by {
            if j < t.len() - 1 {
                assert(t.drop_last()[j] == t[j]);
            }
        }
    }
}

} // verus!
