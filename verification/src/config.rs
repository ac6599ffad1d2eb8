//! Configuration documents: JSON and TOML values as the library reads and
//! changes them. Parsing text into a document and rendering a document as
//! text are the outside crates' work; finding, replacing and adding members
//! is the library's.

use vstd::prelude::*;

use crate::text::str_eq;

verus! {

#[verifier::external_type_specification]
#[verifier::external_body]
pub struct ExJsonValue(serde_json::Value);

#[verifier::external_type_specification]
#[verifier::external_body]
pub struct ExJsonNumber(serde_json::Number);

#[verifier::external_type_specification]
#[verifier::external_body]
pub struct ExTomlValue(toml::Value);

/// A JSON value. Numbers are carried as they were read; an object keeps its
/// members in a list.
pub enum Json {
    Null,
    Bool(bool),
    Number(serde_json::Number),
    Str(String),
    Array(Vec<Json>),
    Object(Vec<(String, Json)>),
}

/// A TOML value: strings, arrays and tables are read; every other value is
/// carried as it was read.
pub enum Toml {
    Str(String),
    Array(Vec<Toml>),
    Table(Vec<(String, Toml)>),
    Other(toml::Value),
}

/// No two members of an object share a name, at any depth: what a parsed
/// document holds, and what a written one must hold, since the writer keeps
/// only the last member of a name.
pub open spec fn json_wf(v: Json) -> bool
    decreases v,
{
    match v {
        Json::Array(a) => forall|i: int| 0 <= i < a@.len() ==> json_wf(#[trigger] a@[i]),
        Json::Object(fs) => {
            &&& names_of(fs@).no_duplicates()
            &&& forall|i: int| 0 <= i < fs@.len() ==> json_wf(#[trigger] fs@[i].1)
        },
        _ => true,
    }
}

/// The members of a well-formed object.
pub open spec fn json_members_wf(fs: Seq<(String, Json)>) -> bool {
    &&& names_of(fs).no_duplicates()
    &&& forall|i: int| 0 <= i < fs.len() ==> json_wf(#[trigger] fs[i].1)
}

/// No two members of a table share a name, at any depth.
pub open spec fn toml_wf(v: Toml) -> bool
    decreases v,
{
    match v {
        Toml::Array(a) => forall|i: int| 0 <= i < a@.len() ==> toml_wf(#[trigger] a@[i]),
        Toml::Table(fs) => {
            &&& names_of(fs@).no_duplicates()
            &&& forall|i: int| 0 <= i < fs@.len() ==> toml_wf(#[trigger] fs@[i].1)
        },
        _ => true,
    }
}

/// The members of a well-formed table.
pub open spec fn toml_members_wf(fs: Seq<(String, Toml)>) -> bool {
    &&& names_of(fs).no_duplicates()
    &&& forall|i: int| 0 <= i < fs.len() ==> toml_wf(#[trigger] fs[i].1)
}

/// The JSON document that `text` holds, if it holds one.
pub uninterp spec fn spec_json_parse(text: Seq<char>) -> Option<Json>;

/// The pretty-printed text of a JSON value.
pub uninterp spec fn spec_json_render(v: Json) -> Seq<char>;

/// The TOML table that `text` holds, if it holds one.
pub uninterp spec fn spec_toml_parse(text: Seq<char>) -> Option<Seq<(String, Toml)>>;

/// The pretty-printed text of a TOML table, where it can be rendered.
pub uninterp spec fn spec_toml_render(t: Seq<(String, Toml)>) -> Option<Seq<char>>;

#[verifier::external_body]
fn json_of_value(v: serde_json::Value) -> Json {
    match v {
        serde_json::Value::Null => Json::Null,
        serde_json::Value::Bool(b) => Json::Bool(b),
        serde_json::Value::Number(n) => Json::Number(n),
        serde_json::Value::String(s) => Json::Str(s),
        serde_json::Value::Array(a) => Json::Array(a.into_iter().map(json_of_value).collect()),
        serde_json::Value::Object(m) => Json::Object(m.into_iter().map(|(k, x)| (k, json_of_value(x))).collect()),
    }
}

#[verifier::external_body]
fn value_of_json(v: &Json) -> serde_json::Value {
    match v {
        Json::Null => serde_json::Value::Null,
        Json::Bool(b) => serde_json::Value::Bool(*b),
        Json::Number(n) => serde_json::Value::Number(n.clone()),
        Json::Str(s) => serde_json::Value::String(s.clone()),
        Json::Array(a) => serde_json::Value::Array(a.iter().map(value_of_json).collect()),
        Json::Object(fs) => serde_json::Value::Object(fs.iter().map(|(k, x)| (k.clone(), value_of_json(x))).collect()),
    }
}

/// `serde_json::from_str::<serde_json::Value>`: the document `text` holds,
/// converted value by value.
/// Trusted: the result is named by `spec_json_parse`, a function of the text
/// alone; and no object in it has two members of one name, as each was read
/// into a `serde_json::Map`, whose keys are distinct.
#[verifier::external_body]
pub(crate) fn json_parse(text: &str) -> (r: Option<Json>)
    ensures
        r == spec_json_parse(text@),
        r matches Some(v) ==> json_wf(v),
{
    match serde_json::from_str::<serde_json::Value>(text) {
        Ok(v) => Some(json_of_value(v)),
        Err(_) => None,
    }
}

/// `serde_json::to_string_pretty` on the value converted back; rendering a
/// value cannot fail.
/// Trusted: the result is named by `spec_json_render`, a function of the
/// value alone.
#[verifier::external_body]
pub(crate) fn json_render_pretty(v: &Json) -> (s: String)
    ensures
        s@ == spec_json_render(*v),
{
    serde_json::to_string_pretty(&value_of_json(v)).expect("a JSON value always renders")
}

#[verifier::external_body]
fn toml_of_value(v: toml::Value) -> Toml {
    match v {
        toml::Value::String(s) => Toml::Str(s),
        toml::Value::Array(a) => Toml::Array(a.into_iter().map(toml_of_value).collect()),
        toml::Value::Table(t) => Toml::Table(t.into_iter().map(|(k, x)| (k, toml_of_value(x))).collect()),
        other => Toml::Other(other),
    }
}

#[verifier::external_body]
fn value_of_toml(v: &Toml) -> toml::Value {
    match v {
        Toml::Str(s) => toml::Value::String(s.clone()),
        Toml::Array(a) => toml::Value::Array(a.iter().map(value_of_toml).collect()),
        Toml::Table(fs) => toml::Value::Table(fs.iter().map(|(k, x)| (k.clone(), value_of_toml(x))).collect()),
        Toml::Other(x) => x.clone(),
    }
}

/// `toml::from_str::<toml::Table>`: the table `text` holds, converted value
/// by value.
/// Trusted: the result is named by `spec_toml_parse`, a function of the text
/// alone; and no table in it has two members of one name, as each was read
/// into a `toml::Table`, whose keys are distinct.
#[verifier::external_body]
pub(crate) fn toml_parse(text: &str) -> (r: Option<Vec<(String, Toml)>>)
    ensures
        r matches Some(t) ==> spec_toml_parse(text@) == Some(t@),
        r is None <==> spec_toml_parse(text@) is None,
        r matches Some(t) ==> toml_members_wf(t@),
{
    match toml::from_str::<toml::Table>(text) {
        Ok(t) => Some(t.into_iter().map(|(k, x)| (k, toml_of_value(x))).collect()),
        Err(_) => None,
    }
}

/// `toml::to_string_pretty` on the table converted back; `None` where the
/// crate refuses to render it.
/// Trusted: the result is named by `spec_toml_render`, a function of the
/// table alone.
#[verifier::external_body]
pub(crate) fn toml_render_pretty(t: &Vec<(String, Toml)>) -> (r: Option<String>)
    ensures
        r matches Some(s) ==> spec_toml_render(t@) == Some(s@),
        r is None <==> spec_toml_render(t@) is None,
{
    let table: toml::Table = t.iter().map(|(k, x)| (k.clone(), value_of_toml(x))).collect();
    toml::to_string_pretty(&table).ok()
}

/// The position of the first member named `k`, or -1.
pub open spec fn first_key<V>(fs: Seq<(String, V)>, k: Seq<char>) -> int
    decreases fs.len(),
{
    if fs.len() == 0 {
        -1
    } else if fs[0].0@ == k {
        0
    } else {
        let r = first_key(fs.drop_first(), k);
        if r < 0 {
            -1
        } else {
            r + 1
        }
    }
}

/// The value of the member named `k`, if there is one.
pub open spec fn field<V>(fs: Seq<(String, V)>, k: Seq<char>) -> Option<V> {
    let i = first_key(fs, k);
    if i >= 0 {
        Some(fs[i].1)
    } else {
        None
    }
}

/// The names of the members, in order.
pub open spec fn names_of<V>(fs: Seq<(String, V)>) -> Seq<Seq<char>> {
    fs.map_values(|p: (String, V)| p.0@)
}

/// What `first_key` finds.
pub proof fn lemma_first_key<V>(fs: Seq<(String, V)>, k: Seq<char>)
    ensures
        -1 <= first_key(fs, k) < fs.len(),
        first_key(fs, k) >= 0 ==> fs[first_key(fs, k)].0@ == k,
        forall|j: int| 0 <= j < fs.len() && j < first_key(fs, k) ==> fs[j].0@ != k,
        first_key(fs, k) < 0 ==> forall|j: int| 0 <= j < fs.len() ==> fs[j].0@ != k,
    decreases fs.len(),
{
    if fs.len() > 0 {
        let rest = fs.drop_first();
        lemma_first_key(rest, k);
        assert forall|j: int| 1 <= j < fs.len() implies fs[j] == rest[j - 1] by {}
    }
}

/// Members with the same names in the same order are found at the same
/// positions.
pub proof fn lemma_first_key_same_names<V>(a: Seq<(String, V)>, b: Seq<(String, V)>, k: Seq<char>)
    requires
        a.len() == b.len(),
        forall|j: int| 0 <= j < a.len() ==> #[trigger] a[j].0@ == b[j].0@,
    ensures
        first_key(a, k) == first_key(b, k),
    decreases a.len(),
{
    if a.len() > 0 {
        let (ra, rb) = (a.drop_first(), b.drop_first());
        assert forall|j: int| 0 <= j < ra.len() implies #[trigger] ra[j].0@ == rb[j].0@ by {
            assert(a[j + 1].0@ == b[j + 1].0@);
        }
        lemma_first_key_same_names(ra, rb, k);
        assert(a[0].0@ == b[0].0@);
    }
}

/// Appending a member leaves the other names where they were found.
pub proof fn lemma_first_key_push<V>(fs: Seq<(String, V)>, p: (String, V), k: Seq<char>)
    ensures
        first_key(fs.push(p), k) == if first_key(fs, k) >= 0 {
            first_key(fs, k)
        } else if p.0@ == k {
            fs.len() as int
        } else {
            -1
        },
    decreases fs.len(),
{
    if fs.len() > 0 {
        assert(fs.push(p).drop_first() =~= fs.drop_first().push(p));
        assert(fs.push(p)[0] == fs[0]);
        lemma_first_key_push(fs.drop_first(), p, k);
    } else {
        assert(fs.push(p)[0] == p);
        assert(fs.push(p).drop_first().len() == 0);
        assert(first_key(fs.push(p).drop_first(), k) == -1);
    }
}

/// The position of the first member named `k`.
pub fn find_key<V>(fs: &Vec<(String, V)>, k: &str) -> (r: Option<usize>)
    ensures
        match r {
            Some(i) => i as int == first_key(fs@, k@),
            None => first_key(fs@, k@) < 0,
        },
{
    proof {
        lemma_first_key(fs@, k@);
    }
    let mut i: usize = 0;
    while i < fs.len()
        invariant
            i <= fs@.len(),
            -1 <= first_key(fs@, k@) < fs@.len(),
            first_key(fs@, k@) >= 0 ==> fs@[first_key(fs@, k@)].0@ == k@,
            forall|j: int| 0 <= j < fs@.len() && j < first_key(fs@, k@) ==> fs@[j].0@ != k@,
            first_key(fs@, k@) < 0 ==> forall|j: int| 0 <= j < fs@.len() ==> fs@[j].0@ != k@,
            forall|j: int| 0 <= j < i ==> fs@[j].0@ != k@,
        decreases fs@.len() - i,
    {
        if str_eq(fs[i].0.as_str(), k) {
            return Some(i);
        }
        i = i + 1;
    }
    None
}

/// Takes out the value of the member named `k`, leaving `placeholder` in
/// its place; `None`, and nothing changed, where there is no such member.
pub fn take_field<V>(fs: &mut Vec<(String, V)>, k: &str, placeholder: V) -> (v: Option<V>)
    ensures
        v == field(old(fs)@, k@),
        names_of(final(fs)@) == names_of(old(fs)@),
        forall|k2: Seq<char>| k2 != k@ ==> #[trigger] field(final(fs)@, k2) == field(old(fs)@, k2),
        v is Some ==> field(final(fs)@, k@) == Some(placeholder),
        v is Some ==> final(fs)@ == old(fs)@.update(
            first_key(old(fs)@, k@),
            (old(fs)@[first_key(old(fs)@, k@)].0, placeholder),
        ),
        v is None ==> final(fs)@ == old(fs)@,
        final(fs)@.len() == old(fs)@.len(),
        forall|i: int|
            0 <= i < final(fs)@.len() ==> (#[trigger] final(fs)@[i]).1 == placeholder || final(fs)@[i] == old(fs)@[i],
{
    proof {
        lemma_first_key(fs@, k@);
    }
    match find_key(fs, k) {
        Some(i) => {
            let (key, val) = fs.remove(i);
            fs.insert(i, (key, placeholder));
            proof {
                assert(fs@ =~= old(fs)@.update(i as int, (old(fs)@[i as int].0, placeholder)));
                assert forall|j: int| 0 <= j < fs@.len() implies #[trigger] fs@[j].0@ == old(fs)@[j].0@ by {}
                assert forall|k2: Seq<char>| true implies #[trigger] first_key(fs@, k2) == first_key(old(fs)@, k2) by {
                    lemma_first_key_same_names(fs@, old(fs)@, k2);
                }
                assert(names_of(fs@) =~= names_of(old(fs)@));
                assert forall|k2: Seq<char>| k2 != k@ implies #[trigger] field(fs@, k2) == field(old(fs)@, k2) by {
                    lemma_first_key(old(fs)@, k2);
                    assert(first_key(fs@, k2) == first_key(old(fs)@, k2));
                }
                assert(first_key(fs@, k@) == i);
            }
            Some(val)
        },
        None => None,
    }
}

/// Sets the member named `k` to `v`, in its place where there is one and
/// appended otherwise.
pub fn put_field<V>(fs: &mut Vec<(String, V)>, k: &str, v: V)
    ensures
        field(final(fs)@, k@) == Some(v),
        forall|k2: Seq<char>| k2 != k@ ==> #[trigger] field(final(fs)@, k2) == field(old(fs)@, k2),
        first_key(old(fs)@, k@) >= 0 ==> final(fs)@ == old(fs)@.update(
            first_key(old(fs)@, k@),
            (old(fs)@[first_key(old(fs)@, k@)].0, v),
        ),
        first_key(old(fs)@, k@) < 0 ==> final(fs)@.drop_last() == old(fs)@ && final(fs)@.len() == old(fs)@.len() + 1
            && final(fs)@.last().0@ == k@ && final(fs)@.last().1 == v,
        names_of(old(fs)@).no_duplicates() ==> names_of(final(fs)@).no_duplicates(),
        forall|i: int|
            0 <= i < final(fs)@.len() ==> (#[trigger] final(fs)@[i]).1 == v || (i < old(fs)@.len() && final(fs)@[i]
                == old(fs)@[i]),
{
    proof {
        lemma_first_key(fs@, k@);
    }
    match find_key(fs, k) {
        Some(i) => {
            let (key, _old_val) = fs.remove(i);
            fs.insert(i, (key, v));
            proof {
                assert(fs@ =~= old(fs)@.update(i as int, (old(fs)@[i as int].0, v)));
                assert forall|j: int| 0 <= j < fs@.len() implies #[trigger] fs@[j].0@ == old(fs)@[j].0@ by {}
                assert forall|k2: Seq<char>| k2 != k@ implies #[trigger] field(fs@, k2) == field(old(fs)@, k2) by {
                    lemma_first_key_same_names(fs@, old(fs)@, k2);
                    lemma_first_key(old(fs)@, k2);
                }
                lemma_first_key_same_names(fs@, old(fs)@, k@);
                assert(names_of(fs@) =~= names_of(old(fs)@));
            }
        },
        None => {
            let key = k.to_owned();
            let ghost p = (key, v);
            fs.push((key, v));
            proof {
                assert forall|k2: Seq<char>| true implies #[trigger] first_key(fs@, k2) == if first_key(old(fs)@, k2)
                    >= 0 {
                    first_key(old(fs)@, k2)
                } else if k@ == k2 {
                    old(fs)@.len() as int
                } else {
                    -1
                } by {
                    lemma_first_key_push(old(fs)@, p, k2);
                }
                assert forall|k2: Seq<char>| k2 != k@ implies #[trigger] field(fs@, k2) == field(old(fs)@, k2) by {
                    lemma_first_key(old(fs)@, k2);
                    if first_key(old(fs)@, k2) >= 0 {
                        assert(fs@[first_key(old(fs)@, k2)] == old(fs)@[first_key(old(fs)@, k2)]);
                    }
                }
                assert(fs@[old(fs)@.len() as int] == p);
                assert(fs@.drop_last() =~= old(fs)@);
                assert(names_of(fs@) =~= names_of(old(fs)@).push(k@));
                assert forall|j: int| 0 <= j < old(fs)@.len() implies names_of(old(fs)@)[j] != k@ by {}
            }
        },
    }
}

/// A member of well-formed members is well-formed.
pub proof fn lemma_json_field_wf(fs: Seq<(String, Json)>, k: Seq<char>)
    requires
        json_members_wf(fs),
    ensures
        field(fs, k) matches Some(x) ==> json_wf(x),
{
    lemma_first_key(fs, k);
}

/// Members that are the old ones, with some values replaced by the
/// well-formed `x` and no name repeated, stay well-formed.
pub proof fn lemma_json_members_replaced(old: Seq<(String, Json)>, new: Seq<(String, Json)>, x: Json)
    requires
        json_members_wf(old),
        json_wf(x),
        names_of(old).no_duplicates() ==> names_of(new).no_duplicates(),
        forall|i: int| 0 <= i < new.len() ==> (#[trigger] new[i]).1 == x || (i < old.len() && new[i] == old[i]),
    ensures
        json_members_wf(new),
{
    assert forall|i: int| 0 <= i < new.len() implies json_wf(#[trigger] new[i].1) by {
        if new[i].1 != x {
            assert(json_wf(old[i].1));
        }
    }
}

/// A member of well-formed table members is well-formed.
pub proof fn lemma_toml_field_wf(fs: Seq<(String, Toml)>, k: Seq<char>)
    requires
        toml_members_wf(fs),
    ensures
        field(fs, k) matches Some(x) ==> toml_wf(x),
{
    lemma_first_key(fs, k);
}

/// Table members that are the old ones, with some values replaced by the
/// well-formed `x` and no name repeated, stay well-formed.
pub proof fn lemma_toml_members_replaced(old: Seq<(String, Toml)>, new: Seq<(String, Toml)>, x: Toml)
    requires
        toml_members_wf(old),
        toml_wf(x),
        names_of(old).no_duplicates() ==> names_of(new).no_duplicates(),
        forall|i: int| 0 <= i < new.len() ==> (#[trigger] new[i]).1 == x || (i < old.len() && new[i] == old[i]),
    ensures
        toml_members_wf(new),
{
    assert forall|i: int| 0 <= i < new.len() implies toml_wf(#[trigger] new[i].1) by {
        if new[i].1 != x {
            assert(toml_wf(old[i].1));
        }
    }
}

/// The member `k` of `v`, or null.
pub open spec fn member(v: Json, k: Seq<char>) -> Json {
    match v {
        Json::Object(fs) => match field(fs@, k) {
            Some(x) => x,
            None => Json::Null,
        },
        _ => Json::Null,
    }
}

/// `v` is the string `s`.
pub open spec fn is_str(v: Json, s: Seq<char>) -> bool {
    match v {
        Json::Str(x) => x@ == s,
        _ => false,
    }
}

/// `v` is the list of the strings `items`.
pub open spec fn is_str_list(v: Json, items: Seq<Seq<char>>) -> bool {
    match v {
        Json::Array(a) => a@.len() == items.len() && forall|i: int| 0 <= i < items.len() ==> is_str(#[trigger] a@[i], items[i]),
        _ => false,
    }
}

} // verus!
