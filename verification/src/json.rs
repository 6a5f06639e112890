//! JSON documents as plain data.
//!
//! `JsonValue` holds what a JSON document holds: objects are lists of
//! `(key, value)` fields in document order, and numbers keep their JSON text.
//! When a key occurs more than once in an object, the last occurrence is the
//! one that counts, as when the fields are inserted into a JSON map in order.
//! Its view, `Json`, is the same tree with sequences in place of vectors.

use vstd::prelude::*;

use crate::keymap::Duplicate;

verus! {

/// The mathematical form of a JSON value.
pub enum Json {
    Null,
    Bool(bool),
    Number(Seq<char>),
    Str(Seq<char>),
    Array(Seq<Json>),
    Object(Seq<(Seq<char>, Json)>),
}

/// A JSON value.
#[derive(Debug)]
pub enum JsonValue {
    Null,
    Bool(bool),
    /// A number, as its JSON text (e.g. `1`, `-2.5e3`).
    Number(String),
    String(String),
    Array(Vec<JsonValue>),
    /// Fields in document order.
    Object(Vec<(String, JsonValue)>),
}

/// The views of a sequence of values.
pub open spec fn json_seq_view(vs: Seq<JsonValue>) -> Seq<Json>
    decreases vs,
{
    if vs.len() == 0 {
        Seq::empty()
    } else {
        json_seq_view(vs.drop_last()).push(json_view(vs.last()))
    }
}

/// The views of a sequence of fields.
pub open spec fn json_fields_view(fs: Seq<(String, JsonValue)>) -> Seq<(Seq<char>, Json)>
    decreases fs,
{
    if fs.len() == 0 {
        Seq::empty()
    } else {
        json_fields_view(fs.drop_last()).push((fs.last().0@, json_view(fs.last().1)))
    }
}

/// The view of a value.
pub open spec fn json_view(v: JsonValue) -> Json
    decreases v,
{
    match v {
        JsonValue::Null => Json::Null,
        JsonValue::Bool(b) => Json::Bool(b),
        JsonValue::Number(n) => Json::Number(n@),
        JsonValue::String(s) => Json::Str(s@),
        JsonValue::Array(items) => Json::Array(json_seq_view(items@)),
        JsonValue::Object(fields) => Json::Object(json_fields_view(fields@)),
    }
}

impl View for JsonValue {
    type V = Json;

    open spec fn view(&self) -> Json {
        json_view(*self)
    }
}

/// `json_seq_view` is elementwise.
pub proof fn lemma_seq_view(vs: Seq<JsonValue>)
    ensures
        json_seq_view(vs).len() == vs.len(),
        forall|i: int| 0 <= i < vs.len() ==> #[trigger] json_seq_view(vs)[i] == vs[i]@,
    decreases vs.len(),
{
    if vs.len() > 0 {
        lemma_seq_view(vs.drop_last());
    }
}

/// `json_fields_view` is elementwise.
pub proof fn lemma_fields_view(fs: Seq<(String, JsonValue)>)
    ensures
        json_fields_view(fs).len() == fs.len(),
        forall|i: int|
            0 <= i < fs.len() ==> #[trigger] json_fields_view(fs)[i] == (fs[i].0@, fs[i].1@),
    decreases fs.len(),
{
    if fs.len() > 0 {
        lemma_fields_view(fs.drop_last());
    }
}

// ---------------------------------------------------------------------------
// Field lookup and update on the view
// ---------------------------------------------------------------------------

/// Index of the last field named `key`.
pub open spec fn field_index(fields: Seq<(Seq<char>, Json)>, key: Seq<char>) -> Option<int>
    decreases fields.len(),
{
    if fields.len() == 0 {
        None
    } else if fields.last().0 == key {
        Some(fields.len() - 1)
    } else {
        field_index(fields.drop_last(), key)
    }
}

/// The value of the field named `key` (the last such field).
pub open spec fn field_value(fields: Seq<(Seq<char>, Json)>, key: Seq<char>) -> Option<Json> {
    match field_index(fields, key) {
        Some(i) => Some(fields[i].1),
        None => None,
    }
}

/// `fields` with the field named `key` set to `value` (appended when absent).
pub open spec fn set_field(fields: Seq<(Seq<char>, Json)>, key: Seq<char>, value: Json) -> Seq<
    (Seq<char>, Json),
> {
    match field_index(fields, key) {
        Some(i) => fields.update(i, (key, value)),
        None => fields.push((key, value)),
    }
}

/// `field_index` points at the last field with that name.
pub proof fn lemma_field_index(fields: Seq<(Seq<char>, Json)>, key: Seq<char>)
    ensures
        match field_index(fields, key) {
            Some(i) => 0 <= i < fields.len() && fields[i].0 == key && forall|j: int|
                i < j < fields.len() ==> #[trigger] fields[j].0 != key,
            None => forall|j: int| 0 <= j < fields.len() ==> #[trigger] fields[j].0 != key,
        },
    decreases fields.len(),
{
    if fields.len() > 0 {
        let d = fields.drop_last();
        lemma_field_index(d, key);
        if fields.last().0 != key {
            match field_index(d, key) {
                Some(i) => {
                    assert forall|j: int| i < j < fields.len() implies #[trigger] fields[j].0
                        != key by {
                        if j < d.len() {
                            assert(d[j] == fields[j]);
                        }
                    }
                },
                None => {
                    assert forall|j: int| 0 <= j < fields.len() implies #[trigger] fields[j].0
                        != key by {
                        if j < d.len() {
                            assert(d[j] == fields[j]);
                        }
                    }
                },
            }
        }
    }
}

/// A field index characterised by being the last match.
pub proof fn lemma_field_index_is(fields: Seq<(Seq<char>, Json)>, key: Seq<char>, i: int)
    requires
        0 <= i < fields.len(),
        fields[i].0 == key,
        forall|j: int| i < j < fields.len() ==> #[trigger] fields[j].0 != key,
    ensures
        field_index(fields, key) == Some(i),
    decreases fields.len(),
{
    if i < fields.len() - 1 {
        assert(fields.last().0 != key);
        lemma_field_index_is(fields.drop_last(), key, i);
    }
}

/// No field with that name means no index.
pub proof fn lemma_field_index_none(fields: Seq<(Seq<char>, Json)>, key: Seq<char>)
    requires
        forall|j: int| 0 <= j < fields.len() ==> #[trigger] fields[j].0 != key,
    ensures
        field_index(fields, key) is None,
    decreases fields.len(),
{
    if fields.len() > 0 {
        lemma_field_index_none(fields.drop_last(), key);
    }
}

/// Reading a field back after setting it gives the value set; other fields
/// keep their values.
pub proof fn lemma_set_field(
    fields: Seq<(Seq<char>, Json)>,
    key: Seq<char>,
    value: Json,
    other: Seq<char>,
)
    ensures
        field_value(set_field(fields, key, value), key) == Some(value),
        other != key ==> field_value(set_field(fields, key, value), other) == field_value(
            fields,
            other,
        ),
{
    let t = set_field(fields, key, value);
    lemma_field_index(fields, key);
    lemma_field_index(fields, other);
    match field_index(fields, key) {
        Some(i) => {
            lemma_field_index_is(t, key, i);
            if other != key {
                match field_index(fields, other) {
                    Some(j) => lemma_field_index_is(t, other, j),
                    None => lemma_field_index_none(t, other),
                }
            }
        },
        None => {
            lemma_field_index_is(t, key, fields.len() as int);
            if other != key {
                match field_index(fields, other) {
                    Some(j) => lemma_field_index_is(t, other, j),
                    None => lemma_field_index_none(t, other),
                }
            }
        },
    }
}

impl Json {
    /// The member `key` of an object (as `Value::get` with a string key);
    /// `None` for anything else.
    pub open spec fn get(self, key: Seq<char>) -> Option<Json> {
        match self {
            Json::Object(fields) => field_value(fields, key),
            _ => None,
        }
    }

    /// The text of a string (as `Value::as_str`).
    pub open spec fn as_str(self) -> Option<Seq<char>> {
        match self {
            Json::Str(s) => Some(s),
            _ => None,
        }
    }

    /// The value of a boolean (as `Value::as_bool`).
    pub open spec fn as_bool(self) -> Option<bool> {
        match self {
            Json::Bool(b) => Some(b),
            _ => None,
        }
    }
}

// ---------------------------------------------------------------------------
// Executable operations
// ---------------------------------------------------------------------------

impl JsonValue {
    /// A copy of this value.
    pub fn duplicate(&self) -> (r: JsonValue)
        ensures
            r@ == self@,
        decreases self,
    {
        match self {
            JsonValue::Null => JsonValue::Null,
            JsonValue::Bool(b) => JsonValue::Bool(*b),
            JsonValue::Number(n) => JsonValue::Number(n.clone()),
            JsonValue::String(s) => JsonValue::String(s.clone()),
            JsonValue::Array(items) => {
                let mut out: Vec<JsonValue> = Vec::new();
                proof {
                    assert forall|j: int| 0 <= j < items@.len() implies decreases_to!(*self => #[trigger] items@[j]) by {
                        assert(decreases_to!(*self => self->Array_0));
                        assert(decreases_to!(*items => items@));
                        assert(decreases_to!(items@ => items@[j]));
                    }
                }
                for i in 0..items.len()
                    invariant
                        json_seq_view(out@) == json_seq_view(items@.take(i as int)),
                        forall|j: int| 0 <= j < items@.len() ==> decreases_to!(*self => #[trigger] items@[j]),
                {
                    let item = items[i].duplicate();
                    let ghost before = out@;
                    out.push(item);
                    assert(out@.drop_last() == before);
                    assert(items@.take(i + 1).drop_last() == items@.take(i as int));
                }
                assert(items@.take(items@.len() as int) == items@);
                JsonValue::Array(out)
            },
            JsonValue::Object(fields) => {
                let mut out: Vec<(String, JsonValue)> = Vec::new();
                proof {
                    assert forall|j: int| 0 <= j < fields@.len() implies decreases_to!(*self => #[trigger] fields@[j].1) by {
                        assert(decreases_to!(*self => self->Object_0));
                        assert(decreases_to!(*fields => fields@));
                        assert(decreases_to!(fields@ => fields@[j]));
                        assert(decreases_to!(fields@[j] => fields@[j].1));
                    }
                }
                for i in 0..fields.len()
                    invariant
                        json_fields_view(out@) == json_fields_view(fields@.take(i as int)),
                        forall|j: int| 0 <= j < fields@.len() ==> decreases_to!(*self => #[trigger] fields@[j].1),
                {
                    let value = fields[i].1.duplicate();
                    let key = fields[i].0.clone();
                    let ghost before = out@;
                    out.push((key, value));
                    assert(out@.drop_last() == before);
                    assert(fields@.take(i + 1).drop_last() == fields@.take(i as int));
                }
                assert(fields@.take(fields@.len() as int) == fields@);
                JsonValue::Object(out)
            },
        }
    }

    /// The member `key` of an object; `None` for anything else.
    pub fn get(&self, key: &str) -> (r: Option<&JsonValue>)
        ensures
            r is Some == self@.get(key@) is Some,
            r matches Some(v) ==> self@.get(key@) == Some(v@),
    {
        match self {
            JsonValue::Object(fields) => {
                assert(self@ == Json::Object(json_fields_view(fields@)));
                let k = key.to_owned();
                let ghost fv = json_fields_view(fields@);
                proof {
                    lemma_fields_view(fields@);
                }
                let mut i = fields.len();
                while i > 0
                    invariant
                        i <= fields@.len(),
                        fv == json_fields_view(fields@),
                        self@ == Json::Object(fv),
                        fv.len() == fields@.len(),
                        forall|j: int| 0 <= j < fv.len() ==> #[trigger] fv[j] == (fields@[j].0@, fields@[j].1@),
                        k@ == key@,
                        forall|j: int| i <= j < fv.len() ==> #[trigger] fv[j].0 != key@,
                    decreases i,
                {
                    if fields[i - 1].0 == k {
                        proof {
                            lemma_field_index_is(fv, key@, i - 1);
                        }
                        return Some(&fields[i - 1].1);
                    }
                    i = i - 1;
                }
                proof {
                    lemma_field_index_none(fv, key@);
                }
                None
            },
            _ => None,
        }
    }

    /// The text of a string value.
    pub fn as_str(&self) -> (r: Option<&String>)
        ensures
            r is Some == self@.as_str() is Some,
            r matches Some(s) ==> self@.as_str() == Some(s@),
    {
        match self {
            JsonValue::String(s) => Some(s),
            _ => None,
        }
    }

    /// The value of a boolean.
    pub fn as_bool(&self) -> (r: Option<bool>)
        ensures
            r == self@.as_bool(),
    {
        match self {
            JsonValue::Bool(b) => Some(*b),
            _ => None,
        }
    }
}

/// Sets the field `key` of `fields` to `value` (the last field with that
/// name, or a new field at the end).
pub fn set_field_in(fields: &mut Vec<(String, JsonValue)>, key: &str, value: JsonValue)
    ensures
        json_fields_view(final(fields)@) == set_field(json_fields_view(old(fields)@), key@, value@),
{
    let k = key.to_owned();
    let ghost fv = json_fields_view(fields@);
    proof {
        lemma_fields_view(fields@);
    }
    let mut i = fields.len();
    while i > 0
        invariant
            i <= fields@.len(),
            fields@ == old(fields)@,
            fv == json_fields_view(fields@),
            fv.len() == fields@.len(),
            forall|j: int| 0 <= j < fv.len() ==> #[trigger] fv[j] == (fields@[j].0@, fields@[j].1@),
            k@ == key@,
            forall|j: int| i <= j < fv.len() ==> #[trigger] fv[j].0 != key@,
        decreases i,
    {
        if fields[i - 1].0 == k {
            proof {
                lemma_field_index_is(fv, key@, i - 1);
            }
            fields.set(i - 1, (k, value));
            proof {
                lemma_fields_view(fields@);
                assert(json_fields_view(fields@) =~= fv.update(i - 1, (key@, value@)));
            }
            return;
        }
        i = i - 1;
    }
    proof {
        lemma_field_index_none(fv, key@);
    }
    fields.push((k, value));
    proof {
        lemma_fields_view(fields@);
        assert(json_fields_view(fields@) =~= fv.push((key@, value@)));
    }
}

impl Clone for JsonValue {
    fn clone(&self) -> (r: JsonValue)
        ensures
            r@ == self@,
    {
        self.duplicate()
    }
}

impl Duplicate for JsonValue {
    fn duplicate(&self) -> (r: JsonValue) {
        JsonValue::duplicate(self)
    }
}

/// The position of the field named `key` (the last such field), if any.
pub fn field_position(fields: &Vec<(String, JsonValue)>, key: &str) -> (r: Option<usize>)
    ensures
        match field_index(json_fields_view(fields@), key@) {
            Some(i) => r == Some(i as usize),
            None => r is None,
        },
{
    let k = key.to_owned();
    let ghost fv = json_fields_view(fields@);
    proof {
        lemma_fields_view(fields@);
    }
    let mut i = fields.len();
    while i > 0
        invariant
            i <= fields@.len(),
            fv == json_fields_view(fields@),
            fv.len() == fields@.len(),
            forall|j: int| 0 <= j < fv.len() ==> #[trigger] fv[j] == (fields@[j].0@, fields@[j].1@),
            k@ == key@,
            forall|j: int| i <= j < fv.len() ==> #[trigger] fv[j].0 != key@,
        decreases i,
    {
        if fields[i - 1].0 == k {
            proof {
                lemma_field_index_is(fv, key@, i - 1);
            }
            return Some(i - 1);
        }
        i = i - 1;
    }
    proof {
        lemma_field_index_none(fv, key@);
    }
    None
}

// ---------------------------------------------------------------------------
// Nulls
// ---------------------------------------------------------------------------

/// `v` with every `null` removed: null array items and null object members
/// are dropped, at every depth. (TOML, the config's file format, has no null.)
pub open spec fn without_nulls(v: Json) -> Json
    decreases v,
{
    match v {
        Json::Array(items) => Json::Array(items_without_nulls(items)),
        Json::Object(fields) => Json::Object(fields_without_nulls(fields)),
        _ => v,
    }
}

/// The non-null items of a list, each without nulls.
pub open spec fn items_without_nulls(items: Seq<Json>) -> Seq<Json>
    decreases items,
{
    if items.len() == 0 {
        Seq::empty()
    } else {
        let rest = items_without_nulls(items.drop_last());
        if items.last() is Null {
            rest
        } else {
            rest.push(without_nulls(items.last()))
        }
    }
}

/// The non-null members of an object, each without nulls.
pub open spec fn fields_without_nulls(fields: Seq<(Seq<char>, Json)>) -> Seq<(Seq<char>, Json)>
    decreases fields,
{
    if fields.len() == 0 {
        Seq::empty()
    } else {
        let rest = fields_without_nulls(fields.drop_last());
        if fields.last().1 is Null {
            rest
        } else {
            rest.push((fields.last().0, without_nulls(fields.last().1)))
        }
    }
}

impl JsonValue {
    /// A copy of this value with every `null` removed (see [`without_nulls`]).
    pub fn strip_nulls(&self) -> (r: JsonValue)
        ensures
            r@ == without_nulls(self@),
        decreases self,
    {
        match self {
            JsonValue::Array(items) => {
                let mut out: Vec<JsonValue> = Vec::new();
                proof {
                    assert forall|j: int| 0 <= j < items@.len() implies decreases_to!(*self => #[trigger] items@[j]) by {
                        assert(decreases_to!(*self => self->Array_0));
                        assert(decreases_to!(*items => items@));
                        assert(decreases_to!(items@ => items@[j]));
                    }
                }
                for i in 0..items.len()
                    invariant
                        json_seq_view(out@) == items_without_nulls(
                            json_seq_view(items@.take(i as int)),
                        ),
                        forall|j: int| 0 <= j < items@.len() ==> decreases_to!(*self => #[trigger] items@[j]),
                {
                    assert(items@.take(i + 1).drop_last() == items@.take(i as int));
                    assert(items@.take(i + 1).last() == items@[i as int]);
                    let ghost vs = json_seq_view(items@.take(i + 1));
                    assert(vs.drop_last() == json_seq_view(items@.take(i as int)));
                    assert(vs.last() == items@[i as int]@);
                    let is_null = match &items[i] {
                        JsonValue::Null => true,
                        _ => false,
                    };
                    if !is_null {
                        let item = items[i].strip_nulls();
                        let ghost before = out@;
                        out.push(item);
                        assert(out@.drop_last() == before);
                    }
                }
                assert(items@.take(items@.len() as int) == items@);
                JsonValue::Array(out)
            },
            JsonValue::Object(fields) => {
                let mut out: Vec<(String, JsonValue)> = Vec::new();
                proof {
                    assert forall|j: int| 0 <= j < fields@.len() implies decreases_to!(*self => #[trigger] fields@[j].1) by {
                        assert(decreases_to!(*self => self->Object_0));
                        assert(decreases_to!(*fields => fields@));
                        assert(decreases_to!(fields@ => fields@[j]));
                        assert(decreases_to!(fields@[j] => fields@[j].1));
                    }
                }
                for i in 0..fields.len()
                    invariant
                        json_fields_view(out@) == fields_without_nulls(
                            json_fields_view(fields@.take(i as int)),
                        ),
                        forall|j: int| 0 <= j < fields@.len() ==> decreases_to!(*self => #[trigger] fields@[j].1),
                {
                    assert(fields@.take(i + 1).drop_last() == fields@.take(i as int));
                    assert(fields@.take(i + 1).last() == fields@[i as int]);
                    let ghost fs = json_fields_view(fields@.take(i + 1));
                    assert(fs.drop_last() == json_fields_view(fields@.take(i as int)));
                    assert(fs.last() == (fields@[i as int].0@, fields@[i as int].1@));
                    let is_null = match &fields[i].1 {
                        JsonValue::Null => true,
                        _ => false,
                    };
                    if !is_null {
                        let value = fields[i].1.strip_nulls();
                        let key = fields[i].0.clone();
                        let ghost before = out@;
                        out.push((key, value));
                        assert(out@.drop_last() == before);
                    }
                }
                assert(fields@.take(fields@.len() as int) == fields@);
                JsonValue::Object(out)
            },
            JsonValue::Null => JsonValue::Null,
            JsonValue::Bool(b) => JsonValue::Bool(*b),
            JsonValue::Number(n) => JsonValue::Number(n.clone()),
            JsonValue::String(t) => JsonValue::String(t.clone()),
        }
    }
}

} // verus!
