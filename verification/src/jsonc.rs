//! Settings-style JSON documents: a document is an object, and an empty
//! document stands for the empty object.

use vstd::prelude::*;

use crate::json::{json_fields_view, Json, JsonValue};

verus! {

/// The fields of a settings document: an object's fields, nothing for `null`
/// (the value of an empty or missing file), and `None` for anything else.
pub open spec fn object_or_empty_spec(v: Json) -> Option<Seq<(Seq<char>, Json)>> {
    match v {
        Json::Object(fields) => Some(fields),
        Json::Null => Some(Seq::empty()),
        _ => None,
    }
}

/// The fields of a parsed settings document; `None` when it is not a JSON
/// object (nor `null`, which stands for an empty document).
pub fn object_or_empty(value: JsonValue) -> (r: Option<Vec<(String, JsonValue)>>)
    ensures
        match r {
            Some(fields) => object_or_empty_spec(value@) == Some(json_fields_view(fields@)),
            None => object_or_empty_spec(value@) is None,
        },
{
    match value {
        JsonValue::Object(fields) => Some(fields),
        JsonValue::Null => {
            let fields: Vec<(String, JsonValue)> = Vec::new();
            assert(json_fields_view(fields@) == Seq::<(Seq<char>, Json)>::empty());
            Some(fields)
        },
        _ => None,
    }
}

} // verus!
