//! Per-profile extension membership, as recorded in `extensions.json`.
//!
//! An `extensions.json` file is a JSON array of entries; each entry names its
//! extension under `identifier.id`, its version under `version`, and carries
//! `metadata` (`pinned`, `source`) and a `relativeLocation` in the shared pool.
//! Membership is read from these entries; adding prefers the shared pool's
//! catalog entry, then a vendored copy; removal edits only the membership list.
//! Reading and writing the files is left to the caller.

use vstd::prelude::*;

use crate::config::{normalize_id, normalized_id};
use crate::json::{
    field_index, field_position, field_value, json_fields_view, json_seq_view, lemma_fields_view,
    lemma_seq_view, set_field, set_field_in, Json, JsonValue,
};
use crate::keymap::{Duplicate, StrMap, StrSet};
use crate::text::{
    ascii_lowercase, chars_of, contains, has_prefix, has_substring, lines, lines_spec,
    opt_str_view, opt_string_view, starts_with, string_of, to_ascii_lowercase, trim, trimmed, views,
};

verus! {

// ---------------------------------------------------------------------------
// Reading entries
// ---------------------------------------------------------------------------

/// The `id` of an entry's `identifier`: an object whose `id` is a string, or
/// a one-element array holding that string (the shapes a `{ id: String }`
/// record is read from).
pub open spec fn identifier_id(v: Json) -> Option<Seq<char>> {
    match v {
        Json::Object(fields) => match field_value(fields, "id"@) {
            Some(Json::Str(s)) => Some(s),
            _ => None,
        },
        Json::Array(items) => if items.len() == 1 {
            match items[0] {
                Json::Str(s) => Some(s),
                _ => None,
            }
        } else {
            None
        },
        _ => None,
    }
}

/// The raw extension id of an entry: `identifier.id` of an object entry, or
/// of the single element of a one-element array entry.
pub open spec fn raw_entry_id(v: Json) -> Option<Seq<char>> {
    match v {
        Json::Object(fields) => match field_value(fields, "identifier"@) {
            Some(x) => identifier_id(x),
            None => None,
        },
        Json::Array(items) => if items.len() == 1 {
            identifier_id(items[0])
        } else {
            None
        },
        _ => None,
    }
}

/// The normalized id of an `extensions.json` entry.
pub open spec fn entry_id_spec(v: Json) -> Option<Seq<char>> {
    match raw_entry_id(v) {
        Some(raw) => Some(normalized_id(raw)),
        None => None,
    }
}

/// The installed version of an entry (empty when absent or not a string).
pub open spec fn entry_version_spec(v: Json) -> Seq<char> {
    match v.get("version"@) {
        Some(Json::Str(s)) => s,
        _ => Seq::empty(),
    }
}

/// Whether an entry is frozen (`metadata.pinned == true`).
pub open spec fn entry_pinned_spec(v: Json) -> bool {
    match v.get("metadata"@) {
        Some(m) => match m.get("pinned"@) {
            Some(Json::Bool(b)) => b,
            _ => false,
        },
        None => false,
    }
}

/// The `metadata.source` of an entry, when it is a string.
pub open spec fn entry_source_spec(v: Json) -> Option<Seq<char>> {
    match v.get("metadata"@) {
        Some(m) => match m.get("source"@) {
            Some(Json::Str(s)) => Some(s),
            _ => None,
        },
        None => None,
    }
}

/// The `relativeLocation` of an entry, when it is a string.
pub open spec fn relative_location_spec(v: Json) -> Option<Seq<char>> {
    match v.get("relativeLocation"@) {
        Some(Json::Str(s)) => Some(s),
        _ => None,
    }
}

/// An entry with `metadata.pinned` set to `pinned`, creating `metadata` when
/// the entry has none; entries that are not objects, or whose `metadata` is
/// not an object, are left as they are (apart from a created `metadata`).
pub open spec fn with_pinned_spec(v: Json, pinned: bool) -> Json {
    match v {
        Json::Object(fields) => {
            let f1 = if field_value(fields, "metadata"@) is Some {
                fields
            } else {
                fields.push(("metadata"@, Json::Object(Seq::empty())))
            };
            match field_value(f1, "metadata"@) {
                Some(Json::Object(meta)) => Json::Object(
                    set_field(
                        f1,
                        "metadata"@,
                        Json::Object(set_field(meta, "pinned"@, Json::Bool(pinned))),
                    ),
                ),
                _ => Json::Object(f1),
            }
        },
        _ => v,
    }
}

/// The `id` of an entry's `identifier` value.
fn identifier_id_of(v: &JsonValue) -> (r: Option<String>)
    ensures
        opt_string_view(r) == identifier_id(v@),
{
    match v {
        JsonValue::Object(_) => match v.get("id") {
            Some(JsonValue::String(s)) => Some(s.clone()),
            _ => None,
        },
        JsonValue::Array(items) => {
            proof {
                lemma_seq_view(items@);
            }
            if items.len() == 1 {
                match &items[0] {
                    JsonValue::String(s) => Some(s.clone()),
                    _ => None,
                }
            } else {
                None
            }
        },
        _ => None,
    }
}

/// The raw (not normalized) extension id of an entry.
fn raw_entry_id_of(entry: &JsonValue) -> (r: Option<String>)
    ensures
        opt_string_view(r) == raw_entry_id(entry@),
{
    match entry {
        JsonValue::Object(_) => match entry.get("identifier") {
            Some(x) => identifier_id_of(x),
            None => None,
        },
        JsonValue::Array(items) => {
            proof {
                lemma_seq_view(items@);
            }
            if items.len() == 1 {
                identifier_id_of(&items[0])
            } else {
                None
            }
        },
        _ => None,
    }
}

/// The normalized id of an `extensions.json` entry.
pub fn entry_id(entry: &JsonValue) -> (r: Option<String>)
    ensures
        opt_string_view(r) == entry_id_spec(entry@),
{
    match raw_entry_id_of(entry) {
        Some(raw) => Some(normalize_id(raw.as_str())),
        None => None,
    }
}

/// The installed version of an entry (empty when absent).
pub fn entry_version(entry: &JsonValue) -> (r: String)
    ensures
        r@ == entry_version_spec(entry@),
{
    match entry.get("version") {
        Some(JsonValue::String(s)) => s.clone(),
        _ => String::new(),
    }
}

/// Whether an entry is frozen (`metadata.pinned == true`).
pub fn entry_pinned(entry: &JsonValue) -> (r: bool)
    ensures
        r == entry_pinned_spec(entry@),
{
    match entry.get("metadata") {
        Some(m) => match m.get("pinned") {
            Some(JsonValue::Bool(b)) => *b,
            _ => false,
        },
        None => false,
    }
}

/// The `metadata.source` of an entry, when it is a string.
pub fn entry_source(entry: &JsonValue) -> (r: Option<String>)
    ensures
        opt_string_view(r) == entry_source_spec(entry@),
{
    match entry.get("metadata") {
        Some(m) => match m.get("source") {
            Some(JsonValue::String(s)) => Some(s.clone()),
            _ => None,
        },
        None => None,
    }
}

/// The `relativeLocation` of an entry, when it is a string.
pub fn relative_location(entry: &JsonValue) -> (r: Option<String>)
    ensures
        opt_string_view(r) == relative_location_spec(entry@),
{
    match entry.get("relativeLocation") {
        Some(JsonValue::String(s)) => Some(s.clone()),
        _ => None,
    }
}

/// Set `metadata.pinned` on an entry, creating `metadata` if needed.
pub fn set_pinned(entry: &mut JsonValue, pinned: bool)
    ensures
        final(entry)@ == with_pinned_spec(old(entry)@, pinned),
{
    let mut taken = JsonValue::Null;
    std::mem::swap(&mut taken, entry);
    match taken {
        JsonValue::Object(mut fields) => {
            let ghost f0 = json_fields_view(fields@);
            assert(old(entry)@ == Json::Object(f0));
            let ghost s0 = fields@;
            if field_position(&fields, "metadata").is_none() {
                let empty: Vec<(String, JsonValue)> = Vec::new();
                assert(json_fields_view(empty@) == Seq::<(Seq<char>, Json)>::empty());
                fields.push(("metadata".to_owned(), JsonValue::Object(empty)));
                proof {
                    assert(fields@.drop_last() == s0);
                    let last = fields@.last();
                    assert(last.0@ == "metadata"@);
                    assert(last.1@ == Json::Object(Seq::empty()));
                    assert(json_fields_view(fields@) == f0.push(
                        ("metadata"@, Json::Object(Seq::empty())),
                    ));
                }
            }
            let ghost f1 = json_fields_view(fields@);
            let pos = field_position(&fields, "metadata");
            match pos {
                Some(p) => {
                    proof {
                        lemma_fields_view(fields@);
                        crate::json::lemma_field_index(f1, "metadata"@);
                        assert(f1 == json_fields_view(fields@));
                        assert(fields@.len() == fields.len());
                        match field_index(f1, "metadata"@) {
                            Some(i) => {
                                assert(0 <= i < fields@.len());
                                assert(i as usize == p);
                                assert(i == p as int);
                            },
                            None => {},
                        }
                    }
                    let mut pair = (String::new(), JsonValue::Null);
                    fields.set_and_swap(p, &mut pair);
                    let (key, value) = pair;
                    assert(f1[p as int] == (key@, value@));
                    assert(field_index(f1, "metadata"@) == Some(p as int));
                    assert(field_value(f1, "metadata"@) == Some(value@));
                    assert(key@ == "metadata"@);
                    match value {
                        JsonValue::Object(mut meta) => {
                            let ghost m0 = json_fields_view(meta@);
                            set_field_in(&mut meta, "pinned", JsonValue::Bool(pinned));
                            fields.set(p, (key, JsonValue::Object(meta)));
                            proof {
                                lemma_fields_view(fields@);
                                assert(json_fields_view(fields@) =~= f1.update(
                                    p as int,
                                    ("metadata"@, Json::Object(set_field(m0, "pinned"@, Json::Bool(pinned)))),
                                ));
                            }
                        },
                        other => {
                            fields.set(p, (key, other));
                            proof {
                                lemma_fields_view(fields@);
                                assert(json_fields_view(fields@) =~= f1);
                            }
                        },
                    }
                },
                None => {},
            }
            *entry = JsonValue::Object(fields);
        },
        other => {
            *entry = other;
        },
    }
}

// ---------------------------------------------------------------------------
// Membership
// ---------------------------------------------------------------------------

/// An installed extension as recorded in a profile's `extensions.json`.
#[derive(Debug, Clone, PartialEq, Eq)]
pub struct InstalledExt {
    /// The installed version (e.g. `1.31.7`).
    pub version: String,
    /// Whether the editor has the version frozen (`metadata.pinned`).
    pub pinned: bool,
}

/// The contents of an [`InstalledExt`].
pub struct InstalledView {
    pub version: Seq<char>,
    pub pinned: bool,
}

impl View for InstalledExt {
    type V = InstalledView;

    open spec fn view(&self) -> InstalledView {
        InstalledView { version: self.version@, pinned: self.pinned }
    }
}

/// Per-profile membership: normalized id -> installed state.
pub type Membership = StrMap<InstalledExt>;

/// Full pool catalog entries, keyed by normalized extension id.
pub type Catalog = StrMap<JsonValue>;

/// How an extension was added to a profile.
#[derive(Debug, Clone, Copy, PartialEq, Eq)]
pub enum AddMethod {
    /// Copied from the shared pool catalog (already installed on disk).
    Pool,
    /// Restored from a vendored copy in the repo.
    Vendor,
    /// Fetched and installed via the editor CLI.
    Cli,
}

/// The membership recorded by a list of entries: each entry with an id
/// contributes its version and pin state; when an id occurs more than once
/// the first entry wins.
pub open spec fn membership_spec(entries: Seq<Json>) -> Map<Seq<char>, InstalledView>
    decreases entries.len(),
{
    if entries.len() == 0 {
        Map::empty()
    } else {
        let m = membership_spec(entries.drop_last());
        let e = entries.last();
        match entry_id_spec(e) {
            Some(id) => if m.contains_key(id) {
                m
            } else {
                m.insert(
                    id,
                    InstalledView { version: entry_version_spec(e), pinned: entry_pinned_spec(e) },
                )
            },
            None => m,
        }
    }
}

/// The catalog described by a list of pool entries: each entry with an id,
/// keyed by that id; when an id occurs more than once the first entry wins.
pub open spec fn catalog_spec(entries: Seq<Json>) -> Map<Seq<char>, Json>
    decreases entries.len(),
{
    if entries.len() == 0 {
        Map::empty()
    } else {
        let m = catalog_spec(entries.drop_last());
        let e = entries.last();
        match entry_id_spec(e) {
            Some(id) => if m.contains_key(id) {
                m
            } else {
                m.insert(id, e)
            },
            None => m,
        }
    }
}

proof fn lemma_seq_view_take(entries: Seq<JsonValue>, i: int)
    requires
        0 <= i < entries.len(),
    ensures
        json_seq_view(entries.take(i + 1)) == json_seq_view(entries.take(i)).push(entries[i]@),
{
    assert(entries.take(i + 1).drop_last() == entries.take(i));
}

/// Read installed extensions (normalized id -> state) from the entries of an
/// `extensions.json` file.
pub fn read_membership_file(entries: &[JsonValue]) -> (r: Membership)
    ensures
        r@ == membership_spec(json_seq_view(entries@)),
{
    let mut out: Membership = StrMap::new();
    assert(json_seq_view(entries@.take(0)) == Seq::<Json>::empty());
    for i in 0..entries.len()
        invariant
            out@ == membership_spec(json_seq_view(entries@.take(i as int))),
    {
        proof {
            lemma_seq_view_take(entries@, i as int);
            assert(json_seq_view(entries@.take(i + 1)).drop_last() == json_seq_view(
                entries@.take(i as int),
            ));
        }
        match entry_id(&entries[i]) {
            Some(id) => {
                if !out.contains_key(id.as_str()) {
                    let version = entry_version(&entries[i]);
                    let pinned = entry_pinned(&entries[i]);
                    out.insert(id, InstalledExt { version, pinned });
                }
            },
            None => {},
        }
    }
    assert(entries@.take(entries@.len() as int) == entries@);
    out
}

/// The shared extensions pool catalog (full entries with metadata/location)
/// described by the pool's `extensions.json` entries.
pub fn pool_catalog(entries: &[JsonValue]) -> (r: Catalog)
    ensures
        r@ == catalog_spec(json_seq_view(entries@)),
{
    let mut out: Catalog = StrMap::new();
    assert(json_seq_view(entries@.take(0)) == Seq::<Json>::empty());
    for i in 0..entries.len()
        invariant
            out@ == catalog_spec(json_seq_view(entries@.take(i as int))),
    {
        proof {
            lemma_seq_view_take(entries@, i as int);
            assert(json_seq_view(entries@.take(i + 1)).drop_last() == json_seq_view(
                entries@.take(i as int),
            ));
        }
        match entry_id(&entries[i]) {
            Some(id) => {
                if !out.contains_key(id.as_str()) {
                    out.insert(id, entries[i].duplicate());
                }
            },
            None => {},
        }
    }
    assert(entries@.take(entries@.len() as int) == entries@);
    out
}

/// The entry belongs to extension `id` (compared with its normalized id).
pub open spec fn is_member(e: Json, id: Seq<char>) -> bool {
    entry_id_spec(e) == Some(id)
}

/// Whether the entry belongs to extension `id`.
fn entry_is(entry: &JsonValue, id: &str) -> (r: bool)
    ensures
        r == is_member(entry@, id@),
{
    match entry_id(entry) {
        Some(e) => e == id.to_owned(),
        None => false,
    }
}

/// The entries that do not belong to extension `id`, in order.
pub open spec fn without_member(entries: Seq<Json>, id: Seq<char>) -> Seq<Json> {
    entries.filter(|e: Json| !is_member(e, id))
}

/// Copies of the entries that do not belong to `id`.
fn entries_without(entries: &Vec<JsonValue>, id: &str) -> (r: Vec<JsonValue>)
    ensures
        json_seq_view(r@) == without_member(json_seq_view(entries@), id@),
{
    let mut kept: Vec<JsonValue> = Vec::new();
    assert(json_seq_view(entries@.take(0)) == Seq::<Json>::empty());
    reveal(Seq::filter);
    for i in 0..entries.len()
        invariant
            json_seq_view(kept@) == without_member(json_seq_view(entries@.take(i as int)), id@),
    {
        proof {
            lemma_seq_view_take(entries@, i as int);
            json_seq_view(entries@.take(i as int)).lemma_filter_push(
                entries@[i as int]@,
                |e: Json| !is_member(e, id@),
            );
        }
        if !entry_is(&entries[i], id) {
            let ghost before = kept@;
            kept.push(entries[i].duplicate());
            assert(kept@.drop_last() == before);
        }
    }
    assert(entries@.take(entries@.len() as int) == entries@);
    kept
}

/// Remove `id` from a profile's membership list (never deletes shared files).
/// Returns whether an entry was removed.
pub fn remove_member(entries: &mut Vec<JsonValue>, id: &str) -> (r: bool)
    ensures
        json_seq_view(final(entries)@) == without_member(json_seq_view(old(entries)@), id@),
        r == exists|i: int|
            0 <= i < old(entries)@.len() && is_member(#[trigger] old(entries)@[i]@, id@),
{
    let kept = entries_without(entries, id);
    let ghost before = json_seq_view(entries@);
    proof {
        lemma_seq_view(entries@);
        lemma_seq_view(kept@);
        let p = |e: Json| !is_member(e, id@);
        before.lemma_filter_len(p);
        if !(exists|i: int| 0 <= i < entries@.len() && is_member(#[trigger] entries@[i]@, id@)) {
            assert forall|i: int| 0 <= i < before.len() implies p(before[i]) by {
                assert(before[i] == entries@[i]@);
            }
            lemma_filter_all(before, p);
        } else {
            let i = choose|i: int| 0 <= i < entries@.len() && is_member(#[trigger] entries@[i]@, id@);
            assert(before[i] == entries@[i]@);
            lemma_filter_drops(before, p, i);
        }
    }
    let removed = kept.len() != entries.len();
    *entries = kept;
    removed
}

/// Filtering with a predicate that keeps everything changes nothing.
pub proof fn lemma_filter_all(s: Seq<Json>, p: spec_fn(Json) -> bool)
    requires
        forall|i: int| 0 <= i < s.len() ==> p(s[i]),
    ensures
        s.filter(p) == s,
    decreases s.len(),
{
    reveal(Seq::filter);
    if s.len() > 0 {
        lemma_filter_all(s.drop_last(), p);
        assert(s.drop_last().push(s.last()) == s);
    }
}

/// Filtering out an element that fails the predicate shortens the sequence.
pub proof fn lemma_filter_drops(s: Seq<Json>, p: spec_fn(Json) -> bool, i: int)
    requires
        0 <= i < s.len(),
        !p(s[i]),
    ensures
        s.filter(p).len() < s.len(),
    decreases s.len(),
{
    reveal(Seq::filter);
    s.drop_last().lemma_filter_len(p);
    if i < s.len() - 1 {
        lemma_filter_drops(s.drop_last(), p, i);
    }
}

// ---------------------------------------------------------------------------
// Pinning
// ---------------------------------------------------------------------------

/// The entry belongs to `id` and is not frozen yet.
pub open spec fn needs_pin(e: Json, id: Seq<char>) -> bool {
    is_member(e, id) && !entry_pinned_spec(e)
}

/// The entry after freezing it when it belongs to `id`.
pub open spec fn pin_member(e: Json, id: Seq<char>) -> Json {
    if needs_pin(e, id) {
        with_pinned_spec(e, true)
    } else {
        e
    }
}

/// Ensure the membership entries for `id` are frozen (`metadata.pinned`).
/// Returns whether any entry changed (the file needs rewriting only then).
pub fn set_membership_pinned(entries: &mut Vec<JsonValue>, id: &str) -> (r: bool)
    ensures
        json_seq_view(final(entries)@) == json_seq_view(old(entries)@).map_values(
            |e: Json| pin_member(e, id@),
        ),
        r == exists|i: int|
            0 <= i < old(entries)@.len() && needs_pin(#[trigger] old(entries)@[i]@, id@),
{
    let ghost start = entries@;
    let mut changed = false;
    let n = entries.len();
    for i in 0..n
        invariant
            n == start.len(),
            entries@.len() == start.len(),
            start == old(entries)@,
            forall|j: int| 0 <= j < i ==> #[trigger] entries@[j]@ == pin_member(start[j]@, id@),
            forall|j: int| i <= j < start.len() ==> #[trigger] entries@[j] == start[j],
            changed == exists|j: int| 0 <= j < i && needs_pin(#[trigger] start[j]@, id@),
    {
        if entry_is(&entries[i], id) && !entry_pinned(&entries[i]) {
            let mut e = JsonValue::Null;
            entries.set_and_swap(i, &mut e);
            set_pinned(&mut e, true);
            entries.set(i, e);
            changed = true;
        }
    }
    proof {
        lemma_seq_view(entries@);
        lemma_seq_view(start);
        assert(json_seq_view(entries@) =~= json_seq_view(start).map_values(
            |e: Json| pin_member(e, id@),
        ));
    }
    changed
}

// ---------------------------------------------------------------------------
// Adding members
// ---------------------------------------------------------------------------

/// The pool entry that can satisfy a request for `id` at `pin`: the catalog
/// entry (frozen when pinned), provided the pool's single installed version
/// matches the pin.
pub open spec fn catalog_candidate_spec(
    catalog: Map<Seq<char>, Json>,
    id: Seq<char>,
    pin: Option<Seq<char>>,
) -> Option<Json> {
    if !catalog.contains_key(id) {
        None
    } else {
        let e = catalog[id];
        match pin {
            Some(v) => if entry_version_spec(e) != v {
                None
            } else {
                Some(with_pinned_spec(e, true))
            },
            None => Some(e),
        }
    }
}

/// The pool's catalog entry for `id`, ready to be copied into a profile's
/// membership list; `None` when the pool cannot satisfy the request (the
/// caller falls back to a vendored copy or the CLI).
pub fn catalog_candidate(catalog: &Catalog, id: &str, pin: Option<&str>) -> (r: Option<JsonValue>)
    ensures
        match r {
            Some(e) => catalog_candidate_spec(catalog@, id@, opt_str_view(pin)) == Some(e@),
            None => catalog_candidate_spec(catalog@, id@, opt_str_view(pin)) is None,
        },
{
    match catalog.get(id) {
        None => None,
        Some(entry) => {
            match pin {
                Some(version) => {
                    if entry_version(entry) != version.to_owned() {
                        return None;
                    }
                    let mut copy = entry.duplicate();
                    set_pinned(&mut copy, true);
                    Some(copy)
                },
                None => Some(entry.duplicate()),
            }
        },
    }
}

/// `i` is the first entry that belongs to `id`.
pub open spec fn is_first_member(entries: Seq<Json>, id: Seq<char>, i: int) -> bool {
    &&& 0 <= i < entries.len()
    &&& is_member(entries[i], id)
    &&& forall|j: int| 0 <= j < i ==> !is_member(#[trigger] entries[j], id)
}

/// An existing entry meets a request at `pin`: any entry does when no
/// version is requested; for a pinned request it must be frozen at exactly
/// that version.
pub open spec fn meets_pin(e: Json, pin: Option<Seq<char>>) -> bool {
    match pin {
        Some(w) => entry_pinned_spec(e) && entry_version_spec(e) == w,
        None => true,
    }
}

/// The existing membership already satisfies a request for `id` at `pin`:
/// the first entry for `id` exists and meets the pin.
pub open spec fn member_satisfied(entries: Seq<Json>, id: Seq<char>, pin: Option<Seq<char>>) -> bool {
    if exists|i: int| 0 <= i < entries.len() && is_member(#[trigger] entries[i], id) {
        let i = choose|i: int| is_first_member(entries, id, i);
        meets_pin(entries[i], pin)
    } else {
        false
    }
}

/// Put `entry` into a profile's membership list for `id` unless the existing
/// membership already satisfies the request at `pin` (a frozen entry at
/// exactly that version, when pinned); any stale entry for `id` (a version
/// drift, an unfrozen or differently pinned entry) is replaced. Returns
/// whether the list changed (and so must be written back).
pub fn merge_member(entries: &mut Vec<JsonValue>, id: &str, entry: JsonValue, pin: Option<&str>) -> (r:
    bool)
    ensures
        r == !member_satisfied(json_seq_view(old(entries)@), id@, opt_str_view(pin)),
        r ==> json_seq_view(final(entries)@) == without_member(
            json_seq_view(old(entries)@),
            id@,
        ).push(entry@),
        !r ==> final(entries)@ == old(entries)@,
{
    let ghost v = json_seq_view(entries@);
    proof {
        lemma_seq_view(entries@);
    }
    let mut i: usize = 0;
    while i < entries.len() && !entry_is(&entries[i], id)
        invariant
            i <= entries@.len(),
            v == json_seq_view(entries@),
            v.len() == entries@.len(),
            forall|j: int| 0 <= j < v.len() ==> #[trigger] v[j] == entries@[j]@,
            forall|j: int| 0 <= j < i ==> !is_member(#[trigger] v[j], id@),
        decreases entries@.len() - i,
    {
        i = i + 1;
    }
    if i < entries.len() {
        proof {
            assert(is_first_member(v, id@, i as int));
            let k = choose|k: int| is_first_member(v, id@, k);
            assert(k == i);
        }
        let satisfied = match pin {
            Some(version) => entry_pinned(&entries[i]) && entry_version(&entries[i])
                == version.to_owned(),
            None => true,
        };
        if satisfied {
            return false;
        }
    } else {
        assert(!exists|k: int| 0 <= k < v.len() && is_member(#[trigger] v[k], id@));
    }
    let mut kept = entries_without(entries, id);
    let ghost before = kept@;
    kept.push(entry);
    assert(kept@.drop_last() == before);
    *entries = kept;
    true
}

/// The on-disk location record of a pool folder (`{"$mid": 1, "path": …,
/// "scheme": "file"}`).
pub open spec fn location_spec(path: Seq<char>) -> Json {
    Json::Object(
        seq![
            ("$mid"@, Json::Number("1"@)),
            ("path"@, Json::Str(path)),
            ("scheme"@, Json::Str("file"@)),
        ],
    )
}

/// A vendored entry pointed at its pool folder at `path`, frozen when `pinned`.
pub open spec fn relocated_spec(e: Json, path: Seq<char>, pinned: bool) -> Json {
    let moved = match e {
        Json::Object(fields) => Json::Object(set_field(fields, "location"@, location_spec(path))),
        _ => e,
    };
    if pinned {
        with_pinned_spec(moved, true)
    } else {
        moved
    }
}

/// The relative location of a vendored entry for `id`, when the entry is for
/// `id` and records one.
pub open spec fn vendored_match_spec(e: Json, id: Seq<char>) -> Option<Seq<char>> {
    if is_member(e, id) {
        relative_location_spec(e)
    } else {
        None
    }
}

/// A file name ending in `.entry.json`: the sidecar that records a vendored
/// extension's catalog entry.
pub open spec fn is_sidecar_name_spec(name: Seq<char>) -> bool {
    name.len() >= ".entry.json"@.len() && name.skip(name.len() - ".entry.json"@.len())
        == ".entry.json"@
}

/// Whether a file name is that of a vendored entry sidecar.
pub fn is_sidecar_name(name: &str) -> (r: bool)
    ensures
        r == is_sidecar_name_spec(name@),
{
    let chars = chars_of(name);
    let suffix = chars_of(".entry.json");
    if chars.len() < suffix.len() {
        return false;
    }
    let start = chars.len() - suffix.len();
    let r = crate::text::matches_at(&chars, &suffix, start);
    assert(chars@.subrange(start as int, start + suffix@.len()) == chars@.skip(start as int));
    r
}

/// The sidecar file name that records the vendored entry at `rel`.
pub open spec fn sidecar_name_spec(rel: Seq<char>) -> Seq<char> {
    rel + ".entry.json"@
}

/// The name of the sidecar file written beside a vendored folder `rel`.
pub fn sidecar_name(rel: &str) -> (r: String)
    ensures
        r@ == sidecar_name_spec(rel@),
{
    let mut chars = chars_of(rel);
    let tail = chars_of(".entry.json");
    let ghost first = chars@;
    for i in 0..tail.len()
        invariant
            chars@ == first + tail@.take(i as int),
    {
        chars.push(tail[i]);
        assert(tail@.take(i + 1) == tail@.take(i as int).push(tail@[i as int]));
    }
    assert(tail@.take(tail@.len() as int) == tail@);
    string_of(&chars)
}

/// Every sidecar name ends in `.entry.json`.
pub proof fn law_sidecar_name_is_recognised(rel: Seq<char>)
    ensures
        is_sidecar_name_spec(sidecar_name_spec(rel)),
{
    let n = sidecar_name_spec(rel);
    assert(n.skip(n.len() - ".entry.json"@.len()) =~= ".entry.json"@);
}

/// If a vendored sidecar entry is for `id`, its relative location in the pool.
pub fn vendored_match(entry: &JsonValue, id: &str) -> (r: Option<String>)
    ensures
        opt_string_view(r) == vendored_match_spec(entry@, id@),
{
    if entry_is(entry, id) {
        relative_location(entry)
    } else {
        None
    }
}

/// A vendored copy can satisfy `pin` only when it is that exact version.
pub open spec fn pin_satisfied_spec(e: Json, pin: Option<Seq<char>>) -> bool {
    match pin {
        Some(v) => entry_version_spec(e) == v,
        None => true,
    }
}

/// Whether `entry` satisfies `pin`.
pub fn pin_satisfied(entry: &JsonValue, pin: Option<&str>) -> (r: bool)
    ensures
        r == pin_satisfied_spec(entry@, opt_str_view(pin)),
{
    match pin {
        Some(version) => entry_version(entry) == version.to_owned(),
        None => true,
    }
}

/// Point a vendored entry at this machine's pool folder (`path`) and freeze it
/// when `pinned`.
pub fn relocate_entry(entry: JsonValue, path: &str, pinned: bool) -> (r: JsonValue)
    ensures
        r@ == relocated_spec(entry@, path@, pinned),
{
    let mut moved = match entry {
        JsonValue::Object(mut fields) => {
            let mut location: Vec<(String, JsonValue)> = Vec::new();
            location.push(("$mid".to_owned(), JsonValue::Number("1".to_owned())));
            location.push(("path".to_owned(), JsonValue::String(path.to_owned())));
            location.push(("scheme".to_owned(), JsonValue::String("file".to_owned())));
            proof {
                lemma_fields_view(location@);
                assert(json_fields_view(location@) =~= seq![
                    ("$mid"@, Json::Number("1"@)),
                    ("path"@, Json::Str(path@)),
                    ("scheme"@, Json::Str("file"@)),
                ]);
            }
            set_field_in(&mut fields, "location", JsonValue::Object(location));
            JsonValue::Object(fields)
        },
        other => other,
    };
    if pinned {
        set_pinned(&mut moved, true);
    }
    moved
}

/// The `CLI` install argument for `id`: `id@version` when pinned.
pub open spec fn install_spec_text(id: Seq<char>, pin: Option<Seq<char>>) -> Seq<char> {
    match pin {
        Some(v) => id + "@"@ + v,
        None => id,
    }
}

/// The editor CLI accepts `id@version` to fetch a specific build.
pub fn install_spec(id: &str, pin: Option<&str>) -> (r: String)
    ensures
        r@ == install_spec_text(id@, opt_str_view(pin)),
{
    match pin {
        None => id.to_owned(),
        Some(version) => {
            let mut chars = chars_of(id);
            let ghost first = chars@;
            chars.push('@');
            let tail = chars_of(version);
            let ghost second = chars@;
            for i in 0..tail.len()
                invariant
                    chars@ == second + tail@.take(i as int),
            {
                chars.push(tail[i]);
                assert(tail@.take(i + 1) == tail@.take(i as int).push(tail@[i as int]));
            }
            assert(tail@.take(tail@.len() as int) == tail@);
            proof {
                reveal_strlit("@");
                assert(second == first + "@"@);
            }
            string_of(&chars)
        },
    }
}

// ---------------------------------------------------------------------------
// Vendoring
// ---------------------------------------------------------------------------

/// The catalog entries worth vendoring among `ids` (in order): those from a
/// local VSIX (`metadata.source == "vsix"`) with a relative location, paired
/// with that location.
pub open spec fn vendorable(catalog: Map<Seq<char>, Json>, ids: Seq<Seq<char>>) -> Seq<
    (Seq<char>, Json),
>
    decreases ids.len(),
{
    if ids.len() == 0 {
        Seq::empty()
    } else {
        let rest = vendorable(catalog, ids.drop_last());
        let id = ids.last();
        if catalog.contains_key(id) && entry_source_spec(catalog[id]) == Some("vsix"@)
            && relative_location_spec(catalog[id]) is Some {
            rest.push((relative_location_spec(catalog[id])->0, catalog[id]))
        } else {
            rest
        }
    }
}

/// The members of a set, in ascending order.
pub open spec fn set_items(ids: StrSet) -> Seq<Seq<char>> {
    Seq::new(ids.spec_len(), |i: int| ids.spec_item(i))
}

/// The views of a list of (location, entry) pairs.
pub open spec fn located_view(v: Seq<(String, JsonValue)>) -> Seq<(Seq<char>, Json)> {
    v.map_values(|p: (String, JsonValue)| (p.0@, p.1@))
}

/// Local (VSIX-source) extensions among `ids` that can be vendored, with their
/// relative location in the pool; the caller copies those whose folder exists.
pub fn vendor_candidates(catalog: &Catalog, ids: &StrSet) -> (r: Vec<(String, JsonValue)>)
    ensures
        located_view(r@) == vendorable(catalog@, set_items(*ids)),
{
    let n = ids.len();
    let mut out: Vec<(String, JsonValue)> = Vec::new();
    let ghost items = set_items(*ids);
    assert(items.take(0) == Seq::<Seq<char>>::empty());
    assert(located_view(out@) =~= Seq::<(Seq<char>, Json)>::empty());
    for i in 0..n
        invariant
            n == ids.spec_len(),
            items == set_items(*ids),
            located_view(out@) == vendorable(catalog@, items.take(i as int)),
    {
        let id = ids.item_at(i);
        assert(items.take(i + 1).drop_last() == items.take(i as int));
        assert(items.take(i + 1).last() == id@);
        let ghost before = out@;
        match catalog.get(id.as_str()) {
            Some(entry) => {
                let source = entry_source(entry);
                let is_vsix = match source {
                    Some(s) => s == "vsix".to_owned(),
                    None => false,
                };
                if is_vsix {
                    match relative_location(entry) {
                        Some(rel) => {
                            out.push((rel, entry.duplicate()));
                            assert(located_view(out@) =~= located_view(before).push(
                                (relative_location_spec(catalog@[id@])->0, catalog@[id@]),
                            ));
                        },
                        None => {},
                    }
                }
            },
            None => {},
        }
    }
    assert(items.take(n as int) == items);
    out
}

/// A pool catalog is keyed by entry id: the entry stored under `id` is an
/// entry for `id`.
pub proof fn law_catalog_keyed_by_id(entries: Seq<Json>, id: Seq<char>)
    requires
        catalog_spec(entries).contains_key(id),
    ensures
        entry_id_spec(catalog_spec(entries)[id]) == Some(id),
    decreases entries.len(),
{
    if entries.len() > 0 {
        let m = catalog_spec(entries.drop_last());
        if m.contains_key(id) {
            law_catalog_keyed_by_id(entries.drop_last(), id);
        }
    }
}

/// What vendoring records is what restoring finds: each (location, entry)
/// pair chosen for vendoring from a catalog keyed by entry id is an entry for
/// one of the requested ids, its sidecar name is recognised as a sidecar, and
/// matching that entry against its id yields the same location.
pub proof fn law_vendored_entry_restores(
    catalog: Map<Seq<char>, Json>,
    ids: Seq<Seq<char>>,
    k: int,
)
    requires
        forall|id: Seq<char>| #[trigger]
            catalog.contains_key(id) ==> entry_id_spec(catalog[id]) == Some(id),
        0 <= k < vendorable(catalog, ids).len(),
    ensures
        ({
            let (rel, e) = vendorable(catalog, ids)[k];
            &&& entry_id_spec(e) is Some
            &&& ids.contains(entry_id_spec(e)->0)
            &&& entry_source_spec(e) == Some("vsix"@)
            &&& vendored_match_spec(e, entry_id_spec(e)->0) == Some(rel)
            &&& is_sidecar_name_spec(sidecar_name_spec(rel))
        }),
    decreases ids.len(),
{
    let rest = vendorable(catalog, ids.drop_last());
    let (rel, e) = vendorable(catalog, ids)[k];
    law_sidecar_name_is_recognised(rel);
    if k < rest.len() {
        law_vendored_entry_restores(catalog, ids.drop_last(), k);
        let id = entry_id_spec(e)->0;
        let j = choose|j: int| 0 <= j < ids.drop_last().len() && ids.drop_last()[j] == id;
        assert(ids[j] == id);
    } else {
        let id = ids.last();
        assert(catalog.contains_key(id));
        assert(ids[ids.len() - 1] == id);
    }
}

// ---------------------------------------------------------------------------
// Editor CLI output
// ---------------------------------------------------------------------------

/// Electron/Chromium and Node noise and progress chatter in CLI output.
pub open spec fn is_noise(line: Seq<char>) -> bool {
    ||| line.len() == 0
    ||| has_prefix(line, "Warning:"@)
    ||| has_substring(line, "DeprecationWarning"@)
    ||| has_substring(line, "trace-deprecation"@)
    ||| has_prefix(line, "Installing extensions"@)
}

/// A line that names the failure.
pub open spec fn names_failure(line: Seq<char>) -> bool {
    ||| has_substring(line, "not found"@)
    ||| has_prefix(line, "Failed"@)
    ||| has_substring(ascii_lowercase(line), "error"@)
}

/// The trimmed, non-noise lines of some output, in order.
pub open spec fn informative(ls: Seq<Seq<char>>) -> Seq<Seq<char>> {
    ls.map_values(|l: Seq<char>| trimmed(l)).filter(|l: Seq<char>| !is_noise(l))
}

/// The last line that names the failure.
pub open spec fn last_failure(ls: Seq<Seq<char>>) -> Option<Seq<char>>
    decreases ls.len(),
{
    if ls.len() == 0 {
        None
    } else if names_failure(ls.last()) {
        Some(ls.last())
    } else {
        last_failure(ls.drop_last())
    }
}

/// The most informative line of CLI output: among the trimmed, non-noise
/// lines of stderr followed by stdout, the last one naming the failure, else
/// the last one, else `unknown error`.
pub open spec fn best_error_line_spec(stderr: Seq<char>, stdout: Seq<char>) -> Seq<char> {
    let ls = informative(lines_spec(stderr) + lines_spec(stdout));
    match last_failure(ls) {
        Some(l) => l,
        None => if ls.len() > 0 {
            ls.last()
        } else {
            "unknown error"@
        },
    }
}

fn is_noise_line(line: &[char]) -> (r: bool)
    ensures
        r == is_noise(line@),
{
    line.len() == 0 || starts_with(line, &chars_of("Warning:")) || contains(
        line,
        &chars_of("DeprecationWarning"),
    ) || contains(line, &chars_of("trace-deprecation")) || starts_with(
        line,
        &chars_of("Installing extensions"),
    )
}

fn names_failure_line(line: &[char]) -> (r: bool)
    ensures
        r == names_failure(line@),
{
    contains(line, &chars_of("not found")) || starts_with(line, &chars_of("Failed")) || contains(
        &to_ascii_lowercase(line),
        &chars_of("error"),
    )
}

/// Appends the informative lines of `ls` to `kept`.
fn keep_informative(ls: &Vec<Vec<char>>, kept: &mut Vec<Vec<char>>)
    ensures
        views(final(kept)@) == views(old(kept)@) + informative(views(ls@)),
{
    let ghost start = views(kept@);
    let ghost all = views(ls@);
    let ghost trim_f = |l: Seq<char>| trimmed(l);
    let ghost keep_f = |l: Seq<char>| !is_noise(l);
    reveal(Seq::filter);
    assert(all.take(0).map_values(trim_f).filter(keep_f) == Seq::<Seq<char>>::empty());
    for i in 0..ls.len()
        invariant
            start == views(old(kept)@),
            all == views(ls@),
            trim_f == (|l: Seq<char>| trimmed(l)),
            keep_f == (|l: Seq<char>| !is_noise(l)),
            views(kept@) == start + all.take(i as int).map_values(trim_f).filter(keep_f),
    {
        let t = trim(&ls[i]);
        proof {
            assert(all[i as int] == ls@[i as int]@);
            assert(all.take(i + 1).map_values(trim_f) == all.take(i as int).map_values(trim_f).push(
                trimmed(all[i as int]),
            ));
            all.take(i as int).map_values(trim_f).lemma_filter_push(trimmed(all[i as int]), keep_f);
        }
        if !is_noise_line(&t) {
            let ghost before = kept@;
            kept.push(t);
            assert(views(kept@) == views(before).push(t@));
        }
    }
    assert(all.take(all.len() as int) == all);
}

/// Pick the most informative line of CLI output, skipping Electron/Chromium and
/// Node noise and progress chatter, preferring a line that names the failure.
pub fn best_error_line(stderr: &str, stdout: &str) -> (r: String)
    ensures
        r@ == best_error_line_spec(stderr@, stdout@),
{
    let err_lines = lines(&chars_of(stderr));
    let out_lines = lines(&chars_of(stdout));
    let mut kept: Vec<Vec<char>> = Vec::new();
    keep_informative(&err_lines, &mut kept);
    keep_informative(&out_lines, &mut kept);
    let ghost ls = views(kept@);
    proof {
        let a = lines_spec(stderr@);
        let b = lines_spec(stdout@);
        let trim_f = |l: Seq<char>| trimmed(l);
        let keep_f = |l: Seq<char>| !is_noise(l);
        assert((a + b).map_values(trim_f) == a.map_values(trim_f) + b.map_values(trim_f));
        Seq::filter_distributes_over_add(a.map_values(trim_f), b.map_values(trim_f), keep_f);
        assert(views(Seq::<Vec<char>>::empty()) == Seq::<Seq<char>>::empty());
        assert(ls == informative(a + b));
    }
    let mut k = kept.len();
    assert(ls.take(k as int) == ls);
    while k > 0
        invariant
            k <= kept@.len(),
            ls == views(kept@),
            ls == informative(lines_spec(stderr@) + lines_spec(stdout@)),
            last_failure(ls) == last_failure(ls.take(k as int)),
        decreases k,
    {
        assert(ls.take(k as int).last() == kept@[k - 1]@);
        assert(ls.take(k as int).drop_last() == ls.take(k - 1));
        if names_failure_line(&kept[k - 1]) {
            return string_of(&kept[k - 1]);
        }
        k = k - 1;
    }
    if kept.len() > 0 {
        string_of(&kept[kept.len() - 1])
    } else {
        "unknown error".to_owned()
    }
}

// ---------------------------------------------------------------------------
// Laws of membership
// ---------------------------------------------------------------------------

/// After removing `id` from a membership list no entry for `id` remains, and
/// removing it again changes nothing.
pub proof fn law_remove_member_clears(entries: Seq<Json>, id: Seq<char>)
    ensures
        forall|i: int|
            0 <= i < without_member(entries, id).len() ==> !is_member(
                #[trigger] without_member(entries, id)[i],
                id,
            ),
        without_member(without_member(entries, id), id) == without_member(entries, id),
{
    let p = |e: Json| !is_member(e, id);
    entries.filter_lemma(p);
    lemma_filter_all(entries.filter(p), p);
}

/// Removal keeps every entry that is not for `id`, and splits over lists:
/// removing from `a + b` is removing from `a` then from `b`, and a single
/// entry is dropped exactly when its id is `id`. Together these fix the
/// result: the original entries, in order, less those whose id is `id`.
pub proof fn law_remove_member_keeps_others(a: Seq<Json>, b: Seq<Json>, e: Json, id: Seq<char>)
    ensures
        without_member(a + b, id) == without_member(a, id) + without_member(b, id),
        entry_id_spec(e) == Some(id) ==> without_member(seq![e], id) == Seq::<Json>::empty(),
        entry_id_spec(e) != Some(id) ==> without_member(seq![e], id) == seq![e],
        forall|j: int|
            0 <= j < a.len() && entry_id_spec(a[j]) != Some(id) ==> without_member(a, id).contains(
                #[trigger] a[j],
            ),
        (forall|j: int| 0 <= j < a.len() ==> entry_id_spec(#[trigger] a[j]) != Some(id))
            ==> without_member(a, id) == a,
{
    let p = |x: Json| !is_member(x, id);
    Seq::filter_distributes_over_add(a, b, p);
    reveal(Seq::filter);
    assert(seq![e].drop_last() == Seq::<Json>::empty());
    assert(seq![e].last() == e);
    assert(Seq::<Json>::empty().filter(p) == Seq::<Json>::empty());
    if p(e) {
        assert(seq![e].filter(p) == Seq::<Json>::empty().push(e));
        assert(Seq::<Json>::empty().push(e) =~= seq![e]);
    } else {
        assert(seq![e].filter(p) == Seq::<Json>::empty());
    }
    a.filter_lemma(p);
    if forall|j: int| 0 <= j < a.len() ==> entry_id_spec(#[trigger] a[j]) != Some(id) {
        assert forall|j: int| 0 <= j < a.len() implies p(a[j]) by {
            assert(entry_id_spec(a[j]) != Some(id));
        }
        lemma_filter_all(a, p);
    }
}

/// Whether a request is already satisfied depends on the first entry for `id`:
/// any such entry satisfies an unpinned request, and a pinned request at `w`
/// only when that entry is frozen (`metadata.pinned`) at exactly version `w`.
pub proof fn law_pinned_request_needs_frozen_member(
    entries: Seq<Json>,
    id: Seq<char>,
    w: Seq<char>,
    i: int,
)
    requires
        0 <= i < entries.len(),
        entry_id_spec(entries[i]) == Some(id),
        forall|j: int| 0 <= j < i ==> entry_id_spec(#[trigger] entries[j]) != Some(id),
    ensures
        member_satisfied(entries, id, None),
        member_satisfied(entries, id, Some(w)) <==> (entry_pinned_spec(entries[i])
            && entry_version_spec(entries[i]) == w),
{
    assert(is_first_member(entries, id, i));
    let k = choose|k: int| is_first_member(entries, id, k);
    if k < i {
        assert(!is_member(entries[k], id));
    }
    if i < k {
        assert(!is_member(entries[i], id));
    }
    assert(k == i);
}

/// A request for an extension that has no entry is never already satisfied.
pub proof fn law_absent_member_unsatisfied(entries: Seq<Json>, id: Seq<char>, pin: Option<Seq<char>>)
    requires
        forall|j: int| 0 <= j < entries.len() ==> entry_id_spec(#[trigger] entries[j]) != Some(id),
    ensures
        !member_satisfied(entries, id, pin),
{
    if exists|i: int| 0 <= i < entries.len() && is_member(#[trigger] entries[i], id) {
        let i = choose|i: int| 0 <= i < entries.len() && is_member(#[trigger] entries[i], id);
        assert(entry_id_spec(entries[i]) != Some(id));
    }
}

/// Vendoring is complete: every requested id whose catalog entry comes from a
/// local VSIX (`metadata.source == "vsix"`) and has a relative location is
/// chosen, paired with that location.
pub proof fn law_vendoring_complete(
    catalog: Map<Seq<char>, Json>,
    ids: Seq<Seq<char>>,
    j: int,
    rel: Seq<char>,
)
    requires
        0 <= j < ids.len(),
        catalog.contains_key(ids[j]),
        entry_source_spec(catalog[ids[j]]) == Some("vsix"@),
        relative_location_spec(catalog[ids[j]]) == Some(rel),
    ensures
        vendorable(catalog, ids).contains((rel, catalog[ids[j]])),
    decreases ids.len(),
{
    let rest = vendorable(catalog, ids.drop_last());
    if j < ids.len() - 1 {
        assert(ids.drop_last()[j] == ids[j]);
        law_vendoring_complete(catalog, ids.drop_last(), j, rel);
        let k = choose|k: int| 0 <= k < rest.len() && rest[k] == (rel, catalog[ids[j]]);
        let id = ids.last();
        if catalog.contains_key(id) && entry_source_spec(catalog[id]) == Some("vsix"@)
            && relative_location_spec(catalog[id]) is Some {
            let out = rest.push((relative_location_spec(catalog[id])->0, catalog[id]));
            assert(out[k] == rest[k]);
        }
    } else {
        let out = vendorable(catalog, ids);
        assert(ids.last() == ids[j]);
        assert(out[out.len() - 1] == (rel, catalog[ids[j]]));
    }
}

/// The entry's `metadata` is an object or absent, so pinning can record the pin.
pub open spec fn metadata_can_pin(e: Json) -> bool {
    match e.get("metadata"@) {
        Some(Json::Object(_)) => true,
        Some(_) => false,
        None => true,
    }
}

/// Pinning an object entry keeps its identity and version; it records the pin
/// unless the entry's `metadata` is something other than an object.
pub proof fn law_pin_keeps_identity(e: Json, pinned: bool)
    requires
        e is Object,
    ensures
        entry_id_spec(with_pinned_spec(e, pinned)) == entry_id_spec(e),
        entry_version_spec(with_pinned_spec(e, pinned)) == entry_version_spec(e),
        metadata_can_pin(e) ==> entry_pinned_spec(with_pinned_spec(e, pinned)) == pinned,
{
    reveal_strlit("metadata");
    reveal_strlit("identifier");
    reveal_strlit("version");
    reveal_strlit("pinned");
    let fields = e->Object_0;
    let md = "metadata"@;
    assert("identifier"@.len() != md.len());
    assert("version"@.len() != md.len());
    assert(e == Json::Object(fields));
    let empty_md = Json::Object(Seq::empty());
    crate::json::lemma_field_index(fields, md);
    let f1 = if field_value(fields, md) is Some {
        fields
    } else {
        fields.push((md, empty_md))
    };
    if field_value(fields, md) is None {
        assert(f1 == set_field(fields, md, empty_md));
        crate::json::lemma_set_field(fields, md, empty_md, "identifier"@);
        crate::json::lemma_set_field(fields, md, empty_md, "version"@);
        crate::json::lemma_set_field(fields, md, empty_md, md);
    }
    match field_value(f1, md) {
        Some(Json::Object(meta)) => {
            let meta2 = Json::Object(set_field(meta, "pinned"@, Json::Bool(pinned)));
            crate::json::lemma_set_field(f1, md, meta2, "identifier"@);
            crate::json::lemma_set_field(f1, md, meta2, "version"@);
            crate::json::lemma_set_field(f1, md, meta2, md);
            crate::json::lemma_set_field(meta, "pinned"@, Json::Bool(pinned), "pinned"@);
            let g = set_field(f1, md, meta2);
            assert(field_value(g, "identifier"@) == field_value(fields, "identifier"@));
            assert(with_pinned_spec(e, pinned) == Json::Object(g));
        },
        _ => {},
    }
}

/// After merging an entry for `id` that meets the request at `pin`, the
/// membership satisfies the request: `id` is a member at the desired version.
pub proof fn law_merge_satisfies(entries: Seq<Json>, id: Seq<char>, entry: Json, pin: Option<Seq<char>>)
    requires
        is_member(entry, id),
        meets_pin(entry, pin),
    ensures
        member_satisfied(without_member(entries, id).push(entry), id, pin),
{
    law_remove_member_clears(entries, id);
    let kept = without_member(entries, id);
    let merged = kept.push(entry);
    let n = kept.len() as int;
    assert forall|j: int| 0 <= j < n implies !is_member(#[trigger] merged[j], id) by {
        assert(merged[j] == kept[j]);
    }
    assert(is_first_member(merged, id, n));
    assert(0 <= n < merged.len() && is_member(merged[n], id));
    let k = choose|k: int| is_first_member(merged, id, k);
    assert(k == n);
}

/// A pool entry offered for a pinned request has exactly the pinned version,
/// and when the catalog entry is an object whose `metadata` can hold the pin
/// it is frozen, so merging it makes `id` a member at that version.
pub proof fn law_catalog_candidate_matches_pin(
    catalog: Map<Seq<char>, Json>,
    id: Seq<char>,
    version: Seq<char>,
)
    requires
        catalog_candidate_spec(catalog, id, Some(version)) is Some,
    ensures
        entry_version_spec(catalog_candidate_spec(catalog, id, Some(version))->0) == version,
        catalog[id] is Object && metadata_can_pin(catalog[id]) ==> meets_pin(
            catalog_candidate_spec(catalog, id, Some(version))->0,
            Some(version),
        ),
{
    let e = catalog[id];
    if e is Object {
        law_pin_keeps_identity(e, true);
    }
}

/// `last_failure` picks one of the lines it is given.
proof fn lemma_last_failure_member(ls: Seq<Seq<char>>)
    ensures
        last_failure(ls) matches Some(l) ==> ls.contains(l),
    decreases ls.len(),
{
    if ls.len() > 0 && !names_failure(ls.last()) {
        lemma_last_failure_member(ls.drop_last());
        if last_failure(ls.drop_last()) is Some {
            let l = last_failure(ls.drop_last())->0;
            let i = choose|i: int| 0 <= i < ls.drop_last().len() && ls.drop_last()[i] == l;
            assert(ls[i] == l);
        }
    } else if ls.len() > 0 {
        assert(ls[ls.len() - 1] == ls.last());
    }
}

/// The CLI error line is never empty: with no informative output it is
/// `unknown error`.
pub proof fn law_best_error_line_nonempty(stderr: Seq<char>, stdout: Seq<char>)
    ensures
        best_error_line_spec(stderr, stdout).len() > 0,
{
    reveal_strlit("unknown error");
    let all = (lines_spec(stderr) + lines_spec(stdout)).map_values(|l: Seq<char>| trimmed(l));
    let keep = |l: Seq<char>| !is_noise(l);
    let ls = informative(lines_spec(stderr) + lines_spec(stdout));
    all.filter_lemma(keep);
    lemma_last_failure_member(ls);
    if ls.len() > 0 {
        assert(ls[ls.len() - 1] == ls.last());
    }
}

// ---------------------------------------------------------------------------
// The order in which sources are tried when adding a member
// ---------------------------------------------------------------------------

/// A step of adding an extension to a profile.
#[derive(Debug, Clone, Copy, PartialEq, Eq)]
pub enum AddStep {
    /// Copy the shared pool's catalog entry.
    FromPool,
    /// Restore a vendored copy.
    FromVendor,
    /// Install through the editor CLI.
    ViaCli,
    /// Freeze the freshly installed entry (`metadata.pinned`).
    Freeze,
}

/// What to do next while adding an extension.
#[derive(Debug, Clone, Copy, PartialEq, Eq)]
pub enum AddAction {
    /// Perform this step.
    Run(AddStep),
    /// Stop: the extension was added this way.
    Done(AddMethod),
}

/// The first step of adding an extension: try the shared pool.
pub open spec fn add_start_spec() -> AddAction {
    AddAction::Run(AddStep::FromPool)
}

/// The step after `step` reported whether it added the extension (`added`);
/// `pinned` says whether an exact version was requested. Sources are tried in
/// order pool, vendor, CLI; a pinned CLI install is then frozen.
pub open spec fn add_next_spec(step: AddStep, added: bool, pinned: bool) -> AddAction {
    match step {
        AddStep::FromPool => if added {
            AddAction::Done(AddMethod::Pool)
        } else {
            AddAction::Run(AddStep::FromVendor)
        },
        AddStep::FromVendor => if added {
            AddAction::Done(AddMethod::Vendor)
        } else {
            AddAction::Run(AddStep::ViaCli)
        },
        AddStep::ViaCli => if pinned {
            AddAction::Run(AddStep::Freeze)
        } else {
            AddAction::Done(AddMethod::Cli)
        },
        AddStep::Freeze => AddAction::Done(AddMethod::Cli),
    }
}

/// The first step of adding an extension.
pub fn add_start() -> (r: AddAction)
    ensures
        r == add_start_spec(),
{
    AddAction::Run(AddStep::FromPool)
}

/// The step that follows `step` in `add_member`.
pub fn add_next(step: AddStep, added: bool, pinned: bool) -> (r: AddAction)
    ensures
        r == add_next_spec(step, added, pinned),
{
    match step {
        AddStep::FromPool => if added {
            AddAction::Done(AddMethod::Pool)
        } else {
            AddAction::Run(AddStep::FromVendor)
        },
        AddStep::FromVendor => if added {
            AddAction::Done(AddMethod::Vendor)
        } else {
            AddAction::Run(AddStep::ViaCli)
        },
        AddStep::ViaCli => if pinned {
            AddAction::Run(AddStep::Freeze)
        } else {
            AddAction::Done(AddMethod::Cli)
        },
        AddStep::Freeze => AddAction::Done(AddMethod::Cli),
    }
}

/// Adding always finishes: whatever the steps report, at most four steps run
/// before `Done`, and the CLI is reached only when neither the pool nor a
/// vendored copy added the extension.
pub proof fn law_add_member_terminates(a1: bool, a2: bool, pinned: bool)
    ensures
        ({
            let s1 = add_next_spec(AddStep::FromPool, a1, pinned);
            match s1 {
                AddAction::Done(m) => m == AddMethod::Pool && a1,
                AddAction::Run(st1) => {
                    &&& st1 == AddStep::FromVendor
                    &&& match add_next_spec(st1, a2, pinned) {
                        AddAction::Done(m) => m == AddMethod::Vendor && a2,
                        AddAction::Run(st2) => {
                            &&& st2 == AddStep::ViaCli
                            &&& !a1 && !a2
                            &&& match add_next_spec(st2, true, pinned) {
                                AddAction::Done(m) => m == AddMethod::Cli && !pinned,
                                AddAction::Run(st3) => st3 == AddStep::Freeze && pinned
                                    && add_next_spec(st3, true, pinned) == AddAction::Done(
                                    AddMethod::Cli,
                                ),
                            }
                        },
                    }
                },
            }
        }),
{
}

} // verus!
