use code_profile_manager::extension::{
    best_error_line, catalog_candidate, entry_id, entry_pinned, entry_source, entry_version,
    install_spec, is_sidecar_name, merge_member, sidecar_name, pin_satisfied, pool_catalog, read_membership_file,
    relative_location, relocate_entry, remove_member, set_membership_pinned, set_pinned,
    vendor_candidates, vendored_match, AddMethod, InstalledExt,
};
use code_profile_manager::extension::{add_next, add_start, AddAction, AddStep};
use code_profile_manager::json::JsonValue;
use code_profile_manager::keymap::StrSet;

fn s(text: &str) -> JsonValue {
    JsonValue::String(text.to_owned())
}

fn obj(fields: Vec<(&str, JsonValue)>) -> JsonValue {
    JsonValue::Object(fields.into_iter().map(|(k, v)| (k.to_owned(), v)).collect())
}

fn entry(id: &str, version: &str, metadata: Option<JsonValue>) -> JsonValue {
    let mut fields = vec![
        ("identifier", obj(vec![("id", s(id))])),
        ("version", s(version)),
    ];
    if let Some(m) = metadata {
        fields.push(("metadata", m));
    }
    obj(fields)
}

fn get<'a>(v: &'a JsonValue, key: &str) -> Option<&'a JsonValue> {
    v.get(key)
}

#[test]
fn best_error_line_prefers_the_failure_over_noise_and_progress() {
    let stderr = "Warning: 'enable-features' is not in the list of known options\n\
                  (node:36363) [DEP0169] DeprecationWarning: url.parse() ...\n\
                  Extension 'x.y' not found.\n\
                  Make sure you use the full extension ID, including the publisher\n\
                  Failed Installing Extensions: x.y";
    let stdout = "Installing extensions...";
    assert_eq!(
        best_error_line(stderr, stdout),
        "Failed Installing Extensions: x.y"
    );
}

#[test]
fn best_error_line_falls_back_to_last_line() {
    assert_eq!(
        best_error_line("", "something odd happened"),
        "something odd happened"
    );
    assert_eq!(best_error_line("", ""), "unknown error");
}

#[test]
fn best_error_line_matches_error_case_insensitively_and_trims() {
    assert_eq!(
        best_error_line("  An ERROR occurred  \r\nlater line\n", "Warning: x"),
        "An ERROR occurred"
    );
    assert_eq!(best_error_line("\n\n   \n", "Installing extensions..."), "unknown error");
    assert_eq!(best_error_line("first\r\nsecond\r\n", ""), "second");
}

#[test]
fn entry_accessors_read_the_documented_fields() {
    let e = obj(vec![
        ("identifier", obj(vec![("id", s("Pub.Name"))])),
        ("version", s("1.2.3")),
        ("metadata", obj(vec![("pinned", JsonValue::Bool(true)), ("source", s("vsix"))])),
        ("relativeLocation", s("pub.name-1.2.3")),
    ]);
    assert_eq!(entry_id(&e), Some("pub.name".to_owned()));
    assert_eq!(entry_version(&e), "1.2.3");
    assert!(entry_pinned(&e));
    assert_eq!(entry_source(&e), Some("vsix".to_owned()));
    assert_eq!(relative_location(&e), Some("pub.name-1.2.3".to_owned()));

    let bare = obj(vec![("identifier", obj(vec![("id", s("a.b@1.0"))]))]);
    assert_eq!(entry_id(&bare), Some("a.b".to_owned()));
    assert_eq!(entry_version(&bare), "");
    assert!(!entry_pinned(&bare));
    assert_eq!(entry_source(&bare), None);
    assert_eq!(relative_location(&bare), None);

    // `identifier` is required and `id` must be a string.
    assert_eq!(entry_id(&obj(vec![("version", s("1"))])), None);
    assert_eq!(
        entry_id(&obj(vec![("identifier", obj(vec![("id", JsonValue::Bool(true))]))])),
        None
    );
    // A one-element array stands for the record too.
    let arr = JsonValue::Array(vec![JsonValue::Array(vec![s("X.Y")])]);
    assert_eq!(entry_id(&arr), Some("x.y".to_owned()));
    assert_eq!(entry_id(&JsonValue::Array(vec![])), None);
    assert_eq!(entry_id(&s("x.y")), None);
}

#[test]
fn set_pinned_creates_metadata() {
    let mut e = entry("a.b", "1.0.0", None);
    set_pinned(&mut e, true);
    assert!(entry_pinned(&e));
    assert_eq!(entry_id(&e), Some("a.b".to_owned()));
    assert_eq!(entry_version(&e), "1.0.0");
    set_pinned(&mut e, false);
    assert!(!entry_pinned(&e));

    let mut odd = entry("a.b", "1.0.0", Some(JsonValue::Number("5".to_owned())));
    set_pinned(&mut odd, true);
    assert!(!entry_pinned(&odd));

    let mut not_object = s("x");
    set_pinned(&mut not_object, true);
    assert!(matches!(not_object, JsonValue::String(ref t) if t == "x"));
}

#[test]
fn membership_first_entry_wins() {
    let entries = vec![
        entry("A.B", "1.0.0", Some(obj(vec![("pinned", JsonValue::Bool(true))]))),
        entry("a.b", "2.0.0", None),
        entry("c.d", "3.0.0", None),
        obj(vec![("version", s("9"))]),
    ];
    let m = read_membership_file(&entries);
    assert_eq!(m.len(), 2);
    assert_eq!(
        m.get("a.b"),
        Some(&InstalledExt { version: "1.0.0".to_owned(), pinned: true })
    );
    assert_eq!(
        m.get("c.d"),
        Some(&InstalledExt { version: "3.0.0".to_owned(), pinned: false })
    );
    assert_eq!(m.key_at(0), "a.b");
    assert_eq!(m.key_at(1), "c.d");
}

#[test]
fn pool_catalog_keeps_first_entry() {
    let entries = vec![entry("a.b", "1.0.0", None), entry("A.B", "2.0.0", None)];
    let c = pool_catalog(&entries);
    assert_eq!(c.len(), 1);
    assert_eq!(entry_version(c.get("a.b").unwrap()), "1.0.0");
}

#[test]
fn remove_member_drops_every_entry_for_the_id() {
    let mut entries = vec![
        entry("a.b", "1.0.0", None),
        entry("c.d", "1.0.0", None),
        entry("A.B", "2.0.0", None),
    ];
    assert!(remove_member(&mut entries, "a.b"));
    assert_eq!(entries.len(), 1);
    assert_eq!(entry_id(&entries[0]), Some("c.d".to_owned()));
    assert!(!remove_member(&mut entries, "a.b"));
    assert_eq!(entries.len(), 1);
}

#[test]
fn set_membership_pinned_reports_changes() {
    let mut entries = vec![
        entry("a.b", "1.0.0", None),
        entry("c.d", "1.0.0", None),
    ];
    assert!(set_membership_pinned(&mut entries, "a.b"));
    assert!(entry_pinned(&entries[0]));
    assert!(!entry_pinned(&entries[1]));
    assert!(!set_membership_pinned(&mut entries, "a.b"));
    assert!(!set_membership_pinned(&mut entries, "x.y"));
}

#[test]
fn catalog_candidate_respects_pins() {
    let catalog = pool_catalog(&[entry("a.b", "1.0.0", None)]);
    let plain = catalog_candidate(&catalog, "a.b", None).unwrap();
    assert!(!entry_pinned(&plain));
    let pinned = catalog_candidate(&catalog, "a.b", Some("1.0.0")).unwrap();
    assert!(entry_pinned(&pinned));
    assert_eq!(entry_version(&pinned), "1.0.0");
    assert!(catalog_candidate(&catalog, "a.b", Some("2.0.0")).is_none());
    assert!(catalog_candidate(&catalog, "x.y", None).is_none());
}

#[test]
fn merge_member_replaces_stale_entries() {
    let mut entries = vec![entry("a.b", "1.0.0", None), entry("c.d", "1.0.0", None)];
    // Already a member and no pin requested: nothing to do.
    assert!(!merge_member(&mut entries, "a.b", entry("a.b", "2.0.0", None), None));
    assert_eq!(entries.len(), 2);
    assert_eq!(entry_version(&entries[0]), "1.0.0");
    // A pin is requested but the existing entry is not frozen: replace it.
    let mut fresh = entry("a.b", "2.0.0", None);
    set_pinned(&mut fresh, true);
    assert!(merge_member(&mut entries, "a.b", fresh, Some("2.0.0")));
    assert_eq!(entries.len(), 2);
    assert_eq!(entry_id(&entries[0]), Some("c.d".to_owned()));
    assert_eq!(entry_version(&entries[1]), "2.0.0");
    // Now satisfied at that version.
    assert!(!merge_member(&mut entries, "a.b", entry("a.b", "3.0.0", None), Some("2.0.0")));
    assert!(!merge_member(&mut entries, "a.b", entry("a.b", "3.0.0", None), None));
    // A new member is appended.
    assert!(merge_member(&mut entries, "e.f", entry("e.f", "1.0.0", None), None));
    assert_eq!(entries.len(), 3);
}

#[test]
fn merge_member_replaces_an_entry_pinned_at_another_version() {
    let mut old = entry("a.b", "1.0.0", None);
    set_pinned(&mut old, true);
    let mut entries = vec![old];
    let catalog = pool_catalog(&[entry("a.b", "2.0.0", None)]);
    let candidate = catalog_candidate(&catalog, "a.b", Some("2.0.0")).unwrap();
    assert!(merge_member(&mut entries, "a.b", candidate, Some("2.0.0")));
    assert_eq!(entries.len(), 1);
    assert_eq!(entry_version(&entries[0]), "2.0.0");
    assert!(entry_pinned(&entries[0]));
}

#[test]
fn relocate_entry_points_at_the_pool() {
    let e = entry("a.b", "1.0.0", None);
    let moved = relocate_entry(e, "/pool/a.b-1.0.0", true);
    let location = get(&moved, "location").unwrap();
    assert!(matches!(get(location, "path"), Some(JsonValue::String(p)) if p == "/pool/a.b-1.0.0"));
    assert!(matches!(get(location, "scheme"), Some(JsonValue::String(p)) if p == "file"));
    assert!(matches!(get(location, "$mid"), Some(JsonValue::Number(n)) if n == "1"));
    assert!(entry_pinned(&moved));
    let unpinned = relocate_entry(entry("a.b", "1.0.0", None), "/p", false);
    assert!(!entry_pinned(&unpinned));
}

#[test]
fn vendored_match_and_pins() {
    let e = obj(vec![
        ("identifier", obj(vec![("id", s("a.b"))])),
        ("version", s("1.0.0")),
        ("relativeLocation", s("a.b-1.0.0")),
    ]);
    assert_eq!(vendored_match(&e, "a.b"), Some("a.b-1.0.0".to_owned()));
    assert_eq!(vendored_match(&e, "c.d"), None);
    assert!(pin_satisfied(&e, None));
    assert!(pin_satisfied(&e, Some("1.0.0")));
    assert!(!pin_satisfied(&e, Some("1.0.1")));
}

#[test]
fn install_spec_adds_the_pin() {
    assert_eq!(install_spec("a.b", None), "a.b");
    assert_eq!(install_spec("a.b", Some("1.2.3")), "a.b@1.2.3");
}

#[test]
fn vendor_candidates_only_local_vsix() {
    let local = obj(vec![
        ("identifier", obj(vec![("id", s("a.b"))])),
        ("metadata", obj(vec![("source", s("vsix"))])),
        ("relativeLocation", s("a.b-1.0.0")),
    ]);
    let gallery = obj(vec![
        ("identifier", obj(vec![("id", s("c.d"))])),
        ("metadata", obj(vec![("source", s("gallery"))])),
        ("relativeLocation", s("c.d-1.0.0")),
    ]);
    let catalog = pool_catalog(&[local, gallery]);
    let mut ids = StrSet::new();
    ids.insert("c.d".to_owned());
    ids.insert("a.b".to_owned());
    ids.insert("x.y".to_owned());
    let found = vendor_candidates(&catalog, &ids);
    assert_eq!(found.len(), 1);
    assert_eq!(found[0].0, "a.b-1.0.0");
}

#[test]
fn add_method_variants_exist() {
    let methods = [AddMethod::Pool, AddMethod::Vendor, AddMethod::Cli];
    assert_eq!(methods.len(), 3);
}

#[test]
fn add_steps_try_pool_then_vendor_then_cli() {
    assert!(matches!(add_start(), AddAction::Run(AddStep::FromPool)));
    assert!(matches!(add_next(AddStep::FromPool, true, false), AddAction::Done(AddMethod::Pool)));
    assert!(matches!(add_next(AddStep::FromPool, false, false), AddAction::Run(AddStep::FromVendor)));
    assert!(matches!(add_next(AddStep::FromVendor, true, true), AddAction::Done(AddMethod::Vendor)));
    assert!(matches!(add_next(AddStep::FromVendor, false, true), AddAction::Run(AddStep::ViaCli)));
    assert!(matches!(add_next(AddStep::ViaCli, true, true), AddAction::Run(AddStep::Freeze)));
    assert!(matches!(add_next(AddStep::ViaCli, true, false), AddAction::Done(AddMethod::Cli)));
    assert!(matches!(add_next(AddStep::Freeze, true, true), AddAction::Done(AddMethod::Cli)));
}

#[test]
fn sidecar_names_end_in_entry_json() {
    assert!(is_sidecar_name("a.b-1.0.0.entry.json"));
    assert!(is_sidecar_name(".entry.json"));
    assert!(!is_sidecar_name("entry.json"));
    assert!(!is_sidecar_name("a.b-1.0.0.vsix"));
    assert!(!is_sidecar_name("a.b.entry.json.bak"));
}

#[test]
fn vendored_entries_are_found_again_under_their_sidecar() {
    let local = obj(vec![
        ("identifier", obj(vec![("id", s("A.B"))])),
        ("metadata", obj(vec![("source", s("vsix"))])),
        ("relativeLocation", s("a.b-1.0.0")),
    ]);
    let catalog = pool_catalog(&[local]);
    let mut ids = StrSet::new();
    ids.insert("a.b".to_owned());
    let found = vendor_candidates(&catalog, &ids);
    assert_eq!(found.len(), 1);
    let (rel, entry) = &found[0];
    let name = sidecar_name(rel);
    assert_eq!(name, "a.b-1.0.0.entry.json");
    assert!(is_sidecar_name(&name));
    assert_eq!(vendored_match(entry, "a.b"), Some(rel.clone()));
}
