use code_profile_manager::config::{
    normalize_id, strip_null_settings, Config, DefaultProfile, EditorRef, Layer, ProfileConfig,
    Resolved,
};
use code_profile_manager::json::JsonValue;
use code_profile_manager::keymap::StrMap;

fn settings(pairs: &[(&str, &str)]) -> StrMap<JsonValue> {
    let mut m = StrMap::new();
    for (k, v) in pairs {
        m.insert((*k).to_owned(), JsonValue::String((*v).to_owned()));
    }
    m
}

fn strings(items: &[&str]) -> Vec<String> {
    items.iter().map(|s| (*s).to_owned()).collect()
}

fn text(v: Option<&JsonValue>) -> Option<&str> {
    match v {
        Some(JsonValue::String(s)) => Some(s.as_str()),
        _ => None,
    }
}

fn profile(groups: &[&str]) -> ProfileConfig {
    ProfileConfig {
        icon: None,
        groups: strings(groups),
        settings: StrMap::new(),
        extensions: Vec::new(),
        exclude_extensions: Vec::new(),
        use_default: StrMap::new(),
    }
}

fn sample() -> Config {
    let mut groups = StrMap::new();
    groups.insert(
        "web".to_owned(),
        Layer {
            settings: settings(&[("editor.defaultFormatter", "esbenp.prettier-vscode"), ("a", "web")]),
            extensions: strings(&["dbaeumer.vscode-eslint", "esbenp.prettier-vscode"]),
        },
    );
    groups.insert(
        "late".to_owned(),
        Layer { settings: settings(&[("a", "late")]), extensions: strings(&["Late.Ext@2.0"]) },
    );
    let mut profiles = StrMap::new();
    let mut rust = profile(&[]);
    rust.icon = Some("package".to_owned());
    rust.extensions = strings(&["rust-lang.rust-analyzer", "tamasfe.even-better-toml"]);
    let mut use_default = StrMap::new();
    use_default.insert("keybindings".to_owned(), true);
    rust.use_default = use_default;
    profiles.insert("Rust".to_owned(), rust);

    let mut web = profile(&["web", "missing", "late"]);
    web.icon = Some("briefcase".to_owned());
    web.exclude_extensions = strings(&["UsernameHW.ErrorLens@1.0"]);
    web.settings = settings(&[("editor.tabSize", "2")]);
    profiles.insert("TaqsWeb V2".to_owned(), web);

    Config {
        editor: EditorRef { name: Some("VSCodium".to_owned()), binary: None, user_dir: None, extensions_dir: None },
        global: Layer {
            settings: settings(&[("editor.formatOnSave", "true"), ("editor.tabSize", "4"), ("a", "global")]),
            extensions: strings(&["editorconfig.editorconfig", "usernamehw.errorlens"]),
        },
        groups,
        default: DefaultProfile {
            groups: strings(&["late"]),
            settings: settings(&[("editor.tabSize", "8")]),
            extensions: strings(&["brunnerh.insert-unicode"]),
            exclude_extensions: strings(&["editorconfig.editorconfig"]),
        },
        profiles,
    }
}

fn empty_default() -> DefaultProfile {
    DefaultProfile {
        groups: Vec::new(),
        settings: StrMap::new(),
        extensions: Vec::new(),
        exclude_extensions: Vec::new(),
    }
}

#[test]
fn normalize_id_drops_pin_trims_and_lowercases() {
    assert_eq!(normalize_id("Publisher.Name@1.2.3"), "publisher.name");
    assert_eq!(normalize_id("  Rust-Lang.Rust-Analyzer  "), "rust-lang.rust-analyzer");
    assert_eq!(normalize_id("a.b"), "a.b");
    assert_eq!(normalize_id("@1.0"), "");
    assert_eq!(normalize_id(" A.B @x@y"), "a.b");
}

#[test]
fn resolve_layers_global_groups_profile() {
    let config = sample();
    let out = config.resolve();
    assert_eq!(out.len(), 2);
    assert_eq!(out.key_at(0), "Rust");
    assert_eq!(out.key_at(1), "TaqsWeb V2");

    let web = out.get("TaqsWeb V2").unwrap();
    // Profile wins over global.
    assert_eq!(text(web.settings.get("editor.tabSize")), Some("2"));
    // Global reaches the profile.
    assert_eq!(text(web.settings.get("editor.formatOnSave")), Some("true"));
    // Groups apply in listed order: `late` comes after `web`.
    assert_eq!(text(web.settings.get("a")), Some("late"));
    assert_eq!(
        text(web.settings.get("editor.defaultFormatter")),
        Some("esbenp.prettier-vscode")
    );
    assert!(web.extensions.contains("editorconfig.editorconfig"));
    assert!(web.extensions.contains("dbaeumer.vscode-eslint"));
    assert!(web.extensions.contains("late.ext"));
    // Excluded (normalized) even though global adds it.
    assert!(!web.extensions.contains("usernamehw.errorlens"));
    assert_eq!(web.icon.as_deref(), Some("briefcase"));
    assert_eq!(web.use_default.len(), 0);

    let rust = out.get("Rust").unwrap();
    assert_eq!(text(rust.settings.get("editor.tabSize")), Some("4"));
    assert_eq!(text(rust.settings.get("a")), Some("global"));
    assert!(rust.extensions.contains("usernamehw.errorlens"));
    assert!(rust.extensions.contains("rust-lang.rust-analyzer"));
    assert!(!rust.extensions.contains("dbaeumer.vscode-eslint"));
    assert_eq!(rust.extensions.len(), 4);
    assert_eq!(rust.extensions.item_at(0), "editorconfig.editorconfig");
    assert_eq!(rust.use_default.get("keybindings"), Some(&true));
    assert_eq!(rust.icon.as_deref(), Some("package"));
}

#[test]
fn resolve_of_empty_config_is_empty() {
    let config = Config {
        editor: EditorRef { name: None, binary: None, user_dir: None, extensions_dir: None },
        global: Layer { settings: StrMap::new(), extensions: Vec::new() },
        groups: StrMap::new(),
        default: empty_default(),
        profiles: StrMap::new(),
    };
    assert_eq!(config.resolve().len(), 0);
    let d = config.resolve_default();
    assert_eq!(d.settings.len(), 0);
    assert_eq!(d.extensions.len(), 0);
    assert!(!config.has_reserved_profile());
}

#[test]
fn default_profile_layers_like_any_profile() {
    let mut config = sample();
    let d = config.resolve_default();
    assert_eq!(text(d.settings.get("editor.tabSize")), Some("8"));
    assert_eq!(text(d.settings.get("a")), Some("late"));
    assert!(d.extensions.contains("brunnerh.insert-unicode"));
    assert!(d.extensions.contains("late.ext"));
    assert!(d.extensions.contains("usernamehw.errorlens"));
    assert!(!d.extensions.contains("editorconfig.editorconfig"));
    assert!(d.icon.is_none());
    assert_eq!(d.use_default.len(), 0);

    assert!(!config.has_reserved_profile());
    config.profiles.insert("Default".to_owned(), profile(&[]));
    assert!(config.has_reserved_profile());
}

#[test]
fn hoisting_a_shared_extension_into_global_keeps_the_resolved_state() {
    let mut before = sample();
    for name in ["Rust", "TaqsWeb V2"] {
        let mut p = before.profiles.remove(name).unwrap();
        p.extensions.push("Shared.Tool@1.2".to_owned());
        before.profiles.insert(name.to_owned(), p);
    }
    let mut after = sample();
    after.global.extensions.push("Shared.Tool@1.2".to_owned());

    let a = before.resolve();
    let b = after.resolve();
    assert_eq!(format!("{a:?}"), format!("{b:?}"));
    assert!(b.get("Rust").unwrap().extensions.contains("shared.tool"));
    assert!(b.get("TaqsWeb V2").unwrap().extensions.contains("shared.tool"));
}

#[test]
fn hoisting_a_shared_setting_into_global_keeps_the_resolved_state() {
    let mut before = sample();
    for name in ["Rust", "TaqsWeb V2"] {
        let mut p = before.profiles.remove(name).unwrap();
        p.settings.insert("files.eol".to_owned(), JsonValue::String("\n".to_owned()));
        before.profiles.insert(name.to_owned(), p);
    }
    let mut after = sample();
    after.global.settings.insert("files.eol".to_owned(), JsonValue::String("\n".to_owned()));

    let a = before.resolve();
    let b = after.resolve();
    assert_eq!(format!("{a:?}"), format!("{b:?}"));
    assert_eq!(text(b.get("Rust").unwrap().settings.get("files.eol")), Some("\n"));
}

#[test]
fn null_settings_are_stripped_for_writing() {
    let mut m = StrMap::new();
    m.insert("gone".to_owned(), JsonValue::Null);
    m.insert("kept".to_owned(), JsonValue::Bool(true));
    m.insert(
        "nested".to_owned(),
        JsonValue::Object(vec![
            ("a".to_owned(), JsonValue::Null),
            ("b".to_owned(), JsonValue::Array(vec![JsonValue::Null, JsonValue::Number("1".to_owned())])),
        ]),
    );
    let out = strip_null_settings(&m);
    assert_eq!(out.len(), 2);
    assert!(out.get("gone").is_none());
    assert!(matches!(out.get("kept"), Some(JsonValue::Bool(true))));
    match out.get("nested") {
        Some(JsonValue::Object(fields)) => {
            assert_eq!(fields.len(), 1);
            assert_eq!(fields[0].0, "b");
            match &fields[0].1 {
                JsonValue::Array(items) => {
                    assert_eq!(items.len(), 1);
                    assert!(matches!(&items[0], JsonValue::Number(n) if n == "1"));
                }
                other => panic!("unexpected {other:?}"),
            }
        }
        other => panic!("unexpected {other:?}"),
    }
}

#[test]
fn defaults_are_empty_and_clones_resolve_alike() {
    let config = Config::default();
    assert!(config.editor.name.is_none());
    assert_eq!(config.global.settings.len(), 0);
    assert_eq!(config.profiles.len(), 0);
    assert_eq!(config.resolve().len(), 0);
    assert_eq!(ProfileConfig::default().groups.len(), 0);
    assert_eq!(DefaultProfile::default().extensions.len(), 0);
    assert_eq!(Resolved::default().extensions.len(), 0);
    assert_eq!(Layer::default().extensions.len(), 0);

    let original = sample();
    let copy = original.clone();
    assert_eq!(format!("{:?}", original.resolve()), format!("{:?}", copy.resolve()));
}
