//! The declarative config: desired state for an editor's profiles.
//!
//! The config layers `global` settings/extensions, reusable `groups`, and
//! per-profile overrides into an effective desired state per profile (see
//! [`Config::resolve`]).

use vstd::prelude::*;

use std::path::PathBuf;

use crate::json::{without_nulls, Json, JsonValue};
use crate::keymap::{lex_lt, lemma_lex_irreflexive, Duplicate, StrMap, StrSet};
use crate::text::{
    chars_of, copy_range, lemma_segment_len, opt_string_view, segment_len, string_of, to_lowercase,
    trim, trimmed, unicode_lowercase,
};

verus! {

#[verifier::external_type_specification]
#[verifier::external_body]
pub struct ExPathBuf(PathBuf);

/// Trusted: `PathBuf::clone` (std's `Clone` for `PathBuf`) returns a copy of the
/// path. Paths are opaque to this library, so nothing is stated of the copy;
/// it is declared so that the types holding paths can derive `Clone`.
pub assume_specification[ <PathBuf as Clone>::clone ](p: &PathBuf) -> PathBuf;

// ---------------------------------------------------------------------------
// Extension identifiers
// ---------------------------------------------------------------------------

/// The `@` that introduces a version pin.
pub open spec fn is_at_sign(c: char) -> bool {
    c == '@'
}

/// The part of an extension spec before its first `@` (the whole spec when
/// there is none).
pub open spec fn id_without_pin(spec: Seq<char>) -> Seq<char> {
    spec.take(segment_len(spec, |c: char| is_at_sign(c)) as int)
}

/// The normalized form of an extension spec: the version pin dropped, white
/// space trimmed, and lowercased.
pub open spec fn normalized_id(spec: Seq<char>) -> Seq<char> {
    unicode_lowercase(trimmed(id_without_pin(spec)))
}

/// The normalized identifiers of a list of extension specs.
pub open spec fn normalized_ids(specs: Seq<Seq<char>>) -> Set<Seq<char>> {
    specs.map_values(|s: Seq<char>| normalized_id(s)).to_set()
}

/// The character sequences of a list of strings.
pub open spec fn strings_view(v: Seq<String>) -> Seq<Seq<char>> {
    v.map_values(|s: String| s@)
}

/// Normalize an extension identifier for set membership: drop any `@version`
/// pin, trim, and lowercase (`publisher.name` is case-insensitive).
pub fn normalize_id(spec: &str) -> (r: String)
    ensures
        r@ == normalized_id(spec@),
{
    let chars = chars_of(spec);
    let mut n: usize = 0;
    while n < chars.len() && chars[n] != '@'
        invariant
            n <= chars@.len(),
            forall|k: int| 0 <= k < n ==> chars@[k] != '@',
        decreases chars@.len() - n,
    {
        n = n + 1;
    }
    proof {
        lemma_segment_len(chars@, |c: char| is_at_sign(c), n as int);
    }
    let id = copy_range(&chars, 0, n);
    assert(id@ == id_without_pin(spec@));
    let trimmed_id = trim(&id);
    let text = string_of(&trimmed_id);
    to_lowercase(text.as_str())
}

/// Extending a spec list by one element adds its normalized form.
proof fn lemma_normalized_ids_step(specs: Seq<String>, i: int)
    requires
        0 <= i < specs.len(),
    ensures
        normalized_ids(strings_view(specs.take(i + 1))) == normalized_ids(
            strings_view(specs.take(i)),
        ).insert(normalized_id(specs[i]@)),
{
    let f = |s: Seq<char>| normalized_id(s);
    assert(strings_view(specs.take(i + 1)) == strings_view(specs.take(i)).push(specs[i]@));
    let a = strings_view(specs.take(i)).map_values(f);
    assert(strings_view(specs.take(i + 1)).map_values(f) == a.push(normalized_id(specs[i]@)));
    a.lemma_push_to_set_commute(normalized_id(specs[i]@));
}

/// Adds the normalized form of each spec in `specs` to `set`.
fn add_normalized(set: &mut StrSet, specs: &Vec<String>)
    ensures
        final(set)@ == old(set)@.union(normalized_ids(strings_view(specs@))),
{
    let ghost start = set@;
    for i in 0..specs.len()
        invariant
            start == old(set)@,
            set@ == start.union(normalized_ids(strings_view(specs@.take(i as int)))),
    {
        let id = normalize_id(specs[i].as_str());
        set.insert(id);
        proof {
            lemma_normalized_ids_step(specs@, i as int);
        }
    }
    assert(specs@.take(specs@.len() as int) == specs@);
}

/// Removes the normalized form of each spec in `specs` from `set`.
fn remove_normalized(set: &mut StrSet, specs: &Vec<String>)
    ensures
        final(set)@ == old(set)@.difference(normalized_ids(strings_view(specs@))),
{
    let ghost start = set@;
    for i in 0..specs.len()
        invariant
            start == old(set)@,
            set@ == start.difference(normalized_ids(strings_view(specs@.take(i as int)))),
    {
        let id = normalize_id(specs[i].as_str());
        set.remove(id.as_str());
        proof {
            lemma_normalized_ids_step(specs@, i as int);
        }
    }
    assert(specs@.take(specs@.len() as int) == specs@);
}

// ---------------------------------------------------------------------------
// Config documents
// ---------------------------------------------------------------------------

/// How the config refers to / overrides the target editor.
#[derive(Debug, Clone)]
pub struct EditorRef {
    /// Editor name (`nameShort`/`applicationName`) to match during discovery.
    pub name: Option<String>,
    /// Explicit launcher path, bypassing PATH discovery.
    pub binary: Option<PathBuf>,
    /// Override for the editor's `User/` directory.
    pub user_dir: Option<PathBuf>,
    /// Override for the shared extensions directory.
    pub extensions_dir: Option<PathBuf>,
}

/// A reusable bundle of settings and extensions (`global` and `groups`).
#[derive(Debug, Clone)]
pub struct Layer {
    /// Settings keys applied to profiles using this layer.
    pub settings: StrMap<JsonValue>,
    /// Extension IDs (`publisher.name`) applied to profiles using this layer.
    pub extensions: Vec<String>,
}

/// The contents of a [`Layer`].
pub struct LayerView {
    pub settings: Map<Seq<char>, Json>,
    pub extensions: Seq<Seq<char>>,
}

impl View for Layer {
    type V = LayerView;

    open spec fn view(&self) -> LayerView {
        LayerView { settings: self.settings@, extensions: strings_view(self.extensions@) }
    }
}

/// Per-profile configuration.
#[derive(Debug, Clone)]
pub struct ProfileConfig {
    /// Codicon ID used as the profile icon.
    pub icon: Option<String>,
    /// Names of groups this profile includes.
    pub groups: Vec<String>,
    /// Profile-specific settings (highest precedence).
    pub settings: StrMap<JsonValue>,
    /// Profile-specific extensions.
    pub extensions: Vec<String>,
    /// Extension IDs to drop even if a group/global adds them.
    pub exclude_extensions: Vec<String>,
    /// Resource types this profile inherits from Default (`useDefaultFlags`).
    pub use_default: StrMap<bool>,
}

/// The contents of a [`ProfileConfig`].
pub struct ProfileView {
    pub icon: Option<Seq<char>>,
    pub groups: Seq<Seq<char>>,
    pub settings: Map<Seq<char>, Json>,
    pub extensions: Seq<Seq<char>>,
    pub exclude_extensions: Seq<Seq<char>>,
    pub use_default: Map<Seq<char>, bool>,
}

impl View for ProfileConfig {
    type V = ProfileView;

    open spec fn view(&self) -> ProfileView {
        ProfileView {
            icon: opt_string_view(self.icon),
            groups: strings_view(self.groups@),
            settings: self.settings@,
            extensions: strings_view(self.extensions@),
            exclude_extensions: strings_view(self.exclude_extensions@),
            use_default: self.use_default@,
        }
    }
}

/// The built-in Default profile (`[default]`): the fields of a named profile
/// except `icon` and `use_default`.
#[derive(Debug, Clone)]
pub struct DefaultProfile {
    /// Names of groups this profile includes.
    pub groups: Vec<String>,
    /// Profile-specific settings (highest precedence).
    pub settings: StrMap<JsonValue>,
    /// Profile-specific extensions.
    pub extensions: Vec<String>,
    /// Extension IDs to drop even if a group/global adds them.
    pub exclude_extensions: Vec<String>,
}

/// The Default profile seen as a profile with no icon and nothing inherited.
pub open spec fn default_view(d: DefaultProfile) -> ProfileView {
    ProfileView {
        icon: None,
        groups: strings_view(d.groups@),
        settings: d.settings@,
        extensions: strings_view(d.extensions@),
        exclude_extensions: strings_view(d.exclude_extensions@),
        use_default: Map::empty(),
    }
}

/// Top-level config document.
#[derive(Debug, Clone)]
pub struct Config {
    pub editor: EditorRef,
    pub global: Layer,
    pub groups: StrMap<Layer>,
    /// The built-in Default profile.
    pub default: DefaultProfile,
    pub profiles: StrMap<ProfileConfig>,
}

/// The name of the built-in profile, which `profiles` may not use.
pub open spec fn default_profile_name() -> Seq<char> {
    "Default"@
}

/// Effective desired state for one profile after layering.
#[derive(Debug, Clone)]
pub struct Resolved {
    pub settings: StrMap<JsonValue>,
    pub extensions: StrSet,
    pub icon: Option<String>,
    pub use_default: StrMap<bool>,
}

/// The contents of a [`Resolved`].
pub struct ResolvedView {
    pub settings: Map<Seq<char>, Json>,
    pub extensions: Set<Seq<char>>,
    pub icon: Option<Seq<char>>,
    pub use_default: Map<Seq<char>, bool>,
}

impl View for Resolved {
    type V = ResolvedView;

    open spec fn view(&self) -> ResolvedView {
        ResolvedView {
            settings: self.settings@,
            extensions: self.extensions@,
            icon: opt_string_view(self.icon),
            use_default: self.use_default@,
        }
    }
}

// ---------------------------------------------------------------------------
// Writing
// ---------------------------------------------------------------------------

/// Settings as they are written: TOML has no null, so a setting whose value
/// is `null` is dropped and every other value loses its nested nulls.
pub open spec fn settings_without_nulls(m: Map<Seq<char>, Json>) -> Map<Seq<char>, Json> {
    Map::new(|k: Seq<char>| m.contains_key(k) && !(m[k] is Null), |k: Seq<char>| without_nulls(m[k]))
}

/// The settings to write for `m`: nulls stripped (see [`settings_without_nulls`]).
pub fn strip_null_settings(m: &StrMap<JsonValue>) -> (r: StrMap<JsonValue>)
    ensures
        r@ == settings_without_nulls(m@),
{
    let n = m.len();
    let mut out: StrMap<JsonValue> = StrMap::new();
    for i in 0..n
        invariant
            n == m.spec_len(),
            forall|k: Seq<char>| #[trigger]
                m@.contains_key(k) <==> exists|j: int| 0 <= j < n && m.spec_key(j) == k,
            forall|j: int| 0 <= j < n ==> m@[m.spec_key(j)] == #[trigger] m.spec_value(j),
            forall|a: int, b: int|
                0 <= a < b < n ==> lex_lt(#[trigger] m.spec_key(a), #[trigger] m.spec_key(b)),
            forall|k: Seq<char>| #[trigger]
                out@.contains_key(k) <==> exists|j: int|
                    0 <= j < i && m.spec_key(j) == k && !(m.spec_value(j) is Null),
            forall|j: int|
                0 <= j < i && !(m.spec_value(j) is Null) ==> out@[#[trigger] m.spec_key(j)]
                    == without_nulls(m.spec_value(j)),
    {
        let k = m.key_at(i);
        let v = m.value_at(i);
        let is_null = match v {
            JsonValue::Null => true,
            _ => false,
        };
        let ghost before = out@;
        if !is_null {
            out.insert(k.clone(), v.strip_nulls());
        }
        assert forall|j: int|
            0 <= j < i + 1 && !(m.spec_value(j) is Null) implies out@[#[trigger] m.spec_key(j)]
            == without_nulls(m.spec_value(j)) by {
            if j < i {
                lemma_lex_irreflexive(m.spec_key(j));
                assert(lex_lt(m.spec_key(j), m.spec_key(i as int)));
            }
        }
        assert forall|kk: Seq<char>| #[trigger]
            out@.contains_key(kk) <==> exists|j: int|
                0 <= j < i + 1 && m.spec_key(j) == kk && !(m.spec_value(j) is Null) by {
            if out@.contains_key(kk) && kk == k@ && !is_null {
                assert(m.spec_key(i as int) == kk);
            }
            if exists|j: int| 0 <= j < i + 1 && m.spec_key(j) == kk && !(m.spec_value(j) is Null) {
                let j = choose|j: int| 0 <= j < i + 1 && m.spec_key(j) == kk && !(m.spec_value(j) is Null);
                if j < i {
                    assert(before.contains_key(kk));
                }
            }
        }
    }
    assert(out@ =~= settings_without_nulls(m@)) by {
        assert forall|k: Seq<char>| #[trigger] out@.contains_key(k) implies out@[k] == without_nulls(
            m@[k],
        ) by {
            let j = choose|j: int| 0 <= j < n && m.spec_key(j) == k && !(m.spec_value(j) is Null);
        }
        assert forall|k: Seq<char>| settings_without_nulls(m@).contains_key(k) implies #[trigger] out@.contains_key(k) by {
            let j = choose|j: int| 0 <= j < n && m.spec_key(j) == k;
        }
    }
    out
}

// ---------------------------------------------------------------------------
// Layering
// ---------------------------------------------------------------------------

/// Settings after `global` and then each named group that exists, in order;
/// later layers win per top-level key.
pub open spec fn layered_settings(
    global: LayerView,
    groups: Map<Seq<char>, LayerView>,
    names: Seq<Seq<char>>,
) -> Map<Seq<char>, Json>
    decreases names.len(),
{
    if names.len() == 0 {
        global.settings
    } else {
        let below = layered_settings(global, groups, names.drop_last());
        if groups.contains_key(names.last()) {
            below.union_prefer_right(groups[names.last()].settings)
        } else {
            below
        }
    }
}

/// Normalized extension IDs of `global` and each named group that exists.
pub open spec fn layered_extensions(
    global: LayerView,
    groups: Map<Seq<char>, LayerView>,
    names: Seq<Seq<char>>,
) -> Set<Seq<char>>
    decreases names.len(),
{
    if names.len() == 0 {
        normalized_ids(global.extensions)
    } else {
        let below = layered_extensions(global, groups, names.drop_last());
        if groups.contains_key(names.last()) {
            below.union(normalized_ids(groups[names.last()].extensions))
        } else {
            below
        }
    }
}

/// The effective state of profile `p`: settings layered global → groups (in
/// listed order) → profile; extensions the union of all layers minus the
/// profile's exclusions; icon and `use_default` from the profile itself.
pub open spec fn resolved_spec(
    global: LayerView,
    groups: Map<Seq<char>, LayerView>,
    p: ProfileView,
) -> ResolvedView {
    ResolvedView {
        settings: layered_settings(global, groups, p.groups).union_prefer_right(p.settings),
        extensions: layered_extensions(global, groups, p.groups).union(
            normalized_ids(p.extensions),
        ).difference(normalized_ids(p.exclude_extensions)),
        icon: p.icon,
        use_default: p.use_default,
    }
}

/// A copy of an optional string.
fn clone_opt(o: &Option<String>) -> (r: Option<String>)
    ensures
        opt_string_view(r) == opt_string_view(*o),
{
    match o {
        Some(s) => Some(s.clone()),
        None => None,
    }
}

/// A profile that sets, lists and inherits nothing.
pub open spec fn empty_profile_view() -> ProfileView {
    ProfileView {
        icon: None,
        groups: Seq::empty(),
        settings: Map::empty(),
        extensions: Seq::empty(),
        exclude_extensions: Seq::empty(),
        use_default: Map::empty(),
    }
}

/// A layer that sets and lists nothing.
pub open spec fn empty_layer_view() -> LayerView {
    LayerView { settings: Map::empty(), extensions: Seq::empty() }
}

impl Default for EditorRef {
    /// No name and no path overrides.
    fn default() -> (r: Self)
        ensures
            r.name is None,
            r.binary is None,
            r.user_dir is None,
            r.extensions_dir is None,
    {
        EditorRef { name: None, binary: None, user_dir: None, extensions_dir: None }
    }
}

impl Default for Layer {
    /// An empty layer.
    fn default() -> (r: Self)
        ensures
            r@ == empty_layer_view(),
    {
        let r = Layer { settings: StrMap::new(), extensions: Vec::new() };
        assert(strings_view(r.extensions@) =~= Seq::<Seq<char>>::empty());
        r
    }
}

impl Default for ProfileConfig {
    /// A profile with nothing set.
    fn default() -> (r: Self)
        ensures
            r@ == empty_profile_view(),
    {
        let r = ProfileConfig {
            icon: None,
            groups: Vec::new(),
            settings: StrMap::new(),
            extensions: Vec::new(),
            exclude_extensions: Vec::new(),
            use_default: StrMap::new(),
        };
        assert(strings_view(r.groups@) =~= Seq::<Seq<char>>::empty());
        assert(strings_view(r.extensions@) =~= Seq::<Seq<char>>::empty());
        assert(strings_view(r.exclude_extensions@) =~= Seq::<Seq<char>>::empty());
        r
    }
}

impl Default for DefaultProfile {
    /// A Default profile with nothing set.
    fn default() -> (r: Self)
        ensures
            default_view(r) == empty_profile_view(),
    {
        let r = DefaultProfile {
            groups: Vec::new(),
            settings: StrMap::new(),
            extensions: Vec::new(),
            exclude_extensions: Vec::new(),
        };
        assert(strings_view(r.groups@) =~= Seq::<Seq<char>>::empty());
        assert(strings_view(r.extensions@) =~= Seq::<Seq<char>>::empty());
        assert(strings_view(r.exclude_extensions@) =~= Seq::<Seq<char>>::empty());
        r
    }
}

impl Default for Config {
    /// A config with no editor overrides, empty layers and no profiles.
    fn default() -> (r: Self)
        ensures
            r.editor.name is None,
            r.editor.binary is None,
            r.editor.user_dir is None,
            r.editor.extensions_dir is None,
            r.global@ == empty_layer_view(),
            r.groups@ == Map::<Seq<char>, LayerView>::empty(),
            default_view(r.default) == empty_profile_view(),
            r.profiles@ == Map::<Seq<char>, ProfileView>::empty(),
    {
        Config {
            editor: EditorRef::default(),
            global: Layer::default(),
            groups: StrMap::new(),
            default: DefaultProfile::default(),
            profiles: StrMap::new(),
        }
    }
}

impl Default for Resolved {
    /// A state with no settings, extensions, icon or inherited resources.
    fn default() -> (r: Self)
        ensures
            r@ == (ResolvedView {
                settings: Map::empty(),
                extensions: Set::empty(),
                icon: None,
                use_default: Map::empty(),
            }),
    {
        Resolved {
            settings: StrMap::new(),
            extensions: StrSet::new(),
            icon: None,
            use_default: StrMap::new(),
        }
    }
}

impl Config {
    /// Effective desired state per profile (keyed by profile name).
    pub fn resolve(&self) -> (out: StrMap<Resolved>)
        ensures
            out@.dom() == self.profiles@.dom(),
            forall|name: Seq<char>| #[trigger]
                self.profiles@.contains_key(name) ==> out@[name] == resolved_spec(
                    self.global@,
                    self.groups@,
                    self.profiles@[name],
                ),
    {
        let mut out: StrMap<Resolved> = StrMap::new();
        let n = self.profiles.len();
        for i in 0..n
            invariant
                n == self.profiles.spec_len(),
                forall|k: Seq<char>| #[trigger] self.profiles@.contains_key(k) <==> exists|j: int|
                    0 <= j < n && self.profiles.spec_key(j) == k,
                forall|k: Seq<char>| #[trigger] out@.contains_key(k) <==> exists|j: int|
                    0 <= j < i && self.profiles.spec_key(j) == k,
                forall|k: Seq<char>| #[trigger] out@.contains_key(k) ==> self.profiles@.contains_key(k)
                    && out@[k] == resolved_spec(self.global@, self.groups@, self.profiles@[k]),
        {
            let name = self.profiles.key_at(i);
            let profile = self.profiles.value_at(i);
            let resolved = self.resolve_profile(profile);
            let ghost before = out@;
            out.insert(name.clone(), resolved);
            proof {
                assert forall|k: Seq<char>| #[trigger] out@.contains_key(k) <==> exists|j: int|
                    0 <= j < i + 1 && self.profiles.spec_key(j) == k by {
                    if k == name@ {
                        assert(self.profiles.spec_key(i as int) == k);
                    }
                    if exists|j: int| 0 <= j < i + 1 && self.profiles.spec_key(j) == k {
                        let j = choose|j: int| 0 <= j < i + 1 && self.profiles.spec_key(j) == k;
                        if j < i {
                            assert(before.contains_key(k));
                        }
                    }
                }
            }
        }
        proof {
            assert forall|k: Seq<char>| #[trigger] out@.dom().contains(k) == self.profiles@.dom().contains(k) by {
                if self.profiles@.contains_key(k) {
                    assert(out@.contains_key(k));
                }
            }
            assert(out@.dom() =~= self.profiles@.dom());
        }
        out
    }

    /// Settings and extensions layered for a profile with the given groups,
    /// own settings, extensions and exclusions.
    fn resolve_layers(
        &self,
        group_names: &Vec<String>,
        own_settings: &StrMap<JsonValue>,
        own_extensions: &Vec<String>,
        excluded: &Vec<String>,
    ) -> (r: (StrMap<JsonValue>, StrSet))
        ensures
            r.0@ == layered_settings(self.global@, self.groups@, strings_view(group_names@)).union_prefer_right(own_settings@),
            r.1@ == layered_extensions(self.global@, self.groups@, strings_view(group_names@)).union(
                normalized_ids(strings_view(own_extensions@)),
            ).difference(normalized_ids(strings_view(excluded@))),
    {
        let mut settings = self.global.settings.duplicate();
        let mut extensions = StrSet::new();
        add_normalized(&mut extensions, &self.global.extensions);
        assert(extensions@ =~= layered_extensions(self.global@, self.groups@, Seq::empty()));
        let ghost names = strings_view(group_names@);
        assert(names.take(0) == Seq::<Seq<char>>::empty());
        for i in 0..group_names.len()
            invariant
                names == strings_view(group_names@),
                settings@ == layered_settings(self.global@, self.groups@, names.take(i as int)),
                extensions@ == layered_extensions(self.global@, self.groups@, names.take(i as int)),
        {
            assert(names.take(i + 1).drop_last() == names.take(i as int));
            assert(names.take(i + 1).last() == group_names@[i as int]@);
            match self.groups.get(group_names[i].as_str()) {
                Some(group) => {
                    settings.extend_from(&group.settings);
                    add_normalized(&mut extensions, &group.extensions);
                },
                None => {},
            }
        }
        assert(names.take(names.len() as int) == names);
        settings.extend_from(own_settings);
        add_normalized(&mut extensions, own_extensions);
        remove_normalized(&mut extensions, excluded);
        (settings, extensions)
    }

    /// The effective state of one profile.
    fn resolve_profile(&self, profile: &ProfileConfig) -> (r: Resolved)
        ensures
            r@ == resolved_spec(self.global@, self.groups@, profile@),
    {
        let (settings, extensions) = self.resolve_layers(
            &profile.groups,
            &profile.settings,
            &profile.extensions,
            &profile.exclude_extensions,
        );
        Resolved {
            settings,
            extensions,
            icon: clone_opt(&profile.icon),
            use_default: profile.use_default.duplicate(),
        }
    }

    /// Effective desired state of the built-in Default profile, layered like
    /// any other profile.
    pub fn resolve_default(&self) -> (r: Resolved)
        ensures
            r@ == resolved_spec(self.global@, self.groups@, default_view(self.default)),
    {
        let (settings, extensions) = self.resolve_layers(
            &self.default.groups,
            &self.default.settings,
            &self.default.extensions,
            &self.default.exclude_extensions,
        );
        let use_default: StrMap<bool> = StrMap::new();
        Resolved { settings, extensions, icon: None, use_default }
    }

    /// Whether `profiles` holds an entry named `Default`, which a config may
    /// not contain (the Default profile is configured under `default`).
    pub fn has_reserved_profile(&self) -> (r: bool)
        ensures
            r == self.profiles@.contains_key(default_profile_name()),
    {
        self.profiles.contains_key("Default")
    }
}

// ---------------------------------------------------------------------------
// Laws of layering
// ---------------------------------------------------------------------------

/// The profile's own settings have the highest precedence: every key the
/// profile sets resolves to the profile's value.
pub proof fn law_profile_settings_win(
    global: LayerView,
    groups: Map<Seq<char>, LayerView>,
    p: ProfileView,
    key: Seq<char>,
)
    requires
        p.settings.contains_key(key),
    ensures
        resolved_spec(global, groups, p).settings.contains_key(key),
        resolved_spec(global, groups, p).settings[key] == p.settings[key],
{
}

/// Layering never loses a global key, and a key that no listed group sets
/// keeps its global value.
proof fn lemma_layered_settings_global(
    global: LayerView,
    groups: Map<Seq<char>, LayerView>,
    names: Seq<Seq<char>>,
    key: Seq<char>,
)
    requires
        global.settings.contains_key(key),
    ensures
        layered_settings(global, groups, names).contains_key(key),
        (forall|i: int|
            0 <= i < names.len() && groups.contains_key(#[trigger] names[i])
                ==> !groups[names[i]].settings.contains_key(key)) ==> layered_settings(
            global,
            groups,
            names,
        )[key] == global.settings[key],
    decreases names.len(),
{
    if names.len() > 0 {
        let d = names.drop_last();
        lemma_layered_settings_global(global, groups, d, key);
        if forall|i: int|
            0 <= i < names.len() && groups.contains_key(#[trigger] names[i])
                ==> !groups[names[i]].settings.contains_key(key) {
            assert forall|i: int|
                0 <= i < d.len() && groups.contains_key(#[trigger] d[i]) implies !groups[d[i]].settings.contains_key(
                key,
            ) by {
                assert(d[i] == names[i]);
            }
            assert(names.last() == names[names.len() - 1]);
        }
    }
}

/// A global setting reaches every profile: it is present in the resolved
/// settings, and keeps its global value unless a listed group or the profile
/// itself sets that key.
pub proof fn law_global_settings_reach_profiles(
    global: LayerView,
    groups: Map<Seq<char>, LayerView>,
    p: ProfileView,
    key: Seq<char>,
)
    requires
        global.settings.contains_key(key),
    ensures
        resolved_spec(global, groups, p).settings.contains_key(key),
        !p.settings.contains_key(key) && (forall|i: int|
            0 <= i < p.groups.len() && groups.contains_key(#[trigger] p.groups[i])
                ==> !groups[p.groups[i]].settings.contains_key(key)) ==> resolved_spec(
            global,
            groups,
            p,
        ).settings[key] == global.settings[key],
{
    lemma_layered_settings_global(global, groups, p.groups, key);
}

/// A listed group's setting overrides global and earlier groups: when the
/// last listed group that sets a key is the group at position `i`, and the
/// profile does not set it, the key resolves to that group's value.
pub proof fn law_later_group_wins(
    global: LayerView,
    groups: Map<Seq<char>, LayerView>,
    p: ProfileView,
    key: Seq<char>,
    i: int,
)
    requires
        0 <= i < p.groups.len(),
        groups.contains_key(p.groups[i]),
        groups[p.groups[i]].settings.contains_key(key),
        forall|j: int|
            i < j < p.groups.len() && groups.contains_key(#[trigger] p.groups[j])
                ==> !groups[p.groups[j]].settings.contains_key(key),
        !p.settings.contains_key(key),
    ensures
        resolved_spec(global, groups, p).settings.contains_key(key),
        resolved_spec(global, groups, p).settings[key] == groups[p.groups[i]].settings[key],
{
    lemma_later_group_wins(global, groups, p.groups, key, i);
}

proof fn lemma_later_group_wins(
    global: LayerView,
    groups: Map<Seq<char>, LayerView>,
    names: Seq<Seq<char>>,
    key: Seq<char>,
    i: int,
)
    requires
        0 <= i < names.len(),
        groups.contains_key(names[i]),
        groups[names[i]].settings.contains_key(key),
        forall|j: int|
            i < j < names.len() && groups.contains_key(#[trigger] names[j])
                ==> !groups[names[j]].settings.contains_key(key),
    ensures
        layered_settings(global, groups, names).contains_key(key),
        layered_settings(global, groups, names)[key] == groups[names[i]].settings[key],
    decreases names.len(),
{
    let d = names.drop_last();
    if i < names.len() - 1 {
        assert forall|j: int|
            i < j < d.len() && groups.contains_key(#[trigger] d[j]) implies !groups[d[j]].settings.contains_key(
            key,
        ) by {
            assert(d[j] == names[j]);
        }
        assert(d[i] == names[i]);
        lemma_later_group_wins(global, groups, d, key, i);
        assert(names.last() == names[names.len() - 1]);
    }
}

/// The normalized form of each listed spec is in the normalized set.
proof fn lemma_normalized_ids_contains(specs: Seq<Seq<char>>, i: int)
    requires
        0 <= i < specs.len(),
    ensures
        normalized_ids(specs).contains(normalized_id(specs[i])),
{
    let m = specs.map_values(|s: Seq<char>| normalized_id(s));
    assert(m[i] == normalized_id(specs[i]));
}

/// Layering never loses a global extension.
proof fn lemma_layered_extensions_global(
    global: LayerView,
    groups: Map<Seq<char>, LayerView>,
    names: Seq<Seq<char>>,
    id: Seq<char>,
)
    requires
        normalized_ids(global.extensions).contains(id),
    ensures
        layered_extensions(global, groups, names).contains(id),
    decreases names.len(),
{
    if names.len() > 0 {
        lemma_layered_extensions_global(global, groups, names.drop_last(), id);
    }
}

/// Excluded extensions are never part of a resolved profile.
pub proof fn law_excluded_extensions_absent(
    global: LayerView,
    groups: Map<Seq<char>, LayerView>,
    p: ProfileView,
    i: int,
)
    requires
        0 <= i < p.exclude_extensions.len(),
    ensures
        !resolved_spec(global, groups, p).extensions.contains(
            normalized_id(p.exclude_extensions[i]),
        ),
{
    lemma_normalized_ids_contains(p.exclude_extensions, i);
}

/// Every extension a profile lists is part of it unless the profile excludes it.
pub proof fn law_profile_extensions_present(
    global: LayerView,
    groups: Map<Seq<char>, LayerView>,
    p: ProfileView,
    i: int,
)
    requires
        0 <= i < p.extensions.len(),
        !normalized_ids(p.exclude_extensions).contains(normalized_id(p.extensions[i])),
    ensures
        resolved_spec(global, groups, p).extensions.contains(normalized_id(p.extensions[i])),
{
    lemma_normalized_ids_contains(p.extensions, i);
}

/// Every global extension is part of every profile unless the profile excludes it.
pub proof fn law_global_extensions_present(
    global: LayerView,
    groups: Map<Seq<char>, LayerView>,
    p: ProfileView,
    i: int,
)
    requires
        0 <= i < global.extensions.len(),
        !normalized_ids(p.exclude_extensions).contains(normalized_id(global.extensions[i])),
    ensures
        resolved_spec(global, groups, p).extensions.contains(normalized_id(global.extensions[i])),
{
    lemma_normalized_ids_contains(global.extensions, i);
    lemma_layered_extensions_global(global, groups, p.groups, normalized_id(global.extensions[i]));
}

/// The normalized set of a list holds exactly the normalized forms of its
/// specs.
proof fn lemma_normalized_ids_iff(specs: Seq<Seq<char>>, x: Seq<char>)
    ensures
        normalized_ids(specs).contains(x) <==> exists|i: int|
            0 <= i < specs.len() && #[trigger] normalized_id(specs[i]) == x,
{
    let m = specs.map_values(|s: Seq<char>| normalized_id(s));
    if normalized_ids(specs).contains(x) {
        assert(m.contains(x));
        let i = choose|i: int| 0 <= i < m.len() && m[i] == x;
        assert(normalized_id(specs[i]) == x);
    }
    if exists|i: int| 0 <= i < specs.len() && #[trigger] normalized_id(specs[i]) == x {
        let i = choose|i: int| 0 <= i < specs.len() && #[trigger] normalized_id(specs[i]) == x;
        assert(m[i] == x);
        assert(m.contains(x));
    }
}

/// The layered extensions are exactly the normalized forms of the global
/// extensions and of the extensions of every listed group that exists.
proof fn lemma_layered_extensions_iff(
    global: LayerView,
    groups: Map<Seq<char>, LayerView>,
    names: Seq<Seq<char>>,
    x: Seq<char>,
)
    ensures
        layered_extensions(global, groups, names).contains(x) <==> (
        (exists|i: int|
            0 <= i < global.extensions.len() && #[trigger] normalized_id(global.extensions[i]) == x)
            || (exists|g: int, i: int|
            0 <= g < names.len() && groups.contains_key(names[g]) && 0 <= i
                < groups[names[g]].extensions.len() && #[trigger] normalized_id(
                groups[names[g]].extensions[i],
            ) == x)),
    decreases names.len(),
{
    if names.len() == 0 {
        lemma_normalized_ids_iff(global.extensions, x);
    } else {
        let d = names.drop_last();
        let last = names.last();
        lemma_layered_extensions_iff(global, groups, d, x);
        if groups.contains_key(last) {
            lemma_normalized_ids_iff(groups[last].extensions, x);
        }
        let in_groups = exists|g: int, i: int|
            0 <= g < names.len() && groups.contains_key(names[g]) && 0 <= i
                < groups[names[g]].extensions.len() && #[trigger] normalized_id(
                groups[names[g]].extensions[i],
            ) == x;
        let in_earlier = exists|g: int, i: int|
            0 <= g < d.len() && groups.contains_key(d[g]) && 0 <= i < groups[d[g]].extensions.len()
                && #[trigger] normalized_id(groups[d[g]].extensions[i]) == x;
        if in_groups {
            let (g, i) = choose|g: int, i: int|
                0 <= g < names.len() && groups.contains_key(names[g]) && 0 <= i
                    < groups[names[g]].extensions.len() && #[trigger] normalized_id(
                    groups[names[g]].extensions[i],
                ) == x;
            if g < d.len() {
                assert(d[g] == names[g]);
                assert(normalized_id(groups[d[g]].extensions[i]) == x);
                assert(in_earlier);
            } else {
                assert(names[g] == last);
                assert(normalized_id(groups[last].extensions[i]) == x);
            }
        }
        if in_earlier {
            let (g, i) = choose|g: int, i: int|
                0 <= g < d.len() && groups.contains_key(d[g]) && 0 <= i
                    < groups[d[g]].extensions.len() && #[trigger] normalized_id(
                    groups[d[g]].extensions[i],
                ) == x;
            assert(names[g] == d[g]);
            assert(normalized_id(groups[names[g]].extensions[i]) == x);
            assert(in_groups);
        }
        if groups.contains_key(last) && normalized_ids(groups[last].extensions).contains(x) {
            let i = choose|i: int|
                0 <= i < groups[last].extensions.len() && #[trigger] normalized_id(
                    groups[last].extensions[i],
                ) == x;
            let g = names.len() - 1;
            assert(names[g] == last);
            assert(normalized_id(groups[names[g]].extensions[i]) == x);
            assert(in_groups);
        }
    }
}

/// The extensions of a resolved profile are exactly the union of global, every
/// listed group that exists and the profile's own list (each normalized),
/// minus the profile's exclusions.
pub proof fn law_resolved_extensions_exact(
    global: LayerView,
    groups: Map<Seq<char>, LayerView>,
    p: ProfileView,
    x: Seq<char>,
)
    ensures
        resolved_spec(global, groups, p).extensions.contains(x) <==> (
        !(exists|i: int|
            0 <= i < p.exclude_extensions.len() && #[trigger] normalized_id(
                p.exclude_extensions[i],
            ) == x) && ((exists|i: int|
            0 <= i < global.extensions.len() && #[trigger] normalized_id(global.extensions[i]) == x)
            || (exists|g: int, i: int|
            0 <= g < p.groups.len() && groups.contains_key(p.groups[g]) && 0 <= i
                < groups[p.groups[g]].extensions.len() && #[trigger] normalized_id(
                groups[p.groups[g]].extensions[i],
            ) == x) || (exists|i: int|
            0 <= i < p.extensions.len() && #[trigger] normalized_id(p.extensions[i]) == x))),
{
    lemma_layered_extensions_iff(global, groups, p.groups, x);
    lemma_normalized_ids_iff(p.extensions, x);
    lemma_normalized_ids_iff(p.exclude_extensions, x);
}

/// Every extension of every listed group that exists is part of the profile
/// unless the profile excludes it.
pub proof fn law_group_extensions_present(
    global: LayerView,
    groups: Map<Seq<char>, LayerView>,
    p: ProfileView,
    g: int,
    i: int,
)
    requires
        0 <= g < p.groups.len(),
        groups.contains_key(p.groups[g]),
        0 <= i < groups[p.groups[g]].extensions.len(),
        !normalized_ids(p.exclude_extensions).contains(
            normalized_id(groups[p.groups[g]].extensions[i]),
        ),
    ensures
        resolved_spec(global, groups, p).extensions.contains(
            normalized_id(groups[p.groups[g]].extensions[i]),
        ),
{
    let x = normalized_id(groups[p.groups[g]].extensions[i]);
    lemma_layered_extensions_iff(global, groups, p.groups, x);
}

/// Versions are ignored for membership: `id@version` normalizes to the same
/// identifier as `id`.
pub proof fn law_pin_ignored(id: Seq<char>, version: Seq<char>)
    requires
        forall|k: int| 0 <= k < id.len() ==> id[k] != '@',
    ensures
        normalized_id(id + "@"@ + version) == normalized_id(id),
{
    reveal_strlit("@");
    let s = id + "@"@ + version;
    let at = |c: char| is_at_sign(c);
    assert(s[id.len() as int] == '@');
    assert forall|k: int| 0 <= k < id.len() implies !at(#[trigger] s[k]) by {
        assert(s[k] == id[k]);
    }
    lemma_segment_len(s, at, id.len() as int);
    assert forall|k: int| 0 <= k < id.len() implies !at(#[trigger] id[k]) by {}
    lemma_segment_len(id, at, id.len() as int);
    assert(s.take(id.len() as int) == id);
    assert(id.take(id.len() as int) == id);
}

// ---------------------------------------------------------------------------
// Consolidation
// ---------------------------------------------------------------------------

/// Holds of every spec other than `e`.
pub open spec fn other_than(e: Seq<char>) -> spec_fn(Seq<char>) -> bool {
    |x: Seq<char>| x != e
}

/// `p` with every occurrence of the extension spec `e` removed from its own
/// extensions.
pub open spec fn without_extension(p: ProfileView, e: Seq<char>) -> ProfileView {
    ProfileView { extensions: p.extensions.filter(other_than(e)), ..p }
}

/// `global` with the extension spec `e` added to its extensions.
pub open spec fn with_extension(global: LayerView, e: Seq<char>) -> LayerView {
    LayerView { extensions: global.extensions.push(e), ..global }
}

/// Adding a spec to a list adds its normalized form to the normalized set.
proof fn lemma_normalized_ids_push(specs: Seq<Seq<char>>, e: Seq<char>)
    ensures
        normalized_ids(specs.push(e)) == normalized_ids(specs).insert(normalized_id(e)),
{
    let f = |s: Seq<char>| normalized_id(s);
    assert(specs.push(e).map_values(f) == specs.map_values(f).push(normalized_id(e)));
    specs.map_values(f).lemma_push_to_set_commute(normalized_id(e));
}

/// Removing the occurrences of a listed spec and adding its normalized form
/// back gives the same normalized set.
proof fn lemma_normalized_ids_without(specs: Seq<Seq<char>>, e: Seq<char>)
    requires
        specs.contains(e),
    ensures
        normalized_ids(specs.filter(other_than(e))).insert(normalized_id(e))
            == normalized_ids(specs),
{
    let keep = other_than(e);
    let rest = specs.filter(keep);
    specs.filter_lemma(keep);
    let i = choose|i: int| 0 <= i < specs.len() && specs[i] == e;
    lemma_normalized_ids_contains(specs, i);
    assert forall|id: Seq<char>| #[trigger]
        normalized_ids(rest).insert(normalized_id(e)).contains(id) == normalized_ids(specs).contains(id) by {
        if normalized_ids(rest).contains(id) {
            let m = rest.map_values(|s: Seq<char>| normalized_id(s));
            let j = choose|j: int| 0 <= j < m.len() && m[j] == id;
            assert(rest.contains(rest[j]));
            specs.lemma_filter_contains_rev(keep, rest[j]);
            let k = choose|k: int| 0 <= k < specs.len() && specs[k] == rest[j];
            lemma_normalized_ids_contains(specs, k);
        }
        if normalized_ids(specs).contains(id) && id != normalized_id(e) {
            let m = specs.map_values(|s: Seq<char>| normalized_id(s));
            let k = choose|k: int| 0 <= k < m.len() && m[k] == id;
            assert(specs[k] != e);
            assert(rest.contains(specs[k]));
            let j = choose|j: int| 0 <= j < rest.len() && rest[j] == specs[k];
            lemma_normalized_ids_contains(rest, j);
        }
    }
    assert(normalized_ids(rest).insert(normalized_id(e)) =~= normalized_ids(specs));
}

/// Layering over a global layer with one more extension adds exactly that
/// extension's normalized form.
proof fn lemma_layered_extensions_push(
    global: LayerView,
    groups: Map<Seq<char>, LayerView>,
    names: Seq<Seq<char>>,
    e: Seq<char>,
)
    ensures
        layered_extensions(with_extension(global, e), groups, names) == layered_extensions(
            global,
            groups,
            names,
        ).insert(normalized_id(e)),
    decreases names.len(),
{
    if names.len() == 0 {
        lemma_normalized_ids_push(global.extensions, e);
    } else {
        lemma_layered_extensions_push(global, groups, names.drop_last(), e);
        let below = layered_extensions(global, groups, names.drop_last());
        if groups.contains_key(names.last()) {
            let g = normalized_ids(groups[names.last()].extensions);
            assert(below.insert(normalized_id(e)).union(g) =~= below.union(g).insert(
                normalized_id(e),
            ));
        }
    }
}

/// Layered settings depend on the global layer's settings only.
proof fn lemma_layered_settings_same_global(
    global: LayerView,
    other: LayerView,
    groups: Map<Seq<char>, LayerView>,
    names: Seq<Seq<char>>,
)
    requires
        other.settings == global.settings,
    ensures
        layered_settings(other, groups, names) == layered_settings(global, groups, names),
    decreases names.len(),
{
    if names.len() > 0 {
        lemma_layered_settings_same_global(global, other, groups, names.drop_last());
    }
}

/// Consolidation: hoisting an extension spec that a profile lists into the
/// global layer (and dropping it from the profile's own list) leaves that
/// profile's resolved state unchanged.
pub proof fn law_hoist_extension_keeps_profile(
    global: LayerView,
    groups: Map<Seq<char>, LayerView>,
    p: ProfileView,
    e: Seq<char>,
)
    requires
        p.extensions.contains(e),
    ensures
        resolved_spec(with_extension(global, e), groups, without_extension(p, e))
            == resolved_spec(global, groups, p),
{
    lemma_layered_settings_same_global(global, with_extension(global, e), groups, p.groups);
    lemma_layered_extensions_push(global, groups, p.groups, e);
    lemma_normalized_ids_without(p.extensions, e);
    let layered = layered_extensions(global, groups, p.groups);
    let rest = normalized_ids(p.extensions.filter(other_than(e)));
    assert(layered.insert(normalized_id(e)).union(rest) =~= layered.union(
        rest.insert(normalized_id(e)),
    ));
    let q = without_extension(p, e);
    assert(q.groups == p.groups);
    assert(q.settings == p.settings);
    assert(q.exclude_extensions == p.exclude_extensions);
    let lhs = resolved_spec(with_extension(global, e), groups, q);
    let rhs = resolved_spec(global, groups, p);
    assert(layered_extensions(with_extension(global, e), groups, q.groups) == layered.insert(
        normalized_id(e),
    ));
    assert(normalized_ids(q.extensions) == rest);
    assert(lhs.extensions =~= rhs.extensions);
    assert(lhs.settings == rhs.settings);
    assert(lhs.icon == rhs.icon);
    assert(lhs.use_default == rhs.use_default);
}

/// Consolidation across a whole config: when every profile lists the
/// extension spec `e`, hoisting it into the global layer and dropping it from
/// every profile leaves the resolved state of every profile unchanged.
pub proof fn law_hoist_shared_extension(
    global: LayerView,
    groups: Map<Seq<char>, LayerView>,
    profiles: Map<Seq<char>, ProfileView>,
    e: Seq<char>,
)
    requires
        forall|name: Seq<char>| #[trigger]
            profiles.contains_key(name) ==> profiles[name].extensions.contains(e),
    ensures
        forall|name: Seq<char>| #[trigger]
            profiles.contains_key(name) ==> resolved_spec(
                with_extension(global, e),
                groups,
                without_extension(profiles[name], e),
            ) == resolved_spec(global, groups, profiles[name]),
{
    assert forall|name: Seq<char>| #[trigger] profiles.contains_key(name) implies resolved_spec(
        with_extension(global, e),
        groups,
        without_extension(profiles[name], e),
    ) == resolved_spec(global, groups, profiles[name]) by {
        law_hoist_extension_keeps_profile(global, groups, profiles[name], e);
    }
}


/// `p` without its own setting for `key`.
pub open spec fn without_setting(p: ProfileView, key: Seq<char>) -> ProfileView {
    ProfileView { settings: p.settings.remove(key), ..p }
}

/// `global` with the setting `key = value` added.
pub open spec fn with_setting(global: LayerView, key: Seq<char>, value: Json) -> LayerView {
    LayerView { settings: global.settings.insert(key, value), ..global }
}

/// No listed group that exists sets `key`.
pub open spec fn groups_leave_key(
    groups: Map<Seq<char>, LayerView>,
    names: Seq<Seq<char>>,
    key: Seq<char>,
) -> bool {
    forall|i: int|
        0 <= i < names.len() && groups.contains_key(#[trigger] names[i])
            ==> !groups[names[i]].settings.contains_key(key)
}

/// A global setting that no listed group overrides comes through layering as
/// it is; the other keys are layered as before.
proof fn lemma_layered_settings_insert(
    global: LayerView,
    groups: Map<Seq<char>, LayerView>,
    names: Seq<Seq<char>>,
    key: Seq<char>,
    value: Json,
)
    requires
        groups_leave_key(groups, names, key),
    ensures
        layered_settings(with_setting(global, key, value), groups, names) == layered_settings(
            global,
            groups,
            names,
        ).insert(key, value),
    decreases names.len(),
{
    if names.len() > 0 {
        let d = names.drop_last();
        assert forall|i: int|
            0 <= i < d.len() && groups.contains_key(#[trigger] d[i]) implies !groups[d[i]].settings.contains_key(
            key,
        ) by {
            assert(d[i] == names[i]);
        }
        lemma_layered_settings_insert(global, groups, d, key, value);
        let below = layered_settings(global, groups, d);
        if groups.contains_key(names.last()) {
            assert(names.last() == names[names.len() - 1]);
            let g = groups[names.last()].settings;
            assert(!g.contains_key(key));
            assert(below.insert(key, value).union_prefer_right(g) =~= below.union_prefer_right(
                g,
            ).insert(key, value));
        }
    }
}

/// Consolidation of a setting: when a profile sets `key` to `value` and no
/// group it lists sets `key`, moving that setting into the global layer (and
/// out of the profile) leaves the profile's resolved state unchanged.
pub proof fn law_hoist_setting_keeps_profile(
    global: LayerView,
    groups: Map<Seq<char>, LayerView>,
    p: ProfileView,
    key: Seq<char>,
    value: Json,
)
    requires
        p.settings.contains_key(key),
        p.settings[key] == value,
        groups_leave_key(groups, p.groups, key),
    ensures
        resolved_spec(with_setting(global, key, value), groups, without_setting(p, key))
            == resolved_spec(global, groups, p),
{
    lemma_layered_settings_insert(global, groups, p.groups, key, value);
    lemma_layered_extensions_same_global(global, with_setting(global, key, value), groups, p.groups);
    let layered = layered_settings(global, groups, p.groups);
    assert(layered.insert(key, value).union_prefer_right(p.settings.remove(key))
        =~= layered.union_prefer_right(p.settings));
    let lhs = resolved_spec(with_setting(global, key, value), groups, without_setting(p, key));
    let rhs = resolved_spec(global, groups, p);
    assert(lhs.settings == rhs.settings);
    assert(lhs.extensions == rhs.extensions);
}

/// Consolidation of a setting across a whole config: when every profile sets
/// `key` to the same `value` and no group any profile lists sets `key`,
/// moving it into the global layer and out of every profile leaves the
/// resolved state of every profile unchanged.
pub proof fn law_hoist_shared_setting(
    global: LayerView,
    groups: Map<Seq<char>, LayerView>,
    profiles: Map<Seq<char>, ProfileView>,
    key: Seq<char>,
    value: Json,
)
    requires
        forall|name: Seq<char>| #[trigger]
            profiles.contains_key(name) ==> {
                &&& profiles[name].settings.contains_key(key)
                &&& profiles[name].settings[key] == value
                &&& groups_leave_key(groups, profiles[name].groups, key)
            },
    ensures
        forall|name: Seq<char>| #[trigger]
            profiles.contains_key(name) ==> resolved_spec(
                with_setting(global, key, value),
                groups,
                without_setting(profiles[name], key),
            ) == resolved_spec(global, groups, profiles[name]),
{
    assert forall|name: Seq<char>| #[trigger] profiles.contains_key(name) implies resolved_spec(
        with_setting(global, key, value),
        groups,
        without_setting(profiles[name], key),
    ) == resolved_spec(global, groups, profiles[name]) by {
        law_hoist_setting_keeps_profile(global, groups, profiles[name], key, value);
    }
}

/// Layered extensions depend on the global layer's extensions only.
proof fn lemma_layered_extensions_same_global(
    global: LayerView,
    other: LayerView,
    groups: Map<Seq<char>, LayerView>,
    names: Seq<Seq<char>>,
)
    requires
        other.extensions == global.extensions,
    ensures
        layered_extensions(other, groups, names) == layered_extensions(global, groups, names),
    decreases names.len(),
{
    if names.len() > 0 {
        lemma_layered_extensions_same_global(global, other, groups, names.drop_last());
    }
}

} // verus!
