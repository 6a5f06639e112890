//! `.vsix` package metadata and choosing among vendored packages.
//!
//! A `.vsix` is a zip whose `extension/package.json` carries the extension's
//! identity (`publisher`.`name`) and `version`; an optional
//! `extension.vsixmanifest` declares a `TargetPlatform` for native-binary
//! builds. Reading the archive is left to the caller; this module holds what
//! is decided from its contents.

use vstd::prelude::*;

use std::path::PathBuf;

use crate::keymap::StrMap;
use crate::text::{
    chars_of, matches_at, occurs_at, opt_str_view, opt_string_view, parse_u64, parse_u64_spec,
    string_of, to_lowercase, unicode_lowercase, version_parts, version_parts_spec, views,
};

verus! {

/// Platform-agnostic builds use this `targetPlatform`.
pub const UNIVERSAL: &'static str = "universal";

/// Identity metadata read from a `.vsix` package.
///
/// `engines.vscode` is deliberately not read: the editor's own installer
/// validates API compatibility.
#[derive(Debug, Clone, PartialEq, Eq)]
pub struct VsixInfo {
    /// Normalized `publisher.name`.
    pub id: String,
    pub version: String,
    /// `targetPlatform` (e.g. `linux-x64`), or [`UNIVERSAL`] when unspecified.
    pub target_platform: String,
}

/// A discovered vendored `.vsix` and its location.
#[derive(Debug, Clone)]
pub struct Vendored {
    pub info: VsixInfo,
    pub path: PathBuf,
}

/// The characters of [`UNIVERSAL`].
pub open spec fn universal() -> Seq<char> {
    "universal"@
}

// ---------------------------------------------------------------------------
// Version keys
// ---------------------------------------------------------------------------

/// The numeric components of a version: pieces between `.`, `-` and `+`, each
/// parsed as a `u64`, with pieces that do not parse counting as 0.
pub open spec fn version_key_spec(version: Seq<char>) -> Seq<u64> {
    version_parts_spec(version).map_values(
        |part: Seq<char>|
            match parse_u64_spec(part) {
                Some(n) => n,
                None => 0u64,
            },
    )
}

/// Split a version into numeric components for ordering (`1.31.10` > `1.31.2`).
/// Non-numeric parts count as 0, which is sufficient for picking a latest build.
pub fn version_key(version: &str) -> (r: Vec<u64>)
    ensures
        r@ == version_key_spec(version@),
{
    let chars = chars_of(version);
    let parts = version_parts(&chars);
    let ghost pv = views(parts@);
    let mut out: Vec<u64> = Vec::new();
    for i in 0..parts.len()
        invariant
            pv == views(parts@),
            pv == version_parts_spec(chars@),
            chars@ == version@,
            out@ == pv.take(i as int).map_values(
                |part: Seq<char>|
                    match parse_u64_spec(part) {
                        Some(n) => n,
                        None => 0u64,
                    },
            ),
    {
        let n = match parse_u64(&parts[i]) {
            Some(n) => n,
            None => 0,
        };
        out.push(n);
        assert(pv.take(i + 1) == pv.take(i as int).push(parts@[i as int]@));
    }
    assert(pv.take(pv.len() as int) == pv);
    out
}

/// Three-way lexicographic comparison of version keys (`Vec<u64>`'s order):
/// -1, 0 or 1.
pub open spec fn key_order(a: Seq<u64>, b: Seq<u64>) -> int
    decreases a.len(),
{
    if a.len() == 0 {
        if b.len() == 0 {
            0
        } else {
            -1
        }
    } else if b.len() == 0 {
        1
    } else if a[0] < b[0] {
        -1
    } else if a[0] > b[0] {
        1
    } else {
        key_order(a.drop_first(), b.drop_first())
    }
}

/// Swapping the arguments negates the comparison.
pub proof fn lemma_key_order_antisymmetric(a: Seq<u64>, b: Seq<u64>)
    ensures
        key_order(a, b) == -key_order(b, a),
        -1 <= key_order(a, b) <= 1,
    decreases a.len(),
{
    if a.len() > 0 && b.len() > 0 && a[0] == b[0] {
        lemma_key_order_antisymmetric(a.drop_first(), b.drop_first());
    }
}

/// "Not greater" is transitive.
pub proof fn lemma_key_order_transitive(a: Seq<u64>, b: Seq<u64>, c: Seq<u64>)
    requires
        key_order(a, b) <= 0,
        key_order(b, c) <= 0,
    ensures
        key_order(a, c) <= 0,
        key_order(a, b) < 0 || key_order(b, c) < 0 ==> key_order(a, c) < 0,
    decreases a.len(),
{
    if a.len() > 0 && b.len() > 0 && c.len() > 0 && a[0] == b[0] && b[0] == c[0] {
        lemma_key_order_transitive(a.drop_first(), b.drop_first(), c.drop_first());
    }
}

/// Version keys compare from the first component: at the first index where
/// two keys differ, the key with the larger component is the greater one.
pub proof fn law_key_order_first_difference(a: Seq<u64>, b: Seq<u64>, i: int)
    requires
        0 <= i < a.len(),
        i < b.len(),
        forall|j: int| 0 <= j < i ==> a[j] == b[j],
    ensures
        a[i] < b[i] ==> key_order(a, b) == -1,
        a[i] > b[i] ==> key_order(a, b) == 1,
        a[i] == b[i] ==> key_order(a, b) == key_order(a.skip(i + 1), b.skip(i + 1)),
    decreases i,
{
    if i > 0 {
        assert forall|j: int| 0 <= j < i - 1 implies a.drop_first()[j] == b.drop_first()[j] by {
            assert(a[j + 1] == b[j + 1]);
        }
        assert(a[0] == b[0]);
        law_key_order_first_difference(a.drop_first(), b.drop_first(), i - 1);
        assert(a.drop_first().skip(i) == a.skip(i + 1));
        assert(b.drop_first().skip(i) == b.skip(i + 1));
    } else {
        assert(a.drop_first() == a.skip(1));
        assert(b.drop_first() == b.skip(1));
    }
}

/// A key that agrees with a longer key on all its components is the smaller
/// one; equal keys compare equal.
pub proof fn law_key_order_prefix(a: Seq<u64>, b: Seq<u64>)
    requires
        a.len() <= b.len(),
        forall|j: int| 0 <= j < a.len() ==> a[j] == b[j],
    ensures
        a.len() < b.len() ==> key_order(a, b) == -1 && key_order(b, a) == 1,
        a.len() == b.len() ==> key_order(a, b) == 0,
    decreases a.len(),
{
    if a.len() > 0 {
        assert forall|j: int| 0 <= j < a.len() - 1 implies a.drop_first()[j] == b.drop_first()[j] by {
            assert(a[j + 1] == b[j + 1]);
        }
        assert(a[0] == b[0]);
        law_key_order_prefix(a.drop_first(), b.drop_first());
    }
}

/// Compares two version keys: -1, 0 or 1.
pub fn compare_keys(a: &Vec<u64>, b: &Vec<u64>) -> (r: i8)
    ensures
        r == key_order(a@, b@),
{
    let mut i: usize = 0;
    assert(a@.skip(0) == a@);
    assert(b@.skip(0) == b@);
    while i < a.len() && i < b.len() && a[i] == b[i]
        invariant
            i <= a@.len(),
            i <= b@.len(),
            key_order(a@, b@) == key_order(a@.skip(i as int), b@.skip(i as int)),
        decreases a@.len() - i,
    {
        assert(a@.skip(i as int).drop_first() == a@.skip(i + 1));
        assert(b@.skip(i as int).drop_first() == b@.skip(i + 1));
        i = i + 1;
    }
    if i < a.len() && i < b.len() {
        if a[i] < b[i] {
            -1
        } else {
            1
        }
    } else if i < b.len() {
        -1
    } else if i < a.len() {
        1
    } else {
        0
    }
}

// ---------------------------------------------------------------------------
// Platforms
// ---------------------------------------------------------------------------

/// How well a build's `target` fits `platform`: 2 for an exact match, 1 for
/// a universal build, 0 otherwise.
pub open spec fn platform_rank_spec(target: Seq<char>, platform: Seq<char>) -> u8 {
    if target == platform {
        2
    } else if target == universal() {
        1
    } else {
        0
    }
}

/// Whether two string slices hold the same characters.
fn same_text(a: &str, b: &str) -> (r: bool)
    ensures
        r == (a@ == b@),
{
    a.to_owned() == b.to_owned()
}

/// A platform-specific build outranks a universal one for the current platform.
pub fn platform_rank(target: &str, platform: &str) -> (r: u8)
    ensures
        r == platform_rank_spec(target@, platform@),
{
    if same_text(target, platform) {
        2
    } else if same_text(target, UNIVERSAL) {
        1
    } else {
        0
    }
}

// ---------------------------------------------------------------------------
// Selecting a candidate
// ---------------------------------------------------------------------------

/// A candidate can serve `platform` (exact or universal build) and matches
/// `pin` when one is given.
pub open spec fn suitable(v: Vendored, pin: Option<Seq<char>>, platform: Seq<char>) -> bool {
    &&& (v.info.target_platform@ == platform || v.info.target_platform@ == universal())
    &&& match pin {
        Some(want) => v.info.version@ == want,
        None => true,
    }
}

/// The order in which candidates are preferred: by version key, then by
/// platform rank. -1, 0 or 1.
pub open spec fn candidate_order(a: Vendored, b: Vendored, platform: Seq<char>) -> int {
    let c = key_order(version_key_spec(a.info.version@), version_key_spec(b.info.version@));
    if c != 0 {
        c
    } else {
        let ra = platform_rank_spec(a.info.target_platform@, platform);
        let rb = platform_rank_spec(b.info.target_platform@, platform);
        if ra < rb {
            -1
        } else if ra > rb {
            1
        } else {
            0
        }
    }
}

/// Candidate `k` is the one `select` returns: suitable, not outranked by any
/// suitable candidate, and strictly above every later suitable candidate (so
/// among equals the last one wins).
pub open spec fn is_selected(
    cands: Seq<Vendored>,
    pin: Option<Seq<char>>,
    platform: Seq<char>,
    k: int,
) -> bool {
    &&& 0 <= k < cands.len()
    &&& suitable(cands[k], pin, platform)
    &&& forall|j: int|
        0 <= j < cands.len() && suitable(#[trigger] cands[j], pin, platform) ==> candidate_order(
            cands[j],
            cands[k],
            platform,
        ) <= 0
    &&& forall|j: int|
        k < j < cands.len() && suitable(#[trigger] cands[j], pin, platform) ==> candidate_order(
            cands[j],
            cands[k],
            platform,
        ) < 0
}

/// The selected candidate has the highest version among the suitable ones:
/// no suitable candidate's version key exceeds it at the first component where
/// the two differ, and none extends it with further components.
pub proof fn law_selected_has_highest_version(
    cands: Seq<Vendored>,
    pin: Option<Seq<char>>,
    platform: Seq<char>,
    k: int,
    j: int,
    i: int,
)
    requires
        is_selected(cands, pin, platform, k),
        0 <= j < cands.len(),
        suitable(cands[j], pin, platform),
    ensures
        ({
            let kj = version_key_spec(cands[j].info.version@);
            let kk = version_key_spec(cands[k].info.version@);
            (0 <= i < kj.len() && i < kk.len() && forall|t: int| 0 <= t < i ==> kj[t] == kk[t])
                ==> kj[i] <= kk[i]
        }),
        ({
            let kj = version_key_spec(cands[j].info.version@);
            let kk = version_key_spec(cands[k].info.version@);
            !(kk.len() < kj.len() && forall|t: int| 0 <= t < kk.len() ==> kj[t] == kk[t])
        }),
{
    let kj = version_key_spec(cands[j].info.version@);
    let kk = version_key_spec(cands[k].info.version@);
    assert(candidate_order(cands[j], cands[k], platform) <= 0);
    lemma_key_order_antisymmetric(kj, kk);
    assert(key_order(kj, kk) <= 0);
    if 0 <= i < kj.len() && i < kk.len() && forall|t: int| 0 <= t < i ==> kj[t] == kk[t] {
        law_key_order_first_difference(kj, kk, i);
    }
    if kk.len() < kj.len() && forall|t: int| 0 <= t < kk.len() ==> kj[t] == kk[t] {
        assert forall|t: int| 0 <= t < kk.len() implies kk[t] == kj[t] by {}
        law_key_order_prefix(kk, kj);
    }
}

proof fn lemma_candidate_order(a: Vendored, b: Vendored, c: Vendored, platform: Seq<char>)
    ensures
        candidate_order(a, b, platform) == -candidate_order(b, a, platform),
        candidate_order(a, b, platform) <= 0 && candidate_order(b, c, platform) <= 0 ==> candidate_order(
            a,
            c,
            platform,
        ) <= 0,
        candidate_order(a, b, platform) < 0 && candidate_order(b, c, platform) <= 0 ==> candidate_order(
            a,
            c,
            platform,
        ) < 0,
{
    let ka = version_key_spec(a.info.version@);
    let kb = version_key_spec(b.info.version@);
    let kc = version_key_spec(c.info.version@);
    lemma_key_order_antisymmetric(ka, kb);
    lemma_key_order_antisymmetric(kb, kc);
    lemma_key_order_antisymmetric(ka, kc);
    if key_order(ka, kb) <= 0 && key_order(kb, kc) <= 0 {
        lemma_key_order_transitive(ka, kb, kc);
    }
}

/// Whether `v` is suitable; the executable form of [`suitable`].
fn is_suitable(v: &Vendored, pin: Option<&str>, platform: &str) -> (r: bool)
    ensures
        r == suitable(*v, opt_str_view(pin), platform@),
{
    let target = v.info.target_platform.as_str();
    let platform_ok = same_text(target, platform) || same_text(target, UNIVERSAL);
    let version_ok = match pin {
        Some(want) => same_text(v.info.version.as_str(), want),
        None => true,
    };
    platform_ok && version_ok
}

/// The preference order of two candidates; the executable form of
/// [`candidate_order`].
fn compare_candidates(a: &Vendored, b: &Vendored, platform: &str) -> (r: i8)
    ensures
        r == candidate_order(*a, *b, platform@),
{
    let ka = version_key(a.info.version.as_str());
    let kb = version_key(b.info.version.as_str());
    let c = compare_keys(&ka, &kb);
    if c != 0 {
        c
    } else {
        let ra = platform_rank(a.info.target_platform.as_str(), platform);
        let rb = platform_rank(b.info.target_platform.as_str(), platform);
        if ra < rb {
            -1
        } else if ra > rb {
            1
        } else {
            0
        }
    }
}

/// Choose the best candidate: an exact `pin` match when pinned, else the
/// highest version; ties prefer a build matching `platform` over
/// [`UNIVERSAL`], and among full ties the last candidate wins.
pub fn select<'c>(candidates: &'c [Vendored], pin: Option<&str>, platform: &str) -> (r: Option<
    &'c Vendored,
>)
    ensures
        r is None <==> forall|i: int|
            0 <= i < candidates@.len() ==> !suitable(
                #[trigger] candidates@[i],
                opt_str_view(pin),
                platform@,
            ),
        r matches Some(c) ==> exists|k: int|
            is_selected(candidates@, opt_str_view(pin), platform@, k) && *c == candidates@[k],
{
    let ghost pv = opt_str_view(pin);
    let mut best: Option<usize> = None;
    for i in 0..candidates.len()
        invariant
            pv == opt_str_view(pin),
            best is None ==> forall|j: int|
                0 <= j < i ==> !suitable(#[trigger] candidates@[j], pv, platform@),
            best matches Some(b) ==> {
                &&& b < i
                &&& suitable(candidates@[b as int], pv, platform@)
                &&& forall|j: int|
                    0 <= j < i && suitable(#[trigger] candidates@[j], pv, platform@)
                        ==> candidate_order(candidates@[j], candidates@[b as int], platform@) <= 0
                &&& forall|j: int|
                    b < j < i && suitable(#[trigger] candidates@[j], pv, platform@)
                        ==> candidate_order(candidates@[j], candidates@[b as int], platform@) < 0
            },
    {
        let cand = &candidates[i];
        if is_suitable(cand, pin, platform) {
            match best {
                None => {
                    proof {
                        lemma_candidate_order(*cand, *cand, *cand, platform@);
                    }
                    best = Some(i);
                },
                Some(b) => {
                    let c = compare_candidates(&candidates[b], cand, platform);
                    if c <= 0 {
                        proof {
                            assert forall|j: int|
                                0 <= j < i + 1 && suitable(
                                    #[trigger] candidates@[j],
                                    pv,
                                    platform@,
                                ) implies candidate_order(candidates@[j], *cand, platform@) <= 0 by {
                                lemma_candidate_order(
                                    candidates@[j],
                                    candidates@[b as int],
                                    *cand,
                                    platform@,
                                );
                                lemma_candidate_order(*cand, *cand, *cand, platform@);
                            }
                        }
                        best = Some(i);
                    } else {
                        proof {
                            lemma_candidate_order(*cand, candidates@[b as int], *cand, platform@);
                        }
                    }
                },
            }
        }
    }
    match best {
        Some(b) => {
            assert(is_selected(candidates@, pv, platform@, b as int));
            Some(&candidates[b])
        },
        None => None,
    }
}

// ---------------------------------------------------------------------------
// Platform names
// ---------------------------------------------------------------------------

/// The VS Code name of an operating system (`std::env::consts::OS` value).
pub open spec fn os_alias(os: Seq<char>) -> Seq<char> {
    if os == "macos"@ {
        "darwin"@
    } else if os == "windows"@ {
        "win32"@
    } else {
        os
    }
}

/// The VS Code name of an architecture (`std::env::consts::ARCH` value).
pub open spec fn arch_alias(arch: Seq<char>) -> Seq<char> {
    if arch == "x86_64"@ {
        "x64"@
    } else if arch == "aarch64"@ {
        "arm64"@
    } else if arch == "x86"@ {
        "ia32"@
    } else {
        arch
    }
}

/// The `targetPlatform` string for an OS and architecture (e.g. `linux-x64`).
pub open spec fn platform_name_spec(os: Seq<char>, arch: Seq<char>) -> Seq<char> {
    os_alias(os) + "-"@ + arch_alias(arch)
}

/// The `targetPlatform` for a machine with the given Rust OS and architecture
/// names (e.g. `linux`, `x86_64` give `linux-x64`).
pub fn platform_name(os: &str, arch: &str) -> (r: String)
    ensures
        r@ == platform_name_spec(os@, arch@),
{
    let os_part: &str = if same_text(os, "macos") {
        "darwin"
    } else if same_text(os, "windows") {
        "win32"
    } else {
        os
    };
    let arch_part: &str = if same_text(arch, "x86_64") {
        "x64"
    } else if same_text(arch, "aarch64") {
        "arm64"
    } else if same_text(arch, "x86") {
        "ia32"
    } else {
        arch
    };
    let mut chars = chars_of(os_part);
    let dash = chars_of("-");
    let tail = chars_of(arch_part);
    let ghost first = chars@;
    for i in 0..dash.len()
        invariant
            chars@ == first + dash@.take(i as int),
    {
        chars.push(dash[i]);
        assert(dash@.take(i + 1) == dash@.take(i as int).push(dash@[i as int]));
    }
    assert(dash@.take(dash@.len() as int) == dash@);
    let ghost second = chars@;
    for i in 0..tail.len()
        invariant
            chars@ == second + tail@.take(i as int),
    {
        chars.push(tail[i]);
        assert(tail@.take(i + 1) == tail@.take(i as int).push(tail@[i as int]));
    }
    assert(tail@.take(tail@.len() as int) == tail@);
    string_of(&chars)
}

// ---------------------------------------------------------------------------
// Package metadata
// ---------------------------------------------------------------------------

/// The attribute that introduces the target platform in a `.vsixmanifest`.
pub open spec fn platform_attr() -> Seq<char> {
    "TargetPlatform=\""@
}

/// `i` is the first position where `needle` occurs in `hay`.
pub open spec fn first_match(hay: Seq<char>, needle: Seq<char>, i: int) -> bool {
    occurs_at(hay, needle, i) && forall|j: int| 0 <= j < i ==> !occurs_at(hay, needle, j)
}

/// Where the attribute value in `after` stops: at a quote, at the next
/// occurrence of the attribute, or at the end of the text.
pub open spec fn value_stop(after: Seq<char>, i: int) -> bool {
    i == after.len() || after[i] == '"' || occurs_at(after, platform_attr(), i)
}

/// `e` is the first stop position of the attribute value in `after`.
pub open spec fn value_end(after: Seq<char>, e: int) -> bool {
    0 <= e <= after.len() && value_stop(after, e) && forall|j: int|
        0 <= j < e ==> !value_stop(after, j)
}

/// The `TargetPlatform="…"` value of a manifest: the text after the first
/// `TargetPlatform="` up to the next `"` (as
/// `split("TargetPlatform=\"").nth(1)` then `split('"').next()`), when that
/// text is not empty.
pub open spec fn manifest_target_platform(text: Seq<char>) -> Option<Seq<char>> {
    if exists|i: int| occurs_at(text, platform_attr(), i) {
        let i = choose|i: int| first_match(text, platform_attr(), i);
        let after = text.skip(i + platform_attr().len());
        let e = choose|e: int| value_end(after, e);
        if e > 0 {
            Some(after.take(e))
        } else {
            None
        }
    } else {
        None
    }
}

proof fn lemma_occurs_skip(s: Seq<char>, n: Seq<char>, k: int, e: int)
    requires
        0 <= k <= s.len(),
        0 <= e,
    ensures
        occurs_at(s.skip(k), n, e) == occurs_at(s, n, k + e),
{
    if occurs_at(s, n, k + e) {
        assert(s.skip(k).subrange(e, e + n.len()) == s.subrange(k + e, k + e + n.len()));
    }
    if occurs_at(s.skip(k), n, e) {
        assert(s.skip(k).subrange(e, e + n.len()) == s.subrange(k + e, k + e + n.len()));
    }
}

/// Pull a `TargetPlatform="…"` attribute value out of a `.vsixmanifest`, if any.
pub fn manifest_platform(manifest: &str) -> (r: Option<String>)
    ensures
        opt_string_view(r) == manifest_target_platform(manifest@),
{
    let text = chars_of(manifest);
    let attr = chars_of("TargetPlatform=\"");
    let ghost t = text@;
    let ghost a = attr@;
    let mut i: usize = 0;
    let mut found = false;
    while i < text.len() && !found
        invariant
            i <= text@.len(),
            t == text@,
            a == attr@,
            a == platform_attr(),
            found ==> occurs_at(t, a, i as int),
            forall|j: int| 0 <= j < i ==> !occurs_at(t, a, j),
        decreases text@.len() - i + (if found { 0int } else { 1int }),
    {
        if matches_at(&text, &attr, i) {
            found = true;
        } else {
            i = i + 1;
        }
    }
    if !found {
        proof {
            reveal_strlit("TargetPlatform=\"");
        }
        assert forall|j: int| !occurs_at(t, a, j) by {
            if j >= i {
                assert(!occurs_at(t, a, j));
            }
        }
        return None;
    }
    proof {
        assert(first_match(t, a, i as int));
        let i2 = choose|i2: int| first_match(t, a, i2);
        assert(i2 == i);
    }
    let start = i + attr.len();
    let ghost after = t.skip(start as int);
    let mut e: usize = start;
    let mut stop = false;
    while e < text.len() && !stop
        invariant
            start <= e <= text@.len(),
            t == text@,
            a == attr@,
            a == platform_attr(),
            after == t.skip(start as int),
            stop ==> e < text@.len() && value_stop(after, e - start),
            forall|j: int| 0 <= j < e - start ==> !value_stop(after, j),
        decreases text@.len() - e + (if stop { 0int } else { 1int }),
    {
        proof {
            lemma_occurs_skip(t, a, start as int, e - start);
        }
        if text[e] == '"' || matches_at(&text, &attr, e) {
            stop = true;
        } else {
            e = e + 1;
        }
    }
    let end = e - start;
    proof {
        assert(value_end(after, end as int));
        let e2 = choose|e2: int| value_end(after, e2);
        assert(e2 == end);
    }
    if end == 0 {
        None
    } else {
        let mut value: Vec<char> = Vec::new();
        let mut k = start;
        while k < e
            invariant
                start <= k <= e <= text@.len(),
                after == t.skip(start as int),
                t == text@,
                value@ == after.take(k - start),
            decreases e - k,
        {
            value.push(text[k]);
            assert(after.take(k - start + 1) == after.take(k - start).push(after[k - start]));
            k = k + 1;
        }
        Some(string_of(&value))
    }
}

/// The `targetPlatform` recorded for a package: the manifest's value, or
/// [`UNIVERSAL`] when there is no manifest or it names none.
pub open spec fn package_platform(manifest: Option<Seq<char>>) -> Seq<char> {
    match manifest {
        Some(m) => match manifest_target_platform(m) {
            Some(p) => p,
            None => universal(),
        },
        None => universal(),
    }
}

/// The identity fields of a package's `extension/package.json`.
#[derive(Debug, Clone)]
pub struct PackageJson {
    pub publisher: String,
    pub name: String,
    pub version: String,
}

/// Identity metadata of a package from its `package.json` and its (optional)
/// manifest text: the id is `publisher.name` lowercased.
pub fn package_info(pkg: &PackageJson, manifest: Option<&str>) -> (r: VsixInfo)
    ensures
        r.id@ == unicode_lowercase(pkg.publisher@ + "."@ + pkg.name@),
        r.version@ == pkg.version@,
        r.target_platform@ == package_platform(opt_str_view(manifest)),
{
    let mut full = chars_of(pkg.publisher.as_str());
    let dot = chars_of(".");
    let tail = chars_of(pkg.name.as_str());
    let ghost first = full@;
    for i in 0..dot.len()
        invariant
            full@ == first + dot@.take(i as int),
    {
        full.push(dot[i]);
        assert(dot@.take(i + 1) == dot@.take(i as int).push(dot@[i as int]));
    }
    assert(dot@.take(dot@.len() as int) == dot@);
    let ghost second = full@;
    for i in 0..tail.len()
        invariant
            full@ == second + tail@.take(i as int),
    {
        full.push(tail[i]);
        assert(tail@.take(i + 1) == tail@.take(i as int).push(tail@[i as int]));
    }
    assert(tail@.take(tail@.len() as int) == tail@);
    let joined = string_of(&full);
    let id = to_lowercase(joined.as_str());
    let target_platform = match manifest {
        Some(m) => match manifest_platform(m) {
            Some(p) => p,
            None => UNIVERSAL.to_owned(),
        },
        None => UNIVERSAL.to_owned(),
    };
    VsixInfo { id, version: pkg.version.clone(), target_platform }
}

// ---------------------------------------------------------------------------
// Discovery
// ---------------------------------------------------------------------------

/// A file name whose extension (as `Path::extension`) is `vsix`: it ends in
/// `.vsix` and has a non-empty stem.
pub open spec fn has_vsix_extension(name: Seq<char>) -> bool {
    name.len() > 5 && name.skip(name.len() - 5) == ".vsix"@
}

/// Whether a file name has the `vsix` extension.
pub fn is_vsix_file_name(name: &str) -> (r: bool)
    ensures
        r == has_vsix_extension(name@),
{
    let chars = chars_of(name);
    let suffix = chars_of(".vsix");
    if chars.len() <= 5 {
        return false;
    }
    let start = chars.len() - 5;
    proof {
        reveal_strlit(".vsix");
    }
    let r = matches_at(&chars, &suffix, start);
    assert(chars@.subrange(start as int, start + 5) == chars@.skip(start as int));
    r
}

/// The candidates in `found` with identifier `id`, in order.
pub open spec fn with_id(found: Seq<Vendored>, id: Seq<char>) -> Seq<Vendored> {
    found.filter(|v: Vendored| v.info.id@ == id)
}

/// The identifiers of the candidates in `found`.
pub open spec fn ids_of(found: Seq<Vendored>) -> Set<Seq<char>> {
    found.map_values(|v: Vendored| v.info.id@).to_set()
}

/// Group discovered packages by identifier. Multiple versions and target
/// platforms of the same id coexist, so each id maps to all of its
/// candidates, in discovery order.
pub fn group_by_id(found: Vec<Vendored>) -> (r: StrMap<Vec<Vendored>>)
    ensures
        r@.dom() == ids_of(found@),
        forall|id: Seq<char>| #[trigger] r@.contains_key(id) ==> r@[id] == with_id(found@, id),
{
    let ghost all = found@;
    let mut rest = found;
    let mut out: StrMap<Vec<Vendored>> = StrMap::new();
    let mut n: usize = 0;
    assert(all.len() == rest.len());
    while rest.len() > 0
        invariant
            n <= all.len(),
            all.len() <= usize::MAX,
            rest@ == all.skip(n as int),
            out@.dom() == ids_of(all.take(n as int)),
            forall|id: Seq<char>| #[trigger] out@.contains_key(id) ==> out@[id] == with_id(
                all.take(n as int),
                id,
            ),
        decreases rest@.len(),
    {
        let v = rest.remove(0);
        assert(v == all[n as int]);
        assert(all.take(n + 1) == all.take(n as int).push(v));
        let ghost before = out@;
        let id = v.info.id.clone();
        let mut list = match out.remove(id.as_str()) {
            Some(list) => list,
            None => Vec::new(),
        };
        list.push(v);
        out.insert(id, list);
        proof {
            let f = |w: Vendored| w.info.id@;
            all.take(n as int).map_values(f).lemma_push_to_set_commute(v.info.id@);
            assert(all.take(n + 1).map_values(f) == all.take(n as int).map_values(f).push(v.info.id@));
            assert(out@.dom() =~= ids_of(all.take(n + 1)));
            assert forall|k: Seq<char>| #[trigger] out@.contains_key(k) implies out@[k] == with_id(
                all.take(n + 1),
                k,
            ) by {
                all.take(n as int).lemma_filter_push(v, |w: Vendored| w.info.id@ == k);
                if k != v.info.id@ {
                    assert(before.contains_key(k));
                } else if !before.contains_key(k) {
                    assert(!ids_of(all.take(n as int)).contains(k));
                    assert forall|j: int| 0 <= j < all.take(n as int).len() implies all.take(n as int)[j].info.id@ != k by {
                        assert(all.take(n as int).map_values(f)[j] == all.take(n as int)[j].info.id@);
                    }
                    all.take(n as int).lemma_all_neg_filter_empty(|w: Vendored| w.info.id@ == k);
                }
            }
            assert(all.skip(n + 1) == all.skip(n as int).drop_first());
        }
        n = n + 1;
    }
    assert(all.take(n as int) == all);
    out
}

} // verus!
