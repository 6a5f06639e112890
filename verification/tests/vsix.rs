use std::path::PathBuf;

use code_profile_manager::vsix::{
    group_by_id, is_vsix_file_name, manifest_platform, package_info, PackageJson, platform_name,
    platform_rank, select, version_key, Vendored, VsixInfo, UNIVERSAL,
};

fn pkg(publisher: &str, name: &str, version: &str) -> PackageJson {
    PackageJson {
        publisher: publisher.to_owned(),
        name: name.to_owned(),
        version: version.to_owned(),
    }
}

fn vendored(version: &str, platform: &str) -> Vendored {
    Vendored {
        info: VsixInfo {
            id: "pub.name".to_owned(),
            version: version.to_owned(),
            target_platform: platform.to_owned(),
        },
        path: PathBuf::from(format!("pub.name-{version}-{platform}.vsix")),
    }
}

#[test]
fn select_prefers_exact_pin() {
    let cands = vec![vendored("1.31.2", UNIVERSAL), vendored("1.31.7", UNIVERSAL)];
    let chosen = select(&cands, Some("1.31.2"), "linux-x64");
    assert_eq!(chosen.map(|c| c.info.version.as_str()), Some("1.31.2"));
}

#[test]
fn select_floats_to_highest_version_numerically() {
    let cands = vec![
        vendored("1.31.2", UNIVERSAL),
        vendored("1.31.10", UNIVERSAL),
    ];
    let chosen = select(&cands, None, "linux-x64");
    assert_eq!(chosen.map(|c| c.info.version.as_str()), Some("1.31.10"));
}

#[test]
fn select_prefers_matching_platform_over_universal() {
    let cands = vec![vendored("1.0.0", UNIVERSAL), vendored("1.0.0", "linux-x64")];
    let chosen = select(&cands, None, "linux-x64");
    assert_eq!(
        chosen.map(|c| c.info.target_platform.as_str()),
        Some("linux-x64")
    );
}

#[test]
fn select_skips_incompatible_platform() {
    let cands = vec![vendored("1.0.0", "win32-x64")];
    assert!(select(&cands, None, "linux-x64").is_none());
}

#[test]
fn select_prefers_matching_platform_even_when_listed_first() {
    let cands = vec![vendored("1.0.0", "linux-x64"), vendored("1.0.0", UNIVERSAL)];
    let chosen = select(&cands, None, "linux-x64");
    assert_eq!(
        chosen.map(|c| c.info.target_platform.as_str()),
        Some("linux-x64")
    );
}

#[test]
fn select_takes_the_last_of_equal_candidates() {
    let mut first = vendored("2.0.0", UNIVERSAL);
    first.path = PathBuf::from("first.vsix");
    let mut second = vendored("2.0", UNIVERSAL);
    second.path = PathBuf::from("second.vsix");
    // `2.0.0` and `2.0` differ as keys ([2,0,0] > [2,0]), so the first wins here.
    let cands = vec![first, second];
    let chosen = select(&cands, None, "linux-x64").unwrap();
    assert_eq!(chosen.path, PathBuf::from("first.vsix"));

    let mut a = vendored("3.1.0", UNIVERSAL);
    a.path = PathBuf::from("a.vsix");
    let mut b = vendored("3.1.0", UNIVERSAL);
    b.path = PathBuf::from("b.vsix");
    let cands = vec![a, b];
    let chosen = select(&cands, None, "linux-x64").unwrap();
    assert_eq!(chosen.path, PathBuf::from("b.vsix"));
}

#[test]
fn select_pin_with_no_match_gives_none() {
    let cands = vec![vendored("1.0.0", UNIVERSAL), vendored("2.0.0", "linux-x64")];
    assert!(select(&cands, Some("3.0.0"), "linux-x64").is_none());
    assert!(select(&[], None, "linux-x64").is_none());
}

#[test]
fn version_key_parses_numeric_parts() {
    assert_eq!(version_key("1.31.10"), vec![1, 31, 10]);
    assert_eq!(version_key("2.0.0-beta+7"), vec![2, 0, 0, 0, 7]);
    assert_eq!(version_key(""), vec![0]);
    assert_eq!(version_key("1."), vec![1, 0]);
    assert_eq!(version_key("+5.x"), vec![0, 5, 0]);
    assert_eq!(version_key("18446744073709551616.1"), vec![0, 1]);
    assert_eq!(version_key("18446744073709551615"), vec![u64::MAX]);
}

#[test]
fn platform_rank_orders_exact_over_universal() {
    assert_eq!(platform_rank("linux-x64", "linux-x64"), 2);
    assert_eq!(platform_rank(UNIVERSAL, "linux-x64"), 1);
    assert_eq!(platform_rank("win32-x64", "linux-x64"), 0);
}

#[test]
fn platform_name_maps_rust_names() {
    assert_eq!(platform_name("linux", "x86_64"), "linux-x64");
    assert_eq!(platform_name("macos", "aarch64"), "darwin-arm64");
    assert_eq!(platform_name("windows", "x86"), "win32-ia32");
    assert_eq!(platform_name("freebsd", "riscv64"), "freebsd-riscv64");
}

#[test]
fn manifest_platform_reads_the_attribute() {
    assert_eq!(
        manifest_platform(r#"<Identity Id="x" TargetPlatform="linux-x64" />"#),
        Some("linux-x64".to_owned())
    );
    assert_eq!(manifest_platform(r#"<Identity TargetPlatform="" />"#), None);
    assert_eq!(manifest_platform("<Identity Id=\"x\" />"), None);
    assert_eq!(
        manifest_platform(r#"TargetPlatform="abcTargetPlatform="x""#),
        Some("abc".to_owned())
    );
    assert_eq!(
        manifest_platform(r#"TargetPlatform="unterminated"#),
        Some("unterminated".to_owned())
    );
}

#[test]
fn package_info_lowercases_id_and_defaults_universal() {
    let info = package_info(&pkg("Hansu", "git-graph-2", "1.31.7"), None);
    assert_eq!(info.id, "hansu.git-graph-2");
    assert_eq!(info.version, "1.31.7");
    assert_eq!(info.target_platform, UNIVERSAL);

    let info = package_info(
        &pkg("Pub", "Name", "2.0.0"),
        Some(r#"<Identity TargetPlatform="linux-x64" />"#),
    );
    assert_eq!(info.id, "pub.name");
    assert_eq!(info.target_platform, "linux-x64");

    let info = package_info(&pkg("p", "n", "1"), Some("<Identity />"));
    assert_eq!(info.target_platform, UNIVERSAL);
}

#[test]
fn vsix_file_names_need_a_stem() {
    assert!(is_vsix_file_name("a-1.0.0.vsix"));
    assert!(is_vsix_file_name("a.vsix"));
    assert!(!is_vsix_file_name(".vsix"));
    assert!(!is_vsix_file_name("ignore.txt"));
    assert!(!is_vsix_file_name("a.vsix.txt"));
    assert!(!is_vsix_file_name("a.VSIX"));
}

#[test]
fn group_by_id_keeps_all_versions() {
    let mut other = vendored("9.9.9", UNIVERSAL);
    other.info.id = "pub.other".to_owned();
    let found = vec![vendored("1.0.0", UNIVERSAL), other, vendored("2.0.0", UNIVERSAL)];
    let grouped = group_by_id(found);
    assert_eq!(grouped.len(), 2);
    let versions: Vec<&str> = grouped
        .get("pub.name")
        .unwrap()
        .iter()
        .map(|v| v.info.version.as_str())
        .collect();
    assert_eq!(versions, vec!["1.0.0", "2.0.0"]);
    assert_eq!(grouped.get("pub.other").unwrap().len(), 1);
    assert!(grouped.get("pub.missing").is_none());
}

/// The metadata of a package as its archive would hold it: `package.json`
/// identity and an optional manifest declaring the target platform.
fn package(publisher: &str, name: &str, version: &str, platform: Option<&str>) -> VsixInfo {
    let manifest = platform.map(|p| format!(r#"<Identity TargetPlatform="{p}" />"#));
    package_info(&pkg(publisher, name, version), manifest.as_deref())
}

#[test]
fn read_info_extracts_identity_version_and_platform() {
    let info = package("Hansu", "git-graph-2", "1.31.7", Some("linux-x64"));
    assert_eq!(info.id, "hansu.git-graph-2");
    assert_eq!(info.version, "1.31.7");
    assert_eq!(info.target_platform, "linux-x64");
}

#[test]
fn discover_groups_versions_by_id_and_defaults_universal() {
    let files = [
        ("a-1.0.0.vsix", package("pub", "a", "1.0.0", None)),
        ("a-2.0.0.vsix", package("pub", "a", "2.0.0", None)),
        ("ignore.txt", package("pub", "x", "1.0.0", None)), // not a .vsix name
    ];
    let found: Vec<Vendored> = files
        .into_iter()
        .filter(|(file, _)| is_vsix_file_name(file))
        .map(|(file, info)| Vendored { info, path: PathBuf::from(file) })
        .collect();
    let found = group_by_id(found);
    let versions: Vec<&str> = found
        .get("pub.a")
        .into_iter()
        .flatten()
        .map(|v| v.info.version.as_str())
        .collect();
    assert_eq!(versions.len(), 2, "both versions of pub.a kept");
    assert!((0..found.len()).all(|i| found
        .value_at(i)
        .iter()
        .all(|v| v.info.target_platform == UNIVERSAL)));
}

#[test]
fn vendored_copies_keep_info_and_path() {
    let v = vendored("1.2.3", "linux-x64");
    let c = v.clone();
    assert_eq!(c.info, v.info);
    assert_eq!(c.path, v.path);
}
