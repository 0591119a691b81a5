use clay::cli_style::CliStyle;
use clay::manifest::PackageJson;
use sha1::Digest;
use clay::peers::{check_peer_dependency_conflicts, missing_peer_sets, InstalledManifest};
use clay::registry::{BinSpec, DistInfo, PackageInfo};

fn manifest(name: &str, version: &str, peers: Vec<(&str, &str)>) -> InstalledManifest {
    InstalledManifest {
        name: name.to_string(),
        version: version.to_string(),
        peer_dependencies: peers
            .into_iter()
            .map(|(a, b)| (a.to_string(), b.to_string()))
            .collect(),
    }
}

#[test]
fn peer_scan_reports_missing_and_incompatible() {
    let installed = vec![
        manifest("ui-kit", "3.0.0", vec![("react", "^1.0.0"), ("themes", "*")]),
        manifest("react", "2.0.0", vec![]),
    ];
    let conflicts = check_peer_dependency_conflicts(&installed);
    assert_eq!(conflicts.len(), 2);
    // react is installed at 2.0.0, which a caret on major 1 refuses.
    assert_eq!(conflicts[0].package, "ui-kit");
    assert_eq!(conflicts[0].peer_dependency, "react");
    assert_eq!(conflicts[0].required_version, "^1.0.0");
    assert_eq!(conflicts[0].installed_version, "2.0.0");
    // themes is not in the tree at all.
    assert_eq!(conflicts[1].peer_dependency, "themes");
    assert_eq!(conflicts[1].installed_version, "missing");
}

#[test]
fn peer_scan_is_quiet_when_satisfied() {
    let installed = vec![
        manifest("ui-kit", "3.0.0", vec![("react", "^2.0.0")]),
        manifest("react", "2.1.0", vec![]),
    ];
    assert!(check_peer_dependency_conflicts(&installed).is_empty());
}

#[test]
fn missing_peers_split_by_optionality() {
    let info = PackageInfo {
        name: "host".to_string(),
        version: "1.0.0".to_string(),
        description: None,
        main: None,
        bin: BinSpec::Missing,
        dependencies: None,
        peer_dependencies: Some(vec![
            ("present".to_string(), "*".to_string()),
            ("needed".to_string(), "^1.0.0".to_string()),
            ("extra".to_string(), "^2.0.0".to_string()),
        ]),
        optional_dependencies: Some(vec![("extra".to_string(), "^2.0.0".to_string())]),
        dist: DistInfo { tarball: String::new(), shasum: String::new() },
    };
    let installed = vec!["present".to_string()];
    let (required, optional) = missing_peer_sets(&info, &installed);
    assert_eq!(required, vec![("needed".to_string(), "^1.0.0".to_string())]);
    assert_eq!(optional, vec![("extra".to_string(), "^2.0.0".to_string())]);
}

#[test]
fn sizes_render_with_binary_units() {
    assert_eq!(CliStyle::format_size(0), "0 B");
    assert_eq!(CliStyle::format_size(512), "512 B");
    assert_eq!(CliStyle::format_size(1536), "1.5 KB");
    assert_eq!(CliStyle::format_size(1048576), "1.0 MB");
    assert_eq!(CliStyle::format_size(1572864), "1.5 MB");
    assert_eq!(CliStyle::format_size(3221225472), "3.0 GB");
}

#[test]
fn durations_render_by_magnitude() {
    assert_eq!(CliStyle::format_duration(500), "500ms");
    assert_eq!(CliStyle::format_duration(999), "999ms");
    assert_eq!(CliStyle::format_duration(1500), "1.5s");
    assert_eq!(CliStyle::format_duration(59940), "59.9s");
    assert_eq!(CliStyle::format_duration(65000), "1m 5s");
    assert_eq!(CliStyle::format_duration(3600000), "60m 0s");
}

#[test]
fn number_rendering_is_decimal() {
    assert_eq!(clay::cli_style::u64_to_dec(0), "0");
    assert_eq!(clay::cli_style::u64_to_dec(7), "7");
    assert_eq!(clay::cli_style::u64_to_dec(1024), "1024");
    assert_eq!(clay::cli_style::u64_to_dec(18446744073709551615), "18446744073709551615");
}

#[test]
fn split_and_key_helpers_behave_like_std() {
    let parts = clay::text::split_str("1.2.3-beta", '.');
    let expect: Vec<String> = "1.2.3-beta".split('.').map(|s| s.to_string()).collect();
    assert_eq!(parts, expect);
    let parts = clay::text::split_str("..", '.');
    assert_eq!(parts, vec!["".to_string(), "".to_string(), "".to_string()]);
    assert_eq!(clay::text::make_key("lodash", "4.17.21"), "lodash@4.17.21");
}

#[test]
fn fingerprint_is_order_insensitive_and_table_sensitive() {
    let mut a = PackageJson::new();
    a.add_dependency("zeta", "1.0.0");
    a.add_dependency("alpha", "2.0.0");
    let mut b = PackageJson::new();
    b.add_dependency("alpha", "2.0.0");
    b.add_dependency("zeta", "1.0.0");
    let fa = a.calculate_dependency_fingerprint(false);
    assert_eq!(fa.len(), 40);
    assert_eq!(fa, b.calculate_dependency_fingerprint(false));
    // The digest is the SHA-1 of the sorted kind:name:spec lines.
    let expected = format!(
        "{:x}",
        sha1::Sha1::digest(b"dep:alpha:2.0.0dep:zeta:1.0.0")
    );
    assert_eq!(fa, expected);
    // Development dependencies only count when asked for.
    b.add_dev_dependency("tool", "1.0.0");
    assert_eq!(fa, b.calculate_dependency_fingerprint(false));
    assert_ne!(
        a.calculate_dependency_fingerprint(true),
        b.calculate_dependency_fingerprint(true)
    );
    // A changed spec changes the digest.
    a.add_dependency("alpha", "3.0.0");
    assert_ne!(fa, a.calculate_dependency_fingerprint(false));
}
