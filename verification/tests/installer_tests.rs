use clay::errors::PkgError;
use clay::installer::{bin_links, check_download, check_packages_already_installed};
use clay::registry::BinSpec;
use sha1::Digest;

#[test]
fn check_download_accepts_matching_digest() {
    let body = b"abc";
    // The SHA-1 of `abc` is a published reference value.
    assert_eq!(
        format!("{:x}", sha1::Sha1::digest(body)),
        "a9993e364706816aba3e25717850c26c9cd0d89d"
    );
    assert!(check_download(body, "a9993e364706816aba3e25717850c26c9cd0d89d").is_ok());
}

#[test]
fn check_download_rejects_mismatch_with_both_digests() {
    let body = b"corrupted body";
    let err = check_download(body, "a9993e364706816aba3e25717850c26c9cd0d89d").unwrap_err();
    assert!(err.is_integrity_mismatch());
    match err {
        PkgError::IntegrityMismatch(expected, computed) => {
            assert_eq!(expected, "a9993e364706816aba3e25717850c26c9cd0d89d");
            assert_eq!(computed, format!("{:x}", sha1::Sha1::digest(body)));
        },
        _ => panic!("expected IntegrityMismatch"),
    }
}

#[test]
fn integrity_check_through_the_client() {
    let client = clay::registry::NpmClient::new();
    assert_eq!(client.registry_url, "https://registry.npmjs.org");
    assert!(client.verify_package_integrity(b"abc", "a9993e364706816aba3e25717850c26c9cd0d89d"));
    assert!(!client.verify_package_integrity(b"abd", "a9993e364706816aba3e25717850c26c9cd0d89d"));
}

#[test]
fn tarball_urls_resolve_against_the_registry_base() {
    let client = clay::registry::NpmClient::new();
    assert_eq!(
        client.tarball_url("https://cdn.example/x.tgz"),
        "https://cdn.example/x.tgz"
    );
    assert_eq!(
        client.tarball_url("/lodash/-/lodash-4.17.21.tgz"),
        "https://registry.npmjs.org/lodash/-/lodash-4.17.21.tgz"
    );
    assert_eq!(
        client.tarball_url("lodash/-/lodash-4.17.21.tgz"),
        "https://registry.npmjs.org/lodash/-/lodash-4.17.21.tgz"
    );
    assert_eq!(client.info_url("left-pad"), "https://registry.npmjs.org/left-pad");
}

#[test]
fn already_installed_specs_are_partitioned() {
    let specs = vec![
        ("a".to_string(), "1.0.0".to_string()),
        ("b".to_string(), "2.0.0".to_string()),
        ("c".to_string(), "3.0.0".to_string()),
    ];
    let installed = vec!["b".to_string()];
    let (already, to_install) = check_packages_already_installed(&specs, &installed);
    assert_eq!(already, vec!["b".to_string()]);
    assert_eq!(
        to_install,
        vec![
            ("a".to_string(), "1.0.0".to_string()),
            ("c".to_string(), "3.0.0".to_string())
        ]
    );
}

#[test]
fn bin_links_cover_both_declaration_forms() {
    assert!(bin_links("pkg", &BinSpec::Missing).is_empty());
    assert_eq!(
        bin_links("pkg", &BinSpec::Single("./cli.js".to_string())),
        vec![("pkg".to_string(), "./cli.js".to_string())]
    );
    assert_eq!(
        bin_links(
            "pkg",
            &BinSpec::Table(vec![
                ("tool-a".to_string(), "./a.js".to_string()),
                ("tool-b".to_string(), "./b.js".to_string())
            ])
        ),
        vec![
            ("tool-a".to_string(), "./a.js".to_string()),
            ("tool-b".to_string(), "./b.js".to_string())
        ]
    );
}

#[test]
fn listing_splits_user_packages_from_dependencies() {
    let mut manifest = clay::manifest::PackageJson::new();
    manifest.add_dependency("express", "^4.0.0");
    manifest.add_dev_dependency("jest", "^29.0.0");
    let installed = vec![
        "accepts".to_string(),
        "express".to_string(),
        "jest".to_string(),
    ];
    let (user, deps) = clay::manifest::split_user_installed(&manifest, &installed);
    assert_eq!(user, vec!["express".to_string(), "jest".to_string()]);
    assert_eq!(deps, vec!["accepts".to_string()]);
}
