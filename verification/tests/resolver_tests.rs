use clay::errors::PkgError;
use clay::installer::{apply_install_to_lock, plan_install, uninstall_package, UninstallOutcome};
use clay::lockfile::LockFile;
use clay::registry::{BinSpec, DistInfo, NpmRegistryResponse, PackageInfo};
use clay::resolver::PackageResolver;

fn info(name: &str, version: &str, shasum: &str, deps: Option<Vec<(&str, &str)>>) -> PackageInfo {
    PackageInfo {
        name: name.to_string(),
        version: version.to_string(),
        description: None,
        main: None,
        bin: BinSpec::Missing,
        dependencies: deps.map(|d| {
            d.into_iter()
                .map(|(a, b)| (a.to_string(), b.to_string()))
                .collect()
        }),
        peer_dependencies: None,
        optional_dependencies: None,
        dist: DistInfo {
            tarball: format!("https://registry.npmjs.org/{}/-/{}-{}.tgz", name, name, version),
            shasum: shasum.to_string(),
        },
    }
}

fn response(entries: Vec<PackageInfo>, latest: &str) -> NpmRegistryResponse {
    NpmRegistryResponse {
        versions: entries.into_iter().map(|i| (i.version.clone(), i)).collect(),
        dist_tags: vec![("latest".to_string(), latest.to_string())],
    }
}

fn lodash_registry() -> PackageResolver {
    PackageResolver::new(vec![(
        "lodash".to_string(),
        response(
            vec![info(
                "lodash",
                "4.17.21",
                "2da2886a4d45b2c99036a1cb84b2d6a70c9b0d95",
                None,
            )],
            "4.17.21",
        ),
    )])
}

#[test]
fn fresh_install_records_the_root_package() {
    // An empty project, one requested root: resolution, planning and the
    // lock update succeed, and the lock holds the declared digest.
    let resolver = lodash_registry();
    let tree = resolver.resolve_tree("lodash", "4.17.21", false).unwrap();
    assert_eq!(tree.name, "lodash");
    assert_eq!(tree.version, "4.17.21");
    let installed: Vec<String> = vec![];
    let plan = plan_install(&vec![tree], &installed, true);
    assert_eq!(plan.len(), 1);
    assert_eq!(plan[0].info.name, "lodash");
    assert_eq!(plan[0].parent, "root");
    assert!(plan[0].update_manifest);
    let mut lock = LockFile::new();
    apply_install_to_lock(&mut lock, &plan);
    assert!(lock.is_consistent());
    let e = lock.packages.iter().find(|p| p.name == "lodash").unwrap();
    assert_eq!(e.version, "4.17.21");
    assert_eq!(e.integrity, "2da2886a4d45b2c99036a1cb84b2d6a70c9b0d95");
    assert_eq!(e.required_by, vec!["root".to_string()]);
}

#[test]
fn reinstall_plans_nothing() {
    // Same request against a tree that already holds the package: the plan
    // is empty, so nothing is fetched and nothing under node_modules moves.
    let resolver = lodash_registry();
    let tree = resolver.resolve_tree("lodash", "4.17.21", false).unwrap();
    let installed = vec!["lodash".to_string()];
    let plan = plan_install(&vec![tree], &installed, true);
    assert!(plan.is_empty());
    let mut lock = LockFile::new();
    lock.add_package("lodash", "4.17.21", "u", "i", None, "root");
    let before = lock.packages.len();
    apply_install_to_lock(&mut lock, &plan);
    // The empty plan left the lock value untouched, so the re-serialized
    // file is byte-for-byte the same.
    assert_eq!(lock.packages.len(), before);
    assert_eq!(lock.packages[0].name, "lodash");
    assert_eq!(lock.packages[0].version, "4.17.21");
    assert_eq!(lock.packages[0].required_by, vec!["root".to_string()]);
}

#[test]
fn install_then_uninstall_clears_the_lock() {
    let resolver = lodash_registry();
    let tree = resolver.resolve_tree("lodash", "4.17.21", false).unwrap();
    let plan = plan_install(&vec![tree], &vec![], true);
    let mut lock = LockFile::new();
    apply_install_to_lock(&mut lock, &plan);
    let mut manifest = clay::manifest::PackageJson::new();
    manifest.add_dependency("lodash", "^4.17.21");
    let outcome = uninstall_package(&mut lock, "lodash");
    match outcome {
        UninstallOutcome::Removed(names) => assert_eq!(names, vec!["lodash".to_string()]),
        _ => panic!("expected removal"),
    }
    assert!(lock.packages.iter().find(|p| p.name == "lodash").is_none());
    assert!(lock.is_consistent());
    manifest.remove_dependency("lodash");
    assert!(manifest
        .dependencies
        .as_ref()
        .unwrap()
        .iter()
        .find(|d| d.0 == "lodash")
        .is_none());
}

#[test]
fn uninstall_is_blocked_by_other_requesters() {
    let mut lock = LockFile::new();
    lock.add_package("shared", "1.0.0", "u", "i", None, "root");
    lock.add_package("shared", "1.0.0", "u", "i", None, "consumer");
    let outcome = uninstall_package(&mut lock, "shared");
    match outcome {
        UninstallOutcome::Blocked(who) => assert_eq!(who, vec!["consumer".to_string()]),
        _ => panic!("expected a blocked uninstall"),
    }
    assert_eq!(lock.packages.len(), 1);
}

#[test]
fn uninstall_cascades_through_sole_requesters() {
    let mut lock = LockFile::new();
    lock.add_package(
        "app",
        "1.0.0",
        "u",
        "i",
        Some(vec![("helper".to_string(), "1.0.0".to_string())]),
        "root",
    );
    lock.add_package("helper", "1.0.0", "u", "i", None, "app");
    assert!(lock.is_consistent());
    let outcome = uninstall_package(&mut lock, "app");
    match outcome {
        UninstallOutcome::Removed(names) => {
            assert_eq!(names, vec!["app".to_string(), "helper".to_string()])
        },
        _ => panic!("expected removal"),
    }
    assert!(lock.packages.is_empty());
    assert!(lock.is_consistent());
}

#[test]
fn cycle_resolves_to_two_real_nodes_and_a_stub() {
    // A requires B and B requires A: the resolver returns both real nodes,
    // the re-entry appears as the circular stub, and the installer plans
    // each package exactly once.
    let resolver = PackageResolver::new(vec![
        (
            "a".to_string(),
            response(vec![info("a", "1.0.0", "s", Some(vec![("b", "1.0.0")]))], "1.0.0"),
        ),
        (
            "b".to_string(),
            response(vec![info("b", "1.0.0", "s", Some(vec![("a", "1.0.0")]))], "1.0.0"),
        ),
    ]);
    let tree = resolver.resolve_tree("a", "1.0.0", false).unwrap();
    assert_eq!(tree.name, "a");
    assert_eq!(tree.dependencies.len(), 1);
    let b = &tree.dependencies[0];
    assert_eq!(b.name, "b");
    assert_eq!(b.dependencies.len(), 1);
    let stub = &b.dependencies[0];
    assert_eq!(stub.name, "circular");
    assert!(stub.dependencies.is_empty());
    let roots = vec![tree];
    assert_eq!(PackageResolver::count_total_packages(&roots), 3);
    let plan = plan_install(&roots, &vec![], true);
    let names: Vec<&str> = plan.iter().map(|s| s.info.name.as_str()).collect();
    // Dependencies come before their parent, each exactly once, no stub.
    assert_eq!(names, vec!["b", "a"]);
}

#[test]
fn unknown_package_and_version_fail_typed() {
    let resolver = lodash_registry();
    match resolver.resolve_tree("notthere", "1.0.0", false) {
        Err(PkgError::NotFound(n)) => assert_eq!(n, "notthere"),
        _ => panic!("expected NotFound"),
    }
    match resolver.resolve_tree("lodash", "9.9.9", false) {
        Err(PkgError::VersionNotFound(n, v)) => {
            assert_eq!(n, "lodash");
            assert_eq!(v, "9.9.9");
        },
        _ => panic!("expected VersionNotFound"),
    }
}

#[test]
fn ranges_resolve_to_the_latest_tag() {
    let resolver = PackageResolver::new(vec![(
        "pkg".to_string(),
        response(
            vec![
                info("pkg", "1.0.0", "s1", None),
                info("pkg", "2.0.0", "s2", None),
            ],
            "2.0.0",
        ),
    )]);
    let t = resolver.resolve_tree("pkg", "^1.0.0", false).unwrap();
    // The simplified policy sends every non-exact spec to `latest`.
    assert_eq!(t.version, "2.0.0");
    let t = resolver.resolve_tree("pkg", "latest", false).unwrap();
    assert_eq!(t.version, "2.0.0");
    let t = resolver.resolve_tree("pkg", "1.0.0", false).unwrap();
    assert_eq!(t.version, "1.0.0");
}

#[test]
fn resolution_failure_aborts_the_whole_batch() {
    // An unknown name among the roots makes the whole operation fail, per
    // the propagation policy; nothing is returned for the siblings.
    let resolver = lodash_registry();
    let requests = vec![
        ("lodash".to_string(), "4.17.21".to_string(), false),
        ("ghost".to_string(), "1.0.0".to_string(), false),
    ];
    match resolver.resolve_multiple_packages(&requests) {
        Err(PkgError::NotFound(n)) => assert_eq!(n, "ghost"),
        _ => panic!("expected the batch to abort with NotFound"),
    }
    let good = vec![("lodash".to_string(), "4.17.21".to_string(), false)];
    let trees = resolver.resolve_multiple_packages(&good).unwrap();
    assert_eq!(trees.len(), 1);
    assert_eq!(trees[0].name, "lodash");
    assert_eq!(trees[0].version, "4.17.21");
}
