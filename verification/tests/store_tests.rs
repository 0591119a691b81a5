use clay::content_store::{content_rel_path, ContentAddress, ContentStore, PackageMetadata};
use sha1::Digest;
use std::io::Write;

/// Builds a gzip-compressed tarball holding one `package/package.json` with
/// the given bytes, the shape publish tooling produces.
fn tarball_with_manifest(manifest: &[u8]) -> Vec<u8> {
    let enc = flate2::write::GzEncoder::new(Vec::new(), flate2::Compression::default());
    let mut builder = tar::Builder::new(enc);
    let mut header = tar::Header::new_gnu();
    header.set_size(manifest.len() as u64);
    header.set_mode(0o644);
    header.set_cksum();
    builder
        .append_data(&mut header, "package/package.json", manifest)
        .unwrap();
    let enc = builder.into_inner().unwrap();
    enc.finish().unwrap()
}

fn hex_sha1(data: &[u8]) -> String {
    let mut h = sha1::Sha1::new();
    h.update(data);
    format!("{:x}", h.finalize())
}

#[test]
fn store_package_indexes_object_and_metadata() {
    let manifest = b"{\"name\":\"left-pad\",\"version\":\"1.3.0\",\"dependencies\":{\"b\":\"1.0.0\",\"a\":\"2.0.0\"}}";
    let tarball = tarball_with_manifest(manifest);
    let mut store = ContentStore::new();
    let (addr, write) = store
        .store_package("left-pad", "1.3.0", &tarball, "declared-digest")
        .unwrap();
    assert_eq!(addr.hash, hex_sha1(&tarball));
    assert_eq!(addr.size, tarball.len() as u64);
    assert_eq!(addr.integrity, "declared-digest");
    let w = write.expect("a new object must be written");
    assert_eq!(w.rel_path, content_rel_path(&addr.hash));
    // The stored object is the gzip of the raw bytes: it must decode back.
    let mut dec = flate2::read::GzDecoder::new(&w.bytes[..]);
    let mut back = Vec::new();
    std::io::Read::read_to_end(&mut dec, &mut back).unwrap();
    assert_eq!(back, tarball);
    // Metadata lists the archive entry and the parsed dependency map,
    // sorted by name.
    let meta = store.get_package_info("left-pad", "1.3.0").unwrap();
    assert_eq!(meta.files, vec!["package/package.json".to_string()]);
    assert_eq!(
        meta.dependencies.clone().unwrap(),
        vec![
            ("a".to_string(), "2.0.0".to_string()),
            ("b".to_string(), "1.0.0".to_string())
        ]
    );
    // A second store of identical bytes under the same key writes nothing.
    let (addr2, write2) = store
        .store_package("left-pad", "1.3.0", &tarball, "declared-digest")
        .unwrap();
    assert_eq!(addr2.hash, addr.hash);
    assert!(write2.is_none());
}

#[test]
fn dedup_across_projects_shares_one_object() {
    let tarball = tarball_with_manifest(b"{\"name\":\"left-pad\",\"version\":\"1.3.0\"}");
    let mut store = ContentStore::new();
    store.store_package("left-pad", "1.3.0", &tarball, "d").unwrap();
    let (_, write2) = store
        .store_package("left-pad-copy", "1.3.0", &tarball, "d")
        .unwrap();
    // The bytes are already held: no second disk object.
    assert!(write2.is_none());
    let stats = store.get_store_stats();
    assert_eq!(stats.unique_content_count, 1);
    assert_eq!(stats.total_packages, 2);
    assert!(stats.space_saved > 0);
    assert_eq!(stats.duplicate_packages, 1);
    assert_eq!(store.deduplicate_store(), tarball.len() as u64);
}

#[test]
fn gc_removes_inactive_records_and_orphan_objects() {
    let t1 = tarball_with_manifest(b"{\"name\":\"keep\",\"version\":\"1.0.0\"}");
    let t2 = tarball_with_manifest(b"{\"name\":\"drop\",\"version\":\"2.0.0\"}");
    let mut store = ContentStore::new();
    store.store_package("keep", "1.0.0", &t1, "i1").unwrap();
    store.store_package("drop", "2.0.0", &t2, "i2").unwrap();
    let h2 = hex_sha1(&t2);
    let active = vec!["keep@1.0.0".to_string()];
    let (removed_paths, removed_bytes) = store.cleanup_unused(&active);
    assert_eq!(removed_paths, vec![content_rel_path(&h2)]);
    assert_eq!(removed_bytes, t2.len() as u64);
    assert!(store.get_package_info("keep", "1.0.0").is_some());
    assert!(store.get_package_info("drop", "2.0.0").is_none());
    let stats = store.get_store_stats();
    assert_eq!(stats.total_packages, 1);
    assert_eq!(stats.unique_content_count, 1);
}

#[test]
fn link_package_points_at_the_sharded_object() {
    let t = tarball_with_manifest(b"{\"name\":\"x\",\"version\":\"1.0.0\"}");
    let mut store = ContentStore::new();
    let (addr, _) = store.store_package("x", "1.0.0", &t, "i").unwrap();
    let p = store.link_package("x", "1.0.0").unwrap();
    assert_eq!(p, content_rel_path(&addr.hash));
    assert_eq!(
        p,
        format!("content/{}/{}.tar.gz", &addr.hash[..2], &addr.hash[2..])
    );
    assert!(store.link_package("y", "1.0.0").is_none());
}

#[test]
fn from_parts_validates_the_store_shape() {
    let addr = |h: &str| ContentAddress { hash: h.to_string(), size: 3, integrity: "i".to_string() };
    let good_ix = vec![("aabbcc".to_string(), addr("aabbcc"))];
    let good_pk = vec![(
        "x@1.0.0".to_string(),
        PackageMetadata {
            name: "x".to_string(),
            version: "1.0.0".to_string(),
            content_address: addr("aabbcc"),
            dependencies: None,
            files: vec![],
        },
    )];
    assert!(ContentStore::from_parts(good_ix, good_pk).is_ok());
    // An object entry whose recorded hash disagrees with its key is refused.
    let bad_ix = vec![("aabbcc".to_string(), addr("zz"))];
    assert!(ContentStore::from_parts(bad_ix, vec![]).is_err());
    // A package record pointing at a missing object is refused.
    let dangling = vec![(
        "y@1.0.0".to_string(),
        PackageMetadata {
            name: "y".to_string(),
            version: "1.0.0".to_string(),
            content_address: addr("ddeeff"),
            dependencies: None,
            files: vec![],
        },
    )];
    assert!(ContentStore::from_parts(vec![], dangling).is_err());
}

#[test]
fn corrupt_archive_changes_nothing() {
    let mut store = ContentStore::new();
    let garbage = b"this is not a tarball at all";
    let r = store.store_package("bad", "0.0.1", garbage, "i");
    assert!(matches!(r, Err(clay::errors::PkgError::Extraction(_))));
    assert_eq!(store.index.len(), 0);
    assert_eq!(store.package_index.len(), 0);
}

#[test]
fn dependency_trees_are_cached_by_digest() {
    let mut tree = clay::trees::DependencyTree::new(0);
    tree.add_package("a", "1.0.0", "hash-a", "int-a", None);
    tree.add_package("b", "2.0.0", "hash-b", "int-b", None);
    let mut again = clay::trees::DependencyTree::new(99);
    again.add_package("b", "2.0.0", "hash-b", "int-b", None);
    again.add_package("a", "1.0.0", "hash-a", "int-a", None);
    // The digest orders records by name, so build order cannot matter.
    assert_eq!(tree.tree_hash, again.tree_hash);
    let expected = format!(
        "{:x}",
        sha1::Sha1::digest(b"a1.0.0hash-aint-ab2.0.0hash-bint-b")
    );
    assert_eq!(tree.tree_hash, expected);
    let digest = tree.tree_hash.clone();
    let mut store = ContentStore::new();
    let (back, rel) = store.store_dependency_tree(tree);
    assert_eq!(back, digest);
    assert_eq!(
        rel,
        format!("trees/{}/{}.json", &digest[..2], &digest[2..])
    );
    assert!(store.has_dependency_tree(&digest));
    // The lookup hands back exactly the tree that was stored.
    let cached = store.get_dependency_tree(&digest).unwrap();
    assert_eq!(cached.resolved_at, 0);
    assert_eq!(cached.tree_hash, digest);
    assert_eq!(cached.packages.len(), 2);
    assert_eq!(cached.packages[0].0, "a");
    assert_eq!(cached.packages[0].1.version, "1.0.0");
    assert_eq!(cached.packages[1].1.content_hash, "hash-b");
    assert!(!store.has_dependency_tree("ffff"));
    assert!(store.get_dependency_tree("ffff").is_none());
}
