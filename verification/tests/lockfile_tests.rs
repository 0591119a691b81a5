use clay::lockfile::LockFile;

fn entry<'a>(lock: &'a LockFile, name: &str) -> Option<&'a clay::lockfile::LockedPackage> {
    lock.packages.iter().find(|p| p.name == name)
}

#[test]
fn add_package_creates_entry_with_requester() {
    let mut lock = LockFile::new();
    assert_eq!(lock.version, "1.0.0");
    lock.add_package("lodash", "4.17.21", "https://reg/lodash.tgz", "abc", None, "root");
    let e = entry(&lock, "lodash").unwrap();
    assert_eq!(e.version, "4.17.21");
    assert_eq!(e.resolved, "https://reg/lodash.tgz");
    assert_eq!(e.integrity, "abc");
    assert_eq!(e.required_by, vec!["root".to_string()]);
}

#[test]
fn add_package_unions_requesters_and_keeps_fields() {
    let mut lock = LockFile::new();
    lock.add_package("left-pad", "1.3.0", "u1", "i1", None, "root");
    lock.add_package("left-pad", "9.9.9", "u2", "i2", None, "app-a");
    lock.add_package("left-pad", "9.9.9", "u2", "i2", None, "root");
    let e = entry(&lock, "left-pad").unwrap();
    // The first insertion's fields survive; only the requester set grew.
    assert_eq!(e.version, "1.3.0");
    assert_eq!(e.resolved, "u1");
    assert_eq!(e.integrity, "i1");
    assert_eq!(e.required_by, vec!["root".to_string(), "app-a".to_string()]);
}

#[test]
fn remove_package_drops_requester_then_entry() {
    let mut lock = LockFile::new();
    lock.add_package("dep", "1.0.0", "u", "i", None, "root");
    lock.add_package("dep", "1.0.0", "u", "i", None, "other");
    let fully = lock.remove_package("dep", "root");
    assert!(!fully);
    assert_eq!(entry(&lock, "dep").unwrap().required_by, vec!["other".to_string()]);
    let fully = lock.remove_package("dep", "other");
    assert!(fully);
    assert!(entry(&lock, "dep").is_none());
}

#[test]
fn remove_package_missing_entry_is_a_no_op() {
    let mut lock = LockFile::new();
    assert!(!lock.remove_package("ghost", "root"));
    assert_eq!(lock.packages.len(), 0);
}

#[test]
fn can_remove_package_reports_remaining_requesters() {
    let mut lock = LockFile::new();
    lock.add_package("dep", "1.0.0", "u", "i", None, "root");
    lock.add_package("dep", "1.0.0", "u", "i", None, "consumer");
    let (can, remaining) = lock.can_remove_package("dep", "root");
    assert!(!can);
    assert_eq!(remaining, vec!["consumer".to_string()]);
    let (can, remaining) = lock.can_remove_package("absent", "root");
    assert!(can);
    assert!(remaining.is_empty());
    // The probe did not change the lock.
    assert_eq!(entry(&lock, "dep").unwrap().required_by.len(), 2);
}
