use pacm::range::canonicalize_npm_range;

#[test]
fn test_basic_wildcards() {
    assert_eq!(canonicalize_npm_range("*"), "*");
    assert_eq!(
        canonicalize_npm_range("1.x"),
        ">=1.0.0, <2.0.0".replace("  ", " ")
    );
    assert_eq!(canonicalize_npm_range("1.2.x"), ">=1.2.0, <1.3.0");
}

#[test]
fn test_hyphen() {
    assert_eq!(canonicalize_npm_range("1.2.3 - 2.3.4"), ">=1.2.3, <=2.3.4");
}

#[test]
fn test_spaced_comparators() {
    let c = canonicalize_npm_range(">= 2.1.2 < 3.0.0");
    // Both comparators survive, with the operators joined to their versions.
    assert!(c.contains(">=2.1.2") && c.contains("<3.0.0"));
}

#[test]
fn spaced_comparators_exact_form() {
    assert_eq!(canonicalize_npm_range(">= 2.1.2 < 3.0.0"), ">=2.1.2, <3.0.0");
    assert_eq!(canonicalize_npm_range(">=1.0.0,<2.0.0"), ">=1.0.0, <2.0.0");
}

#[test]
fn empty_range_is_any() {
    assert_eq!(canonicalize_npm_range(""), "*");
    assert_eq!(canonicalize_npm_range("  "), "*");
}

#[test]
fn caret_ranges() {
    assert_eq!(canonicalize_npm_range("^1.2.3"), ">=1.2.3, <2.0.0");
    assert_eq!(canonicalize_npm_range("^0.2.3"), ">=0.2.3, <0.3.0");
    assert_eq!(canonicalize_npm_range("^0.0.3"), ">=0.0.3, <0.0.4");
}

#[test]
fn tilde_ranges() {
    assert_eq!(canonicalize_npm_range("~1.2.3"), ">=1.2.3, <1.3.0");
    assert_eq!(canonicalize_npm_range("~1.2"), ">=1.2.0, <1.3.0");
}

#[test]
fn upper_case_and_star_wildcards() {
    assert_eq!(canonicalize_npm_range("2.X"), ">=2.0.0, <3.0.0");
    assert_eq!(canonicalize_npm_range("2.9.*"), ">=2.9.0, <2.10.0");
}

#[test]
fn unparseable_range_is_returned_unchanged() {
    assert_eq!(canonicalize_npm_range("latest"), "latest");
    assert_eq!(canonicalize_npm_range("^1.2"), "^1.2");
    assert_eq!(canonicalize_npm_range("1a 2b"), "1a 2b");
    assert_eq!(canonicalize_npm_range(">=1.2"), ">=1.2");
    assert_eq!(canonicalize_npm_range("not-a-range"), "not-a-range");
}

#[test]
fn canonical_form_is_stable() {
    let once = canonicalize_npm_range("^1.2.3 || junk");
    assert_eq!(once, "^1.2.3 || junk");
    let c = canonicalize_npm_range("1.x");
    assert_eq!(canonicalize_npm_range(&c), c);
    let h = canonicalize_npm_range("1.2.3 - 2.3.4");
    assert_eq!(canonicalize_npm_range(&h), h);
}
