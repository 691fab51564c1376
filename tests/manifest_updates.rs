use pacm::specifier::{parse_spec, strip_leading_segment};

#[test]
fn parses_scoped_with_range() {
    let (name, range) = parse_spec("@scope/pkg@^1.2.3");
    assert_eq!(name, "@scope/pkg");
    assert_eq!(range, "^1.2.3");
}

#[test]
fn parses_scoped_without_range() {
    let (name, range) = parse_spec("@scope/pkg");
    assert_eq!(name, "@scope/pkg");
    assert_eq!(range, "*");
}

#[test]
fn parses_unscoped_with_range() {
    let (name, range) = parse_spec("lodash@^4.17.0");
    assert_eq!(name, "lodash");
    assert_eq!(range, "^4.17.0");
}

#[test]
fn parses_unscoped_without_range() {
    let (name, range) = parse_spec("lodash");
    assert_eq!(name, "lodash");
    assert_eq!(range, "*");
}

#[test]
fn parses_empty_range_after_separator() {
    let (name, range) = parse_spec("lodash@");
    assert_eq!(name, "lodash");
    assert_eq!(range, "");
}

#[test]
fn parses_lone_scope_marker() {
    let (name, range) = parse_spec("@");
    assert_eq!(name, "@");
    assert_eq!(range, "*");
}

#[test]
fn tarball_paths_lose_their_first_segment() {
    assert_eq!(strip_leading_segment("package/lib/index.js"), "lib/index.js");
    assert_eq!(strip_leading_segment("package/package.json"), "package.json");
    assert_eq!(strip_leading_segment("package"), "");
}
