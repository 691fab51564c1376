use pacm::install::entry_root_dir;
use pacm::store_key::{
    content_hash, derive_store_key, sort_fingerprints, to_hex, DependencyFingerprint, FileBody,
    FileRecord,
};
use sha2::Digest;

fn fp(name: &str, version: &str, key: Option<&str>) -> DependencyFingerprint {
    DependencyFingerprint {
        name: name.into(),
        version: version.into(),
        store_key: key.map(|k| k.to_string()),
    }
}

#[test]
fn dependency_order_does_not_change_store_key() {
    let forward = vec![fp("dep-a", "1.0.0", Some("dep-a@1.0.0::aaaa")), fp("dep-b", "2.0.0", Some("dep-b@2.0.0::bbbb"))];
    let reverse = vec![fp("dep-b", "2.0.0", Some("dep-b@2.0.0::bbbb")), fp("dep-a", "1.0.0", Some("dep-a@1.0.0::aaaa"))];
    let first = derive_store_key("parent", "3.0.0", "c0ffee", &forward);
    let second = derive_store_key("parent", "3.0.0", "c0ffee", &reverse);
    assert_eq!(first.store_key, second.store_key);
    assert_eq!(first.graph_hash, second.graph_hash);
    assert_eq!(
        entry_root_dir("/store", &first.store_key),
        entry_root_dir("/store", &second.store_key)
    );
    let names: Vec<&str> = first.dependencies.iter().map(|d| d.name.as_str()).collect();
    assert_eq!(names, vec!["dep-a", "dep-b"]);
}

#[test]
fn store_key_has_name_version_and_sixteen_hex_digits() {
    let keys = derive_store_key("foo", "1.2.3", "abc", &[]);
    assert!(keys.store_key.starts_with("foo@1.2.3::"));
    let suffix = &keys.store_key["foo@1.2.3::".len()..];
    assert_eq!(suffix.len(), 16);
    assert_eq!(keys.graph_hash.len(), 64);
    assert!(keys.graph_hash.starts_with(suffix));
}

#[test]
fn graph_hash_is_sha256_of_content_hash_without_dependencies() {
    // SHA-256 of "abc".
    let keys = derive_store_key("foo", "1.2.3", "abc", &[]);
    assert_eq!(
        keys.graph_hash,
        "ba7816bf8f01cfea414140de5dae2223b00361a396177a9cb410ff61f20015ad"
    );
}

#[test]
fn dependencies_change_graph_hash() {
    let none = derive_store_key("foo", "1.2.3", "abc", &[]);
    let one = derive_store_key("foo", "1.2.3", "abc", &[fp("bar", "1.0.0", None)]);
    assert_ne!(none.graph_hash, one.graph_hash);
}

#[test]
fn fingerprints_sort_by_name_version_then_key() {
    let sorted = sort_fingerprints(&[
        fp("b", "1.0.0", None),
        fp("a", "2.0.0", Some("k2")),
        fp("a", "2.0.0", None),
        fp("a", "10.0.0", None),
    ]);
    let view: Vec<(String, String, Option<String>)> =
        sorted.iter().map(|d| (d.name.clone(), d.version.clone(), d.store_key.clone())).collect();
    assert_eq!(
        view,
        vec![
            ("a".into(), "10.0.0".into(), None),
            ("a".into(), "2.0.0".into(), None),
            ("a".into(), "2.0.0".into(), Some("k2".into())),
            ("b".into(), "1.0.0".into(), None),
        ]
    );
}

#[test]
fn hex_renders_two_lowercase_digits_per_byte() {
    assert_eq!(to_hex(&[0x00, 0xab, 0x7f]), b"00ab7f".to_vec());
}

#[test]
fn content_hash_of_empty_tree() {
    assert_eq!(
        content_hash(&Vec::new()).unwrap(),
        "e3b0c44298fc1c149afbf4c8996fb92427ae41e4649b934ca495991b7852b855"
    );
}

#[test]
fn content_hash_serializes_files_and_links() {
    let files = vec![
        FileRecord { path: "a.txt".into(), body: FileBody::Regular { mode: 0o644, data: b"abc".to_vec() } },
        FileRecord { path: "b".into(), body: FileBody::Symlink { target: "a.txt".into() } },
    ];
    let expected = sha2::Sha256::digest(b"a.txt\x00420\x003\x00abcb\x00SYM\x00a.txt\x00");
    assert_eq!(content_hash(&files).unwrap().into_bytes(), to_hex(&expected));
}

#[test]
fn content_hash_refuses_files_out_of_path_order() {
    let files = vec![
        FileRecord { path: "b".into(), body: FileBody::Regular { mode: 0o644, data: Vec::new() } },
        FileRecord { path: "a".into(), body: FileBody::Regular { mode: 0o644, data: Vec::new() } },
    ];
    assert!(content_hash(&files).is_none());
    // Byte order puts "a-b" before "a/b".
    let files = vec![
        FileRecord { path: "a-b".into(), body: FileBody::Regular { mode: 0o644, data: Vec::new() } },
        FileRecord { path: "a/b".into(), body: FileBody::Regular { mode: 0o644, data: Vec::new() } },
    ];
    assert!(content_hash(&files).is_some());
}

#[test]
fn store_entry_paths_hang_off_root_dir() {
    let keys = derive_store_key("foo", "1.2.3", "abc", &[]);
    let key = keys.store_key.clone();
    let e = pacm::install::StoreEntry::assemble("/store", keys, "abc".into(), 7);
    assert_eq!(e.root_dir, format!("/store/{key}"));
    assert_eq!(e.package_dir, format!("/store/{key}/package"));
    assert_eq!(e.metadata_path, format!("/store/{key}/metadata.json"));
    assert_eq!(e.created_at, 7);
}
