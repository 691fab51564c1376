use pacm::lockfile::{
    decode_current_binary, encode_current_binary, LockfileError, Lockfile, PackageEntry, PeerMeta,
};
use pacm::manifest::Manifest;

#[test]
fn lockfile_sync() {
    let mut manifest = Manifest::new("demo".into(), "0.1.0".into());
    manifest.dependencies.push(("foo".into(), "^1.0.0".into()));
    let mut lock = Lockfile::default();
    lock.sync_from_manifest(&manifest);
    let bytes = encode_current_binary(&lock).unwrap();
    let loaded = decode_current_binary(&bytes).unwrap();
    assert!(loaded.contains_key(""));
    assert!(loaded.contains_key("node_modules/foo"));
}

fn full_entry() -> PackageEntry {
    PackageEntry {
        version: Some("1.2.3".to_string()),
        integrity: Some("sha512-deadbeef".to_string()),
        resolved: Some("https://registry.example/pkg".to_string()),
        dependencies: vec![(String::from("dep"), String::from("^1.0.0"))],
        dev_dependencies: vec![(String::from("dev"), String::from("~2.0.0"))],
        optional_dependencies: vec![(String::from("opt"), String::from("3.0.0"))],
        peer_dependencies: vec![(String::from("peer"), String::from(">=4"))],
        peer_dependencies_meta: vec![(String::from("peer"), PeerMeta { optional: true })],
        os: vec![String::from("linux")],
        cpu_arch: vec![String::from("x64")],
        store_key: None,
        content_hash: None,
        link_mode: None,
        store_path: None,
    }
}

#[test]
fn encode_decode_roundtrip() {
    let mut lf = Lockfile::default();
    lf.format = 7;
    let mut entry = full_entry();
    lf.insert(String::from(""), entry.clone());
    entry.version = Some("0.0.1".into());
    lf.insert(String::from("node_modules/dep"), entry);

    let encoded = encode_current_binary(&lf).expect("encode");
    assert!(encoded.starts_with(b"PACMLOCK"));

    let decoded = decode_current_binary(&encoded).expect("decode");
    assert_eq!(lf, decoded);
}

#[test]
fn decode_rejects_wrong_magic() {
    let err = decode_current_binary(b"NOTALOCKFILE").unwrap_err();
    assert_eq!(err, LockfileError::UnknownFormat);
    assert!(err.message().contains("unknown lockfile format"));
}

#[test]
fn decode_rejects_truncated_record() {
    let mut lf = Lockfile::default();
    lf.insert(String::from(""), full_entry());
    let encoded = encode_current_binary(&lf).unwrap();
    let err = decode_current_binary(&encoded[..encoded.len() - 1]).unwrap_err();
    assert_eq!(err, LockfileError::Malformed);
}

#[test]
fn decode_rejects_trailing_bytes() {
    let lf = Lockfile::default();
    let mut encoded = encode_current_binary(&lf).unwrap();
    encoded.push(0);
    assert_eq!(decode_current_binary(&encoded).unwrap_err(), LockfileError::Malformed);
}

#[test]
fn empty_lockfile_layout() {
    let mut lf = Lockfile::default();
    lf.format = 300;
    let encoded = encode_current_binary(&lf).unwrap();
    assert_eq!(encoded, b"PACMLOCK\xac\x02\x00".to_vec());
}

#[test]
fn placeholder_entry_round_trips() {
    let mut lf = Lockfile::default();
    lf.insert(String::from("node_modules/bare"), PackageEntry::placeholder(None));
    let decoded = decode_current_binary(&encode_current_binary(&lf).unwrap()).unwrap();
    assert_eq!(decoded, lf);
    assert_eq!(decoded.get("node_modules/bare").unwrap().version, None);
}

#[test]
fn insert_keeps_keys_sorted_and_replaces() {
    let mut lf = Lockfile::default();
    lf.insert(String::from("node_modules/b"), PackageEntry::placeholder(None));
    lf.insert(String::from("node_modules/a"), PackageEntry::placeholder(None));
    lf.insert(String::from(""), PackageEntry::placeholder(Some("1.0.0".into())));
    lf.insert(String::from("node_modules/a"), PackageEntry::placeholder(Some("2.0.0".into())));
    let keys: Vec<&str> = lf.packages.iter().map(|(k, _)| k.as_str()).collect();
    assert_eq!(keys, vec!["", "node_modules/a", "node_modules/b"]);
    assert_eq!(lf.get("node_modules/a").unwrap().version.as_deref(), Some("2.0.0"));
}

#[test]
fn sync_mirrors_manifest_in_root_entry() {
    let mut manifest = Manifest::new("demo".into(), "0.1.0".into());
    manifest.dev_dependencies.push(("dev".into(), "~2.0.0".into()));
    manifest.peer_dependencies.push(("peer".into(), ">=1".into()));
    let mut lock = Lockfile::default();
    lock.sync_from_manifest(&manifest);
    let root = lock.get("").unwrap();
    assert_eq!(root.version.as_deref(), Some("0.1.0"));
    assert_eq!(root.dev_dependencies, vec![("dev".to_string(), "~2.0.0".to_string())]);
    assert!(lock.contains_key("node_modules/dev"));
    assert!(!lock.contains_key("node_modules/peer"));
}

#[test]
fn decode_rejects_keys_out_of_order() {
    let lf = Lockfile {
        format: 1,
        packages: vec![
            (String::from("node_modules/b"), PackageEntry::placeholder(None)),
            (String::from("node_modules/a"), PackageEntry::placeholder(None)),
        ],
    };
    assert!(!lf.is_well_formed());
    let encoded = encode_current_binary(&lf).unwrap();
    assert_eq!(decode_current_binary(&encoded).unwrap_err(), LockfileError::Malformed);
}

#[test]
fn decode_rejects_unsorted_dependency_map() {
    let mut entry = PackageEntry::placeholder(None);
    entry.dependencies = vec![("zeta".into(), "1".into()), ("alpha".into(), "2".into())];
    assert!(!entry.is_well_formed());
    let lf = Lockfile { format: 1, packages: vec![(String::from(""), entry)] };
    assert!(!lf.is_well_formed());
    let encoded = encode_current_binary(&lf).unwrap();
    assert_eq!(decode_current_binary(&encoded).unwrap_err(), LockfileError::Malformed);
    assert_eq!(LockfileError::Malformed.message(), "malformed lockfile");
}

#[test]
fn sync_adds_placeholders() {
    let mut manifest = Manifest::new("demo".into(), "0.1.0".into());
    manifest.optional_dependencies.push(("opt".into(), "^1".into()));
    assert!(manifest.is_well_formed());
    let mut lock = Lockfile::default();
    lock.sync_from_manifest(&manifest);
    assert_eq!(lock.get("node_modules/opt").unwrap(), &PackageEntry::placeholder(None));
}
