use pacm::install::{
    node_modules_path, unique_package, InstallMode, InstallPlanEntry, Installer, PackageInstance,
    StoreEntry,
};
use pacm::lockfile::{Lockfile, PackageEntry};
use std::sync::atomic::{AtomicU64, Ordering};

fn next_package(prefix: &str) -> String {
    static COUNTER: AtomicU64 = AtomicU64::new(0);
    unique_package(prefix, COUNTER.fetch_add(1, Ordering::Relaxed))
}

fn lock_entry(version: &str, integrity: &str) -> PackageEntry {
    let mut e = PackageEntry::placeholder(Some(version.to_string()));
    e.integrity = Some(integrity.to_string());
    e.resolved = Some(format!("https://example.com/{version}.tgz"));
    e
}

fn package_instance(name: &str, version: &str) -> PackageInstance {
    PackageInstance {
        name: name.to_string(),
        version: version.to_string(),
        dependencies: Vec::new(),
        optional_dependencies: Vec::new(),
        peer_dependencies: Vec::new(),
    }
}

fn store_entry(name: &str, version: &str) -> StoreEntry {
    let key = format!("{name}@{version}::0123456789abcdef");
    StoreEntry {
        store_key: key.clone(),
        content_hash: "feedface".into(),
        graph_hash: "0123456789abcdef0123".into(),
        root_dir: format!("/data/pacm/store/v1/{key}"),
        package_dir: format!("/data/pacm/store/v1/{key}/package"),
        metadata_path: format!("/data/pacm/store/v1/{key}/metadata.json"),
        dependencies: Vec::new(),
        created_at: 1,
    }
}

fn run(mode: InstallMode, version: &str) -> (String, Lockfile, Vec<pacm::install::InstallOutcome>) {
    let name = next_package("pkg");
    let mut lock = Lockfile::default();
    lock.insert(format!("node_modules/{name}"), lock_entry(version, "sha512-foo"));
    let plan = vec![(
        name.clone(),
        InstallPlanEntry { package: package_instance(&name, version), store_entry: store_entry(&name, version) },
    )];
    let outcomes = Installer::new(mode).record_plan(&plan, &mut lock);
    (name, lock, outcomes)
}

#[test]
fn link_mode_is_recorded_in_lock() {
    let (name, lock, outcomes) = run(InstallMode::Link, "1.2.3");
    assert_eq!(outcomes.len(), 1);
    assert_eq!(outcomes[0].package_name, name);
    assert_eq!(outcomes[0].link_mode, InstallMode::Link);
    let entry = lock.get(&format!("node_modules/{name}")).unwrap();
    let key = format!("{name}@1.2.3::0123456789abcdef");
    assert_eq!(entry.store_key.as_deref(), Some(key.as_str()));
    assert_eq!(entry.content_hash.as_deref(), Some("feedface"));
    assert_eq!(entry.link_mode.as_deref(), Some("link"));
    assert_eq!(entry.store_path.as_deref(), Some(format!("/data/pacm/store/v1/{key}").as_str()));
    assert_eq!(entry.integrity.as_deref(), Some("sha512-foo"));
}

#[test]
fn copy_mode_is_recorded_in_lock() {
    let (name, lock, outcomes) = run(InstallMode::Copy, "4.5.6");
    assert_eq!(outcomes[0].link_mode, InstallMode::Copy);
    let entry = lock.get(&format!("node_modules/{name}")).unwrap();
    assert_eq!(entry.link_mode.as_deref(), Some("copy"));
}

#[test]
fn absent_lock_entry_is_created() {
    let mut lock = Lockfile::default();
    let plan = vec![(
        "fresh".to_string(),
        InstallPlanEntry { package: package_instance("fresh", "0.1.0"), store_entry: store_entry("fresh", "0.1.0") },
    )];
    Installer::new(InstallMode::Link).record_plan(&plan, &mut lock);
    let entry = lock.get("node_modules/fresh").unwrap();
    assert_eq!(entry.version.as_deref(), Some("0.1.0"));
    assert_eq!(entry.link_mode.as_deref(), Some("link"));
}

#[test]
fn scoped_names_nest_under_node_modules() {
    assert_eq!(node_modules_path("/proj", "@scope/pkg"), "/proj/node_modules/@scope/pkg");
}

#[test]
fn unique_names_carry_the_counter() {
    assert_eq!(unique_package("link", 0), "link-0");
    assert_eq!(unique_package("copy", 1234), "copy-1234");
}
