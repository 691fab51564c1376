use vstd::prelude::*;
use vstd::utf8::decode_utf8;
use crate::lockfile::{lookup, placeholder, with_install, EntryModel, Lockfile};
use crate::store_key::{fps_view, DependencyFingerprint, KeyDerivation};
use crate::wire::{concat, lemma_ascii_valid, string_of_bytes};

verus! {

/// How a package is put into a project: a link into the store, or a copy.
#[derive(Clone, Copy, Debug, PartialEq, Eq, Structural)]
pub enum InstallMode {
    Link,
    Copy,
}

/// The name a mode is recorded under in the lockfile.
pub open spec fn mode_name(m: InstallMode) -> Seq<char> {
    match m {
        InstallMode::Link => "link"@,
        InstallMode::Copy => "copy"@,
    }
}

impl InstallMode {
    pub fn name(&self) -> (r: String)
        ensures
            r@ == mode_name(*self),
    {
        match self {
            InstallMode::Link => "link".to_owned(),
            InstallMode::Copy => "copy".to_owned(),
        }
    }
}

/// A package in the content-addressed store.
pub struct StoreEntry {
    pub store_key: String,
    pub content_hash: String,
    pub graph_hash: String,
    pub root_dir: String,
    pub package_dir: String,
    pub metadata_path: String,
    pub dependencies: Vec<DependencyFingerprint>,
    pub created_at: u64,
}

impl StoreEntry {
    /// The package files sit under `<root_dir>/package` and the metadata at
    /// `<root_dir>/metadata.json`.
    pub open spec fn wf(&self) -> bool {
        &&& self.package_dir@ == self.root_dir@ + "/package"@
        &&& self.metadata_path@ == self.root_dir@ + "/metadata.json"@
    }

    /// The store entry for derived keys under a store root.
    pub fn assemble(store_root: &str, keys: KeyDerivation, content_hash: String, created_at: u64) -> (r: StoreEntry)
        ensures
            r.wf(),
            r.root_dir@ == store_root@ + "/"@ + keys.store_key@,
            r.store_key@ == keys.store_key@,
            r.graph_hash@ == keys.graph_hash@,
            r.content_hash@ == content_hash@,
            fps_view(r.dependencies@) == fps_view(keys.dependencies@),
            r.created_at == created_at,
    {
        let root_dir = entry_root_dir(store_root, keys.store_key.as_str());
        let package_dir = concat(root_dir.as_str(), "/package");
        let metadata_path = concat(root_dir.as_str(), "/metadata.json");
        StoreEntry {
            store_key: keys.store_key,
            content_hash,
            graph_hash: keys.graph_hash,
            root_dir,
            package_dir,
            metadata_path,
            dependencies: keys.dependencies,
            created_at,
        }
    }
}

/// A resolved package, with the ranges it asked for.
pub struct PackageInstance {
    pub name: String,
    pub version: String,
    pub dependencies: Vec<(String, String)>,
    pub optional_dependencies: Vec<(String, String)>,
    pub peer_dependencies: Vec<(String, String)>,
}

pub struct InstallPlanEntry {
    pub package: PackageInstance,
    pub store_entry: StoreEntry,
}

pub struct InstallOutcome {
    pub package_name: String,
    pub link_mode: InstallMode,
}

/// The lockfile key of an installed dependency: `node_modules/<name>`.
pub open spec fn lock_key(name: Seq<char>) -> Seq<char> {
    "node_modules/"@ + name
}

pub fn lock_key_of(name: &str) -> (r: String)
    ensures
        r@ == lock_key(name@),
{
    concat("node_modules/", name)
}

/// The directory a dependency is installed into: `<root>/node_modules/<name>`.
/// A scoped name keeps its `/`, which makes the scope a directory of its own.
pub fn node_modules_path(root: &str, package_name: &str) -> (r: String)
    ensures
        r@ == root@ + "/node_modules/"@ + package_name@,
{
    let head = concat(root, "/node_modules/");
    concat(head.as_str(), package_name)
}

/// Where the unpacked tarball of a package version is cached:
/// `<data_home>/pacm/cache/packages/<name>/<version>`.
pub fn cache_package_path(data_home: &str, name: &str, version: &str) -> (r: String)
    ensures
        r@ == data_home@ + "/pacm/cache/packages/"@ + name@ + "/"@ + version@,
{
    let a = concat(data_home, "/pacm/cache/packages/");
    let b = concat(a.as_str(), name);
    let c = concat(b.as_str(), "/");
    concat(c.as_str(), version)
}

/// The root of the content-addressed store: `<data_home>/pacm/store/v1`.
pub fn store_root(data_home: &str) -> (r: String)
    ensures
        r@ == data_home@ + "/pacm/store/v1"@,
{
    concat(data_home, "/pacm/store/v1")
}

/// The directory of a store entry: `<store_root>/<store_key>`.
pub fn entry_root_dir(store_root: &str, store_key: &str) -> (r: String)
    ensures
        r@ == store_root@ + "/"@ + store_key@,
{
    let a = concat(store_root, "/");
    concat(a.as_str(), store_key)
}

/// Decimal digits of `n`, as ASCII bytes.
pub open spec fn dec_bytes(n: nat) -> Seq<u8>
    decreases n,
{
    if n < 10 {
        seq![(48 + n) as u8]
    } else {
        dec_bytes(n / 10) + seq![(48 + n % 10) as u8]
    }
}

pub(crate) fn write_dec(out: &mut Vec<u8>, n: u64)
    requires
        forall|i: int| 0 <= i < old(out)@.len() ==> old(out)@[i] < 128,
    ensures
        final(out)@ == old(out)@ + dec_bytes(n as nat),
        forall|i: int| 0 <= i < final(out)@.len() ==> final(out)@[i] < 128,
    decreases n,
{
    if n >= 10 {
        write_dec(out, n / 10);
    }
    out.push((48 + n % 10) as u8);
    assert(final(out)@ =~= old(out)@ + dec_bytes(n as nat));
}

/// A package name made unique by a counter value: `<prefix>-<id>`.
pub fn unique_package(prefix: &str, id: u64) -> (r: String)
    ensures
        r@ == prefix@ + "-"@ + decode_utf8(dec_bytes(id as nat)),
{
    let mut digits: Vec<u8> = Vec::new();
    write_dec(&mut digits, id);
    proof {
        assert(digits@ =~= dec_bytes(id as nat));
        lemma_ascii_valid(digits@);
        vstd::utf8::decode_utf8_encode_utf8(digits@);
    }
    let tail = string_of_bytes(&digits);
    proof {
        vstd::utf8::encode_utf8_decode_utf8(tail@);
    }
    let head = concat(prefix, "-");
    concat(head.as_str(), tail.as_str())
}

/// What an install leaves in the lockfile entry of a planned package.
pub open spec fn installed_entry(before: Option<EntryModel>, version: Seq<char>, e: StoreEntry, mode: InstallMode) -> EntryModel {
    with_install(
        match before {
            Some(m) => m,
            None => placeholder(Some(version)),
        },
        e.store_key@,
        e.content_hash@,
        mode_name(mode),
        e.root_dir@,
    )
}

/// The names of a plan are distinct.
pub open spec fn plan_names_distinct(plan: Seq<(String, InstallPlanEntry)>) -> bool {
    forall|i: int, j: int| 0 <= i < j < plan.len() ==> (#[trigger] plan[i]).0@ != (#[trigger] plan[j]).0@
}

pub struct Installer {
    pub mode: InstallMode,
}

impl Installer {
    pub fn new(mode: InstallMode) -> (r: Installer)
        ensures
            r.mode == mode,
    {
        Installer { mode }
    }

    /// Records each planned package in the lockfile, once its files are in
    /// place: the entry under `node_modules/<name>` gets the store key, the
    /// content hash, the mode and the store entry's root directory. Entries of
    /// packages outside the plan are left as they were.
    pub fn record_plan(&self, plan: &Vec<(String, InstallPlanEntry)>, lock: &mut Lockfile) -> (r: Vec<InstallOutcome>)
        requires
            old(lock).wf(),
            plan_names_distinct(plan@),
        ensures
            final(lock).wf(),
            final(lock)@.format == old(lock)@.format,
            r@.len() == plan@.len(),
            forall|i: int| 0 <= i < plan@.len() ==> (#[trigger] r@[i]).package_name@ == plan@[i].0@ && r@[i].link_mode == self.mode,
            forall|i: int|
                0 <= i < plan@.len() ==> lookup(final(lock)@.packages, lock_key((#[trigger] plan@[i]).0@)) == Some(
                    installed_entry(
                        lookup(old(lock)@.packages, lock_key(plan@[i].0@)),
                        plan@[i].1.package.version@,
                        plan@[i].1.store_entry,
                        self.mode,
                    ),
                ),
            forall|k: Seq<char>|
                (forall|i: int| 0 <= i < plan@.len() ==> k != lock_key((#[trigger] plan@[i]).0@)) ==> #[trigger] lookup(
                    final(lock)@.packages,
                    k,
                ) == lookup(old(lock)@.packages, k),
    {
        let mut out: Vec<InstallOutcome> = Vec::new();
        let mut i: usize = 0;
        while i < plan.len()
            invariant
                i <= plan@.len(),
                lock.wf(),
                lock@.format == old(lock)@.format,
                plan_names_distinct(plan@),
                out@.len() == i,
                forall|j: int| 0 <= j < i ==> (#[trigger] out@[j]).package_name@ == plan@[j].0@ && out@[j].link_mode == self.mode,
                forall|j: int|
                    0 <= j < i ==> lookup(lock@.packages, lock_key((#[trigger] plan@[j]).0@)) == Some(
                        installed_entry(
                            lookup(old(lock)@.packages, lock_key(plan@[j].0@)),
                            plan@[j].1.package.version@,
                            plan@[j].1.store_entry,
                            self.mode,
                        ),
                    ),
                forall|k: Seq<char>|
                    (forall|j: int| 0 <= j < i ==> k != lock_key((#[trigger] plan@[j]).0@)) ==> #[trigger] lookup(
                        lock@.packages,
                        k,
                    ) == lookup(old(lock)@.packages, k),
            decreases plan@.len() - i,
        {
            let name = &plan[i].0;
            let entry = &plan[i].1;
            let key = lock_key_of(name.as_str());
            let ghost before = lock@.packages;
            proof {
                assert forall|j: int| 0 <= j < i implies lock_key(plan@[j].0@) != key@ by {
                    assert(plan@[j].0@ != plan@[i as int].0@);
                    if lock_key(plan@[j].0@) == key@ {
                        let n = "node_modules/"@.len() as int;
                        assert(plan@[j].0@ =~= lock_key(plan@[j].0@).skip(n));
                        assert(plan@[i as int].0@ =~= key@.skip(n));
                    }
                }
                assert(lookup(before, key@) == lookup(old(lock)@.packages, key@));
            }
            lock.record_install(
                key,
                entry.package.version.clone(),
                entry.store_entry.store_key.clone(),
                entry.store_entry.content_hash.clone(),
                self.mode.name(),
                entry.store_entry.root_dir.clone(),
            );
            out.push(InstallOutcome { package_name: name.clone(), link_mode: self.mode });
            i = i + 1;
        }
        out
    }
}

} // verus!
