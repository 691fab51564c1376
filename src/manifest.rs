use vstd::prelude::*;
use crate::install::{lock_key, lock_key_of};
use crate::lockfile::{
    lookup, map_sorted, metas_in_order, metas_view, opt_view, pairs_in_order, pairs_view, placeholder,
    EntryModel, Lockfile, PackageEntry, PeerMeta,
};

verus! {

/// A project manifest: name, version and dependency buckets.
pub struct Manifest {
    pub name: String,
    pub version: String,
    pub dependencies: Vec<(String, String)>,
    pub dev_dependencies: Vec<(String, String)>,
    pub optional_dependencies: Vec<(String, String)>,
    pub peer_dependencies: Vec<(String, String)>,
    pub peer_dependencies_meta: Vec<(String, PeerMeta)>,
}

impl Manifest {
    /// Each bucket is a map: keys unique and in byte order.
    pub open spec fn wf(&self) -> bool {
        &&& map_sorted(pairs_view(self.dependencies@))
        &&& map_sorted(pairs_view(self.dev_dependencies@))
        &&& map_sorted(pairs_view(self.optional_dependencies@))
        &&& map_sorted(pairs_view(self.peer_dependencies@))
        &&& map_sorted(metas_view(self.peer_dependencies_meta@))
    }

    /// Whether each bucket is a map in key order.
    pub fn is_well_formed(&self) -> (r: bool)
        ensures
            r == self.wf(),
    {
        pairs_in_order(&self.dependencies) && pairs_in_order(&self.dev_dependencies) && pairs_in_order(
            &self.optional_dependencies,
        ) && pairs_in_order(&self.peer_dependencies) && metas_in_order(&self.peer_dependencies_meta)
    }

    pub fn new(name: String, version: String) -> (r: Manifest)
        ensures
            r.name@ == name@,
            r.version@ == version@,
            r.dependencies@.len() == 0,
            r.dev_dependencies@.len() == 0,
            r.optional_dependencies@.len() == 0,
            r.peer_dependencies@.len() == 0,
            r.peer_dependencies_meta@.len() == 0,
            r.wf(),
    {
        Manifest {
            name,
            version,
            dependencies: Vec::new(),
            dev_dependencies: Vec::new(),
            optional_dependencies: Vec::new(),
            peer_dependencies: Vec::new(),
            peer_dependencies_meta: Vec::new(),
        }
    }
}

fn clone_pairs(v: &Vec<(String, String)>) -> (r: Vec<(String, String)>)
    ensures
        pairs_view(r@) == pairs_view(v@),
{
    let mut out: Vec<(String, String)> = Vec::new();
    let mut i: usize = 0;
    while i < v.len()
        invariant
            i <= v@.len(),
            pairs_view(out@) == pairs_view(v@).take(i as int),
        decreases v@.len() - i,
    {
        let ghost prev = out@;
        out.push((v[i].0.clone(), v[i].1.clone()));
        proof {
            assert(pairs_view(out@) =~= pairs_view(prev).push((v@[i as int].0@, v@[i as int].1@)));
            assert(pairs_view(v@).take(i + 1) =~= pairs_view(v@).take(i as int).push((v@[i as int].0@, v@[i as int].1@)));
        }
        i = i + 1;
    }
    assert(pairs_view(v@).take(v@.len() as int) =~= pairs_view(v@));
    out
}

fn clone_metas(v: &Vec<(String, PeerMeta)>) -> (r: Vec<(String, PeerMeta)>)
    ensures
        metas_view(r@) == metas_view(v@),
{
    let mut out: Vec<(String, PeerMeta)> = Vec::new();
    let mut i: usize = 0;
    while i < v.len()
        invariant
            i <= v@.len(),
            metas_view(out@) == metas_view(v@).take(i as int),
        decreases v@.len() - i,
    {
        let ghost prev = out@;
        out.push((v[i].0.clone(), v[i].1));
        proof {
            assert(metas_view(out@) =~= metas_view(prev).push((v@[i as int].0@, v@[i as int].1.optional)));
            assert(metas_view(v@).take(i + 1) =~= metas_view(v@).take(i as int).push((v@[i as int].0@, v@[i as int].1.optional)));
        }
        i = i + 1;
    }
    assert(metas_view(v@).take(v@.len() as int) =~= metas_view(v@));
    out
}

/// The root entry that mirrors a manifest.
pub open spec fn root_entry(m: Manifest) -> EntryModel {
    EntryModel {
        dependencies: pairs_view(m.dependencies@),
        dev_dependencies: pairs_view(m.dev_dependencies@),
        optional_dependencies: pairs_view(m.optional_dependencies@),
        peer_dependencies: pairs_view(m.peer_dependencies@),
        peer_dependencies_meta: metas_view(m.peer_dependencies_meta@),
        ..placeholder(Some(m.version@))
    }
}

/// `name` is a runtime, dev or optional dependency of `m`.
pub open spec fn installs(m: Manifest, name: Seq<char>) -> bool {
    (exists|i: int| 0 <= i < m.dependencies@.len() && (#[trigger] m.dependencies@[i]).0@ == name)
        || (exists|i: int| 0 <= i < m.dev_dependencies@.len() && (#[trigger] m.dev_dependencies@[i]).0@ == name)
        || (exists|i: int| 0 <= i < m.optional_dependencies@.len() && (#[trigger] m.optional_dependencies@[i]).0@ == name)
}

impl Lockfile {
    /// Adds an empty entry under `key` unless one is there.
    fn ensure_present(&mut self, key: String)
        requires
            old(self).wf(),
        ensures
            final(self).wf(),
            final(self)@.format == old(self)@.format,
            lookup(final(self)@.packages, key@) is Some,
            lookup(old(self)@.packages, key@) is Some ==> lookup(final(self)@.packages, key@) == lookup(old(self)@.packages, key@),
            lookup(old(self)@.packages, key@) is None ==> lookup(final(self)@.packages, key@) == Some(placeholder(None)),
            forall|k: Seq<char>| k != key@ ==> #[trigger] lookup(final(self)@.packages, k) == lookup(old(self)@.packages, k),
    {
        if !self.contains_key(key.as_str()) {
            let e = PackageEntry::placeholder(None);
            proof {
                assert(opt_view(None::<String>) == None::<Seq<char>>);
            }
            self.insert(key, e);
        }
    }

    fn ensure_bucket(&mut self, bucket: &Vec<(String, String)>)
        requires
            old(self).wf(),
        ensures
            final(self).wf(),
            final(self)@.format == old(self)@.format,
            forall|i: int| 0 <= i < bucket@.len() ==> lookup(final(self)@.packages, lock_key((#[trigger] bucket@[i]).0@)) is Some,
            forall|k: Seq<char>| lookup(old(self)@.packages, k) is Some ==> #[trigger] lookup(final(self)@.packages, k) == lookup(old(self)@.packages, k),
            forall|k: Seq<char>| lookup(old(self)@.packages, k) is None && lookup(final(self)@.packages, k) is Some
                ==> exists|i: int| 0 <= i < bucket@.len() && k == lock_key((#[trigger] bucket@[i]).0@),
            forall|k: Seq<char>| lookup(old(self)@.packages, k) is None && lookup(final(self)@.packages, k) is Some
                ==> #[trigger] lookup(final(self)@.packages, k) == Some(placeholder(None)),
    {
        let mut i: usize = 0;
        while i < bucket.len()
            invariant
                i <= bucket@.len(),
                self.wf(),
                self@.format == old(self)@.format,
                forall|j: int| 0 <= j < i ==> lookup(self@.packages, lock_key((#[trigger] bucket@[j]).0@)) is Some,
                forall|k: Seq<char>| lookup(old(self)@.packages, k) is Some ==> #[trigger] lookup(self@.packages, k) == lookup(old(self)@.packages, k),
                forall|k: Seq<char>| lookup(old(self)@.packages, k) is None && lookup(self@.packages, k) is Some
                    ==> exists|j: int| 0 <= j < i && k == lock_key((#[trigger] bucket@[j]).0@),
                forall|k: Seq<char>| lookup(old(self)@.packages, k) is None && lookup(self@.packages, k) is Some
                    ==> #[trigger] lookup(self@.packages, k) == Some(placeholder(None)),
            decreases bucket@.len() - i,
        {
            let key = lock_key_of(bucket[i].0.as_str());
            self.ensure_present(key);
            proof {
                assert forall|k: Seq<char>| lookup(old(self)@.packages, k) is None && lookup(self@.packages, k) is Some
                    implies exists|j: int| 0 <= j < i + 1 && k == lock_key((#[trigger] bucket@[j]).0@) by {
                    if k == lock_key(bucket@[i as int].0@) {
                        assert(0 <= i < i + 1);
                    }
                }
            }
            i = i + 1;
        }
    }

    /// Makes the root entry `""` mirror the manifest's version and dependency
    /// buckets, and gives each runtime, dev and optional dependency an entry
    /// under `node_modules/<name>` if it has none.
    pub fn sync_from_manifest(&mut self, m: &Manifest)
        requires
            old(self).wf(),
            m.wf(),
        ensures
            final(self).wf(),
            final(self)@.format == old(self)@.format,
            lookup(final(self)@.packages, Seq::<char>::empty()) == Some(root_entry(*m)),
            forall|name: Seq<char>| installs(*m, name) ==> lookup(final(self)@.packages, #[trigger] lock_key(name)) is Some,
            forall|k: Seq<char>|
                k != Seq::<char>::empty() && lookup(old(self)@.packages, k) is Some ==> #[trigger] lookup(final(self)@.packages, k)
                    == lookup(old(self)@.packages, k),
            forall|k: Seq<char>|
                k != Seq::<char>::empty() && lookup(old(self)@.packages, k) is None && lookup(final(self)@.packages, k) is Some
                    ==> #[trigger] lookup(final(self)@.packages, k) == Some(placeholder(None)),
    {
        let mut root = PackageEntry::placeholder(Some(m.version.clone()));
        root.dependencies = clone_pairs(&m.dependencies);
        root.dev_dependencies = clone_pairs(&m.dev_dependencies);
        root.optional_dependencies = clone_pairs(&m.optional_dependencies);
        root.peer_dependencies = clone_pairs(&m.peer_dependencies);
        root.peer_dependencies_meta = clone_metas(&m.peer_dependencies_meta);
        assert(root@ == root_entry(*m));
        let empty = "".to_owned();
        proof {
            reveal_strlit("");
            assert(empty@ =~= Seq::<char>::empty());
        }
        self.insert(empty, root);
        let ghost s1 = self@.packages;
        self.ensure_bucket(&m.dependencies);
        let ghost s2 = self@.packages;
        self.ensure_bucket(&m.dev_dependencies);
        let ghost s3 = self@.packages;
        self.ensure_bucket(&m.optional_dependencies);
        proof {
            assert(lookup(s1, Seq::<char>::empty()) is Some);
            assert(lookup(s2, Seq::<char>::empty()) is Some);
            assert(lookup(s3, Seq::<char>::empty()) is Some);
            assert forall|name: Seq<char>| installs(*m, name) implies lookup(self@.packages, #[trigger] lock_key(name)) is Some by {
                if exists|i: int| 0 <= i < m.dependencies@.len() && (#[trigger] m.dependencies@[i]).0@ == name {
                    let i = choose|i: int| 0 <= i < m.dependencies@.len() && (#[trigger] m.dependencies@[i]).0@ == name;
                    assert(lookup(s2, lock_key(m.dependencies@[i].0@)) is Some);
                    assert(lookup(s3, lock_key(name)) is Some);
                } else if exists|i: int| 0 <= i < m.dev_dependencies@.len() && (#[trigger] m.dev_dependencies@[i]).0@ == name {
                    let i = choose|i: int| 0 <= i < m.dev_dependencies@.len() && (#[trigger] m.dev_dependencies@[i]).0@ == name;
                    assert(lookup(s3, lock_key(m.dev_dependencies@[i].0@)) is Some);
                } else {
                    let i = choose|i: int| 0 <= i < m.optional_dependencies@.len() && (#[trigger] m.optional_dependencies@[i]).0@ == name;
                    assert(lookup(self@.packages, lock_key(m.optional_dependencies@[i].0@)) is Some);
                }
            }
            assert forall|k: Seq<char>| k != Seq::<char>::empty() && lookup(old(self)@.packages, k) is Some implies #[trigger] lookup(self@.packages, k)
                == lookup(old(self)@.packages, k) by {
                assert(lookup(s1, k) == lookup(old(self)@.packages, k));
                assert(lookup(s2, k) == lookup(s1, k));
                assert(lookup(s3, k) == lookup(s2, k));
            }
            assert forall|k: Seq<char>|
                k != Seq::<char>::empty() && lookup(old(self)@.packages, k) is None && lookup(self@.packages, k) is Some
                    implies #[trigger] lookup(self@.packages, k) == Some(placeholder(None)) by {
                assert(lookup(s1, k) == lookup(old(self)@.packages, k));
                if lookup(s2, k) is Some {
                    assert(lookup(s3, k) == lookup(s2, k));
                }
                if lookup(s3, k) is Some {
                    assert(lookup(self@.packages, k) == lookup(s3, k));
                }
            }
        }
    }
}

} // verus!
