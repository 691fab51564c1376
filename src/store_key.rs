use vstd::prelude::*;
use vstd::string::StringSliceAdditionalSpecFns;
use vstd::utf8::{encode_utf8, valid_utf8};
use crate::order::{bytes_eq, bytes_le, lemma_lex_total, lemma_lex_trans, lex_le};
use crate::install::{dec_bytes, write_dec};
use crate::wire::{enc_each, lemma_ascii_valid, lemma_each_push, string_of_bytes};

verus! {

broadcast use {
    vstd::utf8::encode_utf8_valid_utf8,
    vstd::utf8::valid_utf8_concat,
    vstd::seq_lib::group_to_multiset_ensures,
};

/// A dependency as it enters the graph hash of its dependent.
pub struct DependencyFingerprint {
    pub name: String,
    pub version: String,
    pub store_key: Option<String>,
}

/// A fingerprint as UTF-8 bytes: name, version, and store key if known.
pub type FpModel = (Seq<u8>, Seq<u8>, Option<Seq<u8>>);

impl View for DependencyFingerprint {
    type V = FpModel;

    open spec fn view(&self) -> FpModel {
        (
            encode_utf8(self.name@),
            encode_utf8(self.version@),
            match self.store_key {
                Some(k) => Some(encode_utf8(k@)),
                None => None,
            },
        )
    }
}

impl DependencyFingerprint {
    pub fn duplicate(&self) -> (r: DependencyFingerprint)
        ensures
            r@ == self@,
    {
        DependencyFingerprint {
            name: self.name.clone(),
            version: self.version.clone(),
            store_key: match &self.store_key {
                Some(k) => Some(k.clone()),
                None => None,
            },
        }
    }
}

pub open spec fn fps_view(v: Seq<DependencyFingerprint>) -> Seq<FpModel> {
    v.map_values(|f: DependencyFingerprint| f@)
}

/// Order by name, then version, then store key (an absent key first).
pub open spec fn fp_le(x: FpModel, y: FpModel) -> bool {
    if x.0 != y.0 {
        lex_le(x.0, y.0)
    } else if x.1 != y.1 {
        lex_le(x.1, y.1)
    } else {
        match (x.2, y.2) {
            (None, _) => true,
            (Some(_), None) => false,
            (Some(a), Some(b)) => lex_le(a, b),
        }
    }
}

pub proof fn lemma_fp_total(x: FpModel, y: FpModel)
    ensures
        fp_le(x, y) || fp_le(y, x),
        fp_le(x, y) && fp_le(y, x) ==> x == y,
{
    lemma_lex_total(x.0, y.0);
    lemma_lex_total(x.1, y.1);
    if let (Some(a), Some(b)) = (x.2, y.2) {
        lemma_lex_total(a, b);
    }
}

pub proof fn lemma_fp_trans(x: FpModel, y: FpModel, z: FpModel)
    requires
        fp_le(x, y),
        fp_le(y, z),
    ensures
        fp_le(x, z),
{
    lemma_lex_total(x.0, y.0);
    lemma_lex_total(y.0, z.0);
    lemma_lex_total(x.0, z.0);
    lemma_lex_total(x.1, y.1);
    lemma_lex_total(y.1, z.1);
    lemma_lex_total(x.1, z.1);
    lemma_lex_trans(x.0, y.0, z.0);
    if x.0 == y.0 && y.0 == z.0 {
        lemma_lex_trans(x.1, y.1, z.1);
        if x.1 == y.1 && y.1 == z.1 {
            if let (Some(a), Some(b), Some(c)) = (x.2, y.2, z.2) {
                lemma_lex_trans(a, b, c);
            }
        }
    } else if x.0 == y.0 {
        lemma_lex_trans(x.0, y.0, z.0);
    } else if y.0 == z.0 {
        lemma_lex_trans(x.0, y.0, z.0);
    } else {
        lemma_lex_trans(x.0, y.0, z.0);
        if x.0 == z.0 {
            lemma_lex_total(x.0, y.0);
        }
    }
}

pub open spec fn sorted_fps(s: Seq<FpModel>) -> bool {
    forall|i: int, j: int| 0 <= i < j < s.len() ==> fp_le(#[trigger] s[i], #[trigger] s[j])
}

/// Two sorted sequences with the same items are the same sequence.
pub proof fn lemma_sorted_unique(a: Seq<FpModel>, b: Seq<FpModel>)
    requires
        sorted_fps(a),
        sorted_fps(b),
        a.to_multiset() == b.to_multiset(),
    ensures
        a == b,
    decreases a.len(),
{
    a.to_multiset_ensures();
    b.to_multiset_ensures();
    assert(a.len() == b.len());
    if a.len() > 0 {
        lemma_fp_total(a[0], a[0]);
        lemma_fp_total(b[0], b[0]);
        assert(a.contains(a[0])) by {
            assert(a[0] == a[0]);
        }
        assert(a.to_multiset().count(a[0]) > 0);
        assert(b.to_multiset().count(a[0]) > 0);
        assert(b.contains(a[0]));
        assert(b.contains(b[0])) by {
            assert(b[0] == b[0]);
        }
        assert(b.to_multiset().count(b[0]) > 0);
        assert(a.to_multiset().count(b[0]) > 0);
        assert(a.contains(b[0]));
        let j = choose|j: int| 0 <= j < b.len() && b[j] == a[0];
        let k = choose|k: int| 0 <= k < a.len() && a[k] == b[0];
        assert(fp_le(b[0], a[0])) by {
            if j > 0 {
                assert(fp_le(b[0], b[j]));
            }
        }
        assert(fp_le(a[0], b[0])) by {
            if k > 0 {
                assert(fp_le(a[0], a[k]));
            }
        }
        lemma_fp_total(a[0], b[0]);
        assert(a.remove(0) =~= a.drop_first());
        assert(b.remove(0) =~= b.drop_first());
        assert(a.drop_first().to_multiset() == a.to_multiset().remove(a[0]));
        assert(b.drop_first().to_multiset() == b.to_multiset().remove(b[0]));
        assert(sorted_fps(a.drop_first())) by {
            assert forall|i: int, j: int| 0 <= i < j < a.drop_first().len() implies fp_le(
                #[trigger] a.drop_first()[i],
                #[trigger] a.drop_first()[j],
            ) by {
                assert(fp_le(a[i + 1], a[j + 1]));
            }
        }
        assert(sorted_fps(b.drop_first())) by {
            assert forall|i: int, j: int| 0 <= i < j < b.drop_first().len() implies fp_le(
                #[trigger] b.drop_first()[i],
                #[trigger] b.drop_first()[j],
            ) by {
                assert(fp_le(b[i + 1], b[j + 1]));
            }
        }
        lemma_sorted_unique(a.drop_first(), b.drop_first());
        assert(a =~= b) by {
            assert(a =~= seq![a[0]] + a.drop_first());
            assert(b =~= seq![b[0]] + b.drop_first());
        }
    } else {
        assert(a =~= b);
    }
}

/// The dependencies in canonical order: the sorted arrangement of the same items.
pub open spec fn canonical_deps(d: Seq<FpModel>) -> Seq<FpModel> {
    choose|s: Seq<FpModel>| sorted_fps(s) && s.to_multiset() == d.to_multiset()
}

proof fn lemma_insert_sorted(v: Seq<FpModel>, k: int, x: FpModel)
    requires
        sorted_fps(v),
        0 <= k <= v.len(),
        forall|j: int| 0 <= j < k ==> fp_le(#[trigger] v[j], x),
        k < v.len() ==> fp_le(x, v[k]),
    ensures
        sorted_fps(v.insert(k, x)),
{
    let nv = v.insert(k, x);
    assert forall|a: int, c: int| 0 <= a < c < nv.len() implies fp_le(#[trigger] nv[a], #[trigger] nv[c]) by {
        if c < k {
            assert(fp_le(v[a], v[c]));
        } else if c == k {
            assert(fp_le(v[a], x));
        } else if a < k {
            assert(fp_le(v[a], v[c - 1]));
        } else if a == k {
            if c - 1 > k {
                assert(fp_le(v[k], v[c - 1]));
                lemma_fp_trans(x, v[k], v[c - 1]);
            }
        } else {
            assert(fp_le(v[a - 1], v[c - 1]));
        }
    }
}

proof fn lemma_insert_multiset(v: Seq<FpModel>, k: int, x: FpModel)
    requires
        0 <= k <= v.len(),
    ensures
        v.insert(k, x).to_multiset() == v.to_multiset().insert(x),
{
    let nv = v.insert(k, x);
    assert(nv.remove(k) =~= v);
    assert(nv.to_multiset().remove(x) == v.to_multiset());
    assert(nv.contains(x)) by {
        assert(nv[k] == x);
    }
    assert(nv.to_multiset().count(x) > 0);
    assert(nv.to_multiset() =~= v.to_multiset().insert(x));
}

fn fp_le_exec(x: &DependencyFingerprint, y: &DependencyFingerprint) -> (r: bool)
    ensures
        r == fp_le(x@, y@),
{
    let xn = x.name.as_str().as_bytes();
    let yn = y.name.as_str().as_bytes();
    if !bytes_eq(xn, yn) {
        return bytes_le(xn, yn);
    }
    let xv = x.version.as_str().as_bytes();
    let yv = y.version.as_str().as_bytes();
    if !bytes_eq(xv, yv) {
        return bytes_le(xv, yv);
    }
    match (&x.store_key, &y.store_key) {
        (None, _) => true,
        (Some(_), None) => false,
        (Some(a), Some(b)) => bytes_le(a.as_str().as_bytes(), b.as_str().as_bytes()),
    }
}

/// Puts dependency fingerprints in canonical order.
pub fn sort_fingerprints(deps: &[DependencyFingerprint]) -> (r: Vec<DependencyFingerprint>)
    ensures
        fps_view(r@) == canonical_deps(fps_view(deps@)),
{
    let mut out: Vec<DependencyFingerprint> = Vec::new();
    let mut i: usize = 0;
    while i < deps.len()
        invariant
            i <= deps@.len(),
            sorted_fps(fps_view(out@)),
            fps_view(out@).to_multiset() == fps_view(deps@).take(i as int).to_multiset(),
        decreases deps@.len() - i,
    {
        let x = deps[i].duplicate();
        let mut k: usize = 0;
        while k < out.len() && fp_le_exec(&out[k], &x)
            invariant
                k <= out@.len(),
                forall|j: int| 0 <= j < k ==> fp_le(#[trigger] out@[j]@, x@),
            decreases out@.len() - k,
        {
            k = k + 1;
        }
        let ghost old_v = fps_view(out@);
        proof {
            if k < out@.len() {
                lemma_fp_total(out@[k as int]@, x@);
            }
            lemma_insert_sorted(old_v, k as int, x@);
            lemma_insert_multiset(old_v, k as int, x@);
        }
        out.insert(k, x);
        proof {
            assert(fps_view(out@) =~= old_v.insert(k as int, x@));
            assert(fps_view(deps@).take(i + 1) =~= fps_view(deps@).take(i as int).push(x@));
        }
        i = i + 1;
    }
    proof {
        assert(fps_view(deps@).take(deps@.len() as int) =~= fps_view(deps@));
        let c = canonical_deps(fps_view(deps@));
        assert(sorted_fps(c) && c.to_multiset() == fps_view(deps@).to_multiset());
        lemma_sorted_unique(fps_view(out@), c);
    }
    out
}

/// Lowercase hexadecimal digit of `n` (below 16), as an ASCII byte.
pub open spec fn hex_digit(n: u8) -> u8 {
    if n < 10 {
        (48 + n) as u8
    } else {
        (87 + n) as u8
    }
}

pub open spec fn byte_hex(x: u8) -> Seq<u8> {
    seq![hex_digit(x / 16), hex_digit(x % 16)]
}

pub open spec fn hex_enc() -> spec_fn(u8) -> Seq<u8> {
    |x: u8| byte_hex(x)
}

/// Lowercase hexadecimal rendering of `d`, two digits per byte.
pub open spec fn hex_of(d: Seq<u8>) -> Seq<u8> {
    enc_each(d, hex_enc())
}

fn hex_digit_exec(n: u8) -> (r: u8)
    requires
        n < 16,
    ensures
        r == hex_digit(n),
        r < 128,
{
    if n < 10 {
        48 + n
    } else {
        87 + n
    }
}

pub fn to_hex(d: &[u8]) -> (r: Vec<u8>)
    ensures
        r@ == hex_of(d@),
        forall|i: int| 0 <= i < r@.len() ==> r@[i] < 128,
{
    let mut out: Vec<u8> = Vec::new();
    let mut i: usize = 0;
    while i < d.len()
        invariant
            i <= d@.len(),
            out@ == enc_each(d@.take(i as int), hex_enc()),
            forall|j: int| 0 <= j < out@.len() ==> out@[j] < 128,
        decreases d@.len() - i,
    {
        let x = d[i];
        out.push(hex_digit_exec(x / 16));
        out.push(hex_digit_exec(x % 16));
        proof {
            assert(d@.take(i + 1) =~= d@.take(i as int).push(x));
            lemma_each_push(d@.take(i as int), x, hex_enc());
            assert(out@ =~= enc_each(d@.take(i + 1), hex_enc()));
        }
        i = i + 1;
    }
    assert(d@.take(d@.len() as int) =~= d@);
    out
}

/// The SHA-256 digest of `b`.
pub uninterp spec fn sha256_of(b: Seq<u8>) -> Seq<u8>;

/// Relies on `sha2::Sha256::digest`: the SHA-256 digest of the input, 32 bytes.
#[verifier::external_body]
fn sha256(b: &[u8]) -> (r: Vec<u8>)
    ensures
        r@ == sha256_of(b@),
        r@.len() == 32,
{
    <sha2::Sha256 as sha2::Digest>::digest(b).to_vec()
}

/// A fingerprint's contribution to the graph hash: `name\0version\0key\0`,
/// with an empty key where none is known.
pub open spec fn enc_fp(x: FpModel) -> Seq<u8> {
    x.0 + seq![0u8] + x.1 + seq![0u8] + match x.2 {
        Some(k) => k,
        None => Seq::<u8>::empty(),
    } + seq![0u8]
}

pub open spec fn fp_enc() -> spec_fn(FpModel) -> Seq<u8> {
    |x: FpModel| enc_fp(x)
}

/// What the graph hash is taken over: the content hash, then the
/// dependencies in canonical order.
pub open spec fn graph_input(content_hash: Seq<u8>, deps: Seq<FpModel>) -> Seq<u8> {
    content_hash + enc_each(canonical_deps(deps), fp_enc())
}

/// The graph hash, as lowercase hexadecimal.
pub open spec fn graph_hash_of(content_hash: Seq<u8>, deps: Seq<FpModel>) -> Seq<u8> {
    hex_of(sha256_of(graph_input(content_hash, deps)))
}

/// `<name>@<version>::<first 16 hex digits of the graph hash>`.
pub open spec fn store_key_of(name: Seq<u8>, version: Seq<u8>, content_hash: Seq<u8>, deps: Seq<FpModel>) -> Seq<u8> {
    name + seq![64u8] + version + seq![58u8, 58u8] + graph_hash_of(content_hash, deps).take(16)
}

/// The directory of a store entry: `<store_root>/<store_key>`.
pub open spec fn entry_dir_of(store_root: Seq<u8>, store_key: Seq<u8>) -> Seq<u8> {
    store_root + seq![47u8] + store_key
}

/// The order in which dependencies are given changes neither the graph hash,
/// nor the store key, nor the entry's directory, nor the recorded dependency list.
pub proof fn lemma_dependency_order_irrelevant(
    name: Seq<u8>,
    version: Seq<u8>,
    content_hash: Seq<u8>,
    store_root: Seq<u8>,
    d1: Seq<FpModel>,
    d2: Seq<FpModel>,
)
    requires
        d1.to_multiset() == d2.to_multiset(),
    ensures
        canonical_deps(d1) == canonical_deps(d2),
        graph_hash_of(content_hash, d1) == graph_hash_of(content_hash, d2),
        store_key_of(name, version, content_hash, d1) == store_key_of(name, version, content_hash, d2),
        entry_dir_of(store_root, store_key_of(name, version, content_hash, d1)) == entry_dir_of(
            store_root,
            store_key_of(name, version, content_hash, d2),
        ),
{
}

/// The keys of a store entry.
pub struct KeyDerivation {
    pub store_key: String,
    pub graph_hash: String,
    pub dependencies: Vec<DependencyFingerprint>,
}

fn append_bytes(out: &mut Vec<u8>, b: &[u8])
    ensures
        final(out)@ == old(out)@ + b@,
{
    out.extend_from_slice(b);
    assert(final(out)@ =~= old(out)@ + b@);
}

fn write_fp(out: &mut Vec<u8>, f: &DependencyFingerprint)
    ensures
        final(out)@ == old(out)@ + enc_fp(f@),
{
    append_bytes(out, f.name.as_str().as_bytes());
    out.push(0u8);
    append_bytes(out, f.version.as_str().as_bytes());
    out.push(0u8);
    match &f.store_key {
        Some(k) => append_bytes(out, k.as_str().as_bytes()),
        None => {},
    }
    out.push(0u8);
    assert(final(out)@ =~= old(out)@ + enc_fp(f@));
}

/// Derives the graph hash and the store key of a package from its content hash
/// and its dependencies, which it returns in canonical order.
pub fn derive_store_key(
    name: &str,
    version: &str,
    content_hash: &str,
    deps: &[DependencyFingerprint],
) -> (r: KeyDerivation)
    ensures
        fps_view(r.dependencies@) == canonical_deps(fps_view(deps@)),
        encode_utf8(r.graph_hash@) == graph_hash_of(content_hash.spec_bytes(), fps_view(deps@)),
        encode_utf8(r.store_key@) == store_key_of(
            name.spec_bytes(),
            version.spec_bytes(),
            content_hash.spec_bytes(),
            fps_view(deps@),
        ),
{
    let sorted = sort_fingerprints(deps);
    let mut input: Vec<u8> = Vec::new();
    append_bytes(&mut input, content_hash.as_bytes());
    let ghost start = input@;
    let mut i: usize = 0;
    while i < sorted.len()
        invariant
            i <= sorted@.len(),
            start == content_hash.spec_bytes(),
            input@ == start + enc_each(fps_view(sorted@).take(i as int), fp_enc()),
        decreases sorted@.len() - i,
    {
        write_fp(&mut input, &sorted[i]);
        proof {
            let v = fps_view(sorted@);
            assert(v.take(i + 1) =~= v.take(i as int).push(v[i as int]));
            lemma_each_push(v.take(i as int), v[i as int], fp_enc());
            vstd::seq_lib::lemma_concat_associative(start, enc_each(v.take(i as int), fp_enc()), enc_fp(v[i as int]));
        }
        i = i + 1;
    }
    assert(fps_view(sorted@).take(sorted@.len() as int) =~= fps_view(sorted@));
    let digest = sha256(input.as_slice());
    let hex = to_hex(digest.as_slice());
    proof {
        lemma_ascii_valid(hex@);
    }
    let graph_hash = string_of_bytes(&hex);
    let mut key: Vec<u8> = Vec::new();
    append_bytes(&mut key, name.as_bytes());
    key.push(64u8);
    append_bytes(&mut key, version.as_bytes());
    key.push(58u8);
    key.push(58u8);
    proof {
        lemma_ascii_valid(seq![64u8]);
        lemma_ascii_valid(seq![58u8, 58u8]);
        assert(key@ =~= name.spec_bytes() + seq![64u8] + version.spec_bytes() + seq![58u8, 58u8]);
    }
    let ghost prefix = key@;
    let mut j: usize = 0;
    while j < 16 && j < hex.len()
        invariant
            j <= 16,
            j <= hex@.len(),
            key@ == prefix + hex@.take(j as int),
        decreases 16 - j,
    {
        key.push(hex[j]);
        assert(hex@.take(j + 1) =~= hex@.take(j as int).push(hex@[j as int]));
        j = j + 1;
    }
    proof {
        lemma_ascii_valid(hex@.take(j as int));
        assert(hex@.len() == 64) by {
            lemma_hex_len(digest@);
        }
        assert(hex@.take(16) == hex@.take(j as int));
        let n = name.spec_bytes();
        let v = version.spec_bytes();
        vstd::utf8::encode_utf8_valid_utf8(name@);
        vstd::utf8::encode_utf8_valid_utf8(version@);
        vstd::utf8::valid_utf8_concat(n, seq![64u8]);
        vstd::utf8::valid_utf8_concat(n + seq![64u8], v);
        vstd::utf8::valid_utf8_concat(n + seq![64u8] + v, seq![58u8, 58u8]);
        vstd::utf8::valid_utf8_concat(prefix, hex@.take(j as int));
    }
    let store_key = string_of_bytes(&key);
    KeyDerivation { store_key, graph_hash, dependencies: sorted }
}

proof fn lemma_hex_len(d: Seq<u8>)
    ensures
        hex_of(d).len() == 2 * d.len(),
    decreases d.len(),
{
    if d.len() > 0 {
        lemma_hex_len(d.drop_first());
    }
}

/// What a package file contributes to the content hash.
pub enum FileBody {
    /// A regular file: its mode bits and its bytes.
    Regular { mode: u32, data: Vec<u8> },
    /// A symbolic link: its target.
    Symlink { target: String },
}

/// A file of a package tree, by its path relative to the package root.
pub struct FileRecord {
    pub path: String,
    pub body: FileBody,
}

/// `<path>\0<mode>\0<length>\0<bytes>` for a file, `<path>\0SYM\0<target>\0`
/// for a link; numbers in decimal.
pub open spec fn enc_file(f: FileRecord) -> Seq<u8> {
    match f.body {
        FileBody::Regular { mode, data } => encode_utf8(f.path@) + seq![0u8] + dec_bytes(mode as nat) + seq![0u8]
            + dec_bytes(data@.len()) + seq![0u8] + data@,
        FileBody::Symlink { target } => encode_utf8(f.path@) + seq![0u8, 83u8, 89u8, 77u8, 0u8] + encode_utf8(
            target@,
        ) + seq![0u8],
    }
}

pub open spec fn file_enc() -> spec_fn(FileRecord) -> Seq<u8> {
    |f: FileRecord| enc_file(f)
}

/// Paths in strictly increasing byte order.
pub open spec fn paths_sorted(files: Seq<FileRecord>) -> bool {
    forall|i: int, j: int|
        0 <= i < j < files.len() ==> lex_le(encode_utf8((#[trigger] files[i]).path@), encode_utf8((#[trigger] files[j]).path@))
            && files[i].path@ != files[j].path@
}

/// Whether the files are in strictly increasing byte order of their paths.
pub fn paths_in_order(files: &Vec<FileRecord>) -> (r: bool)
    ensures
        r == paths_sorted(files@),
{
    let ghost ps = files@;
    if files.len() == 0 {
        return true;
    }
    let mut i: usize = 1;
    while i < files.len()
        invariant
            1 <= i <= ps.len(),
            ps == files@,
            paths_sorted(ps.take(i as int)),
        decreases ps.len() - i,
    {
        let a = files[i - 1].path.as_str().as_bytes();
        let b = files[i].path.as_str().as_bytes();
        let same = bytes_eq(a, b);
        proof {
            vstd::utf8::encode_utf8_decode_utf8(ps[i - 1].path@);
            vstd::utf8::encode_utf8_decode_utf8(ps[i as int].path@);
        }
        if same || !bytes_le(a, b) {
            proof {
                assert(!paths_sorted(ps)) by {
                    if paths_sorted(ps) {
                        assert(lex_le(encode_utf8(ps[i - 1].path@), encode_utf8(ps[i as int].path@))
                            && ps[i - 1].path@ != ps[i as int].path@);
                    }
                }
            }
            return false;
        }
        proof {
            let t = ps.take(i + 1);
            assert forall|x: int, y: int| 0 <= x < y < t.len() implies lex_le(
                encode_utf8((#[trigger] t[x]).path@),
                encode_utf8((#[trigger] t[y]).path@),
            ) && t[x].path@ != t[y].path@ by {
                assert(t[x] == ps[x]);
                assert(t[y] == ps[y]);
                if y < i {
                    assert(ps.take(i as int)[x] == ps[x] && ps.take(i as int)[y] == ps[y]);
                } else if x < i - 1 {
                    assert(ps.take(i as int)[x] == ps[x] && ps.take(i as int)[i - 1] == ps[i - 1]);
                    let ka = encode_utf8(ps[x].path@);
                    let kb = encode_utf8(ps[i - 1].path@);
                    let kc = encode_utf8(ps[i as int].path@);
                    lemma_lex_trans(ka, kb, kc);
                    if ps[x].path@ == ps[i as int].path@ {
                        lemma_lex_total(kb, kc);
                    }
                }
            }
        }
        i = i + 1;
    }
    assert(ps.take(ps.len() as int) =~= ps);
    true
}

/// The content hash of a package tree whose files are given in path order.
pub open spec fn content_hash_of(files: Seq<FileRecord>) -> Seq<u8> {
    hex_of(sha256_of(enc_each(files, file_enc())))
}

fn write_file(out: &mut Vec<u8>, f: &FileRecord)
    ensures
        final(out)@ == old(out)@ + enc_file(*f),
{
    append_bytes(out, f.path.as_str().as_bytes());
    out.push(0u8);
    match &f.body {
        FileBody::Regular { mode, data } => {
            let mut num: Vec<u8> = Vec::new();
            write_dec(&mut num, *mode as u64);
            append_bytes(out, num.as_slice());
            out.push(0u8);
            let mut len: Vec<u8> = Vec::new();
            write_dec(&mut len, data.len() as u64);
            append_bytes(out, len.as_slice());
            out.push(0u8);
            append_bytes(out, data.as_slice());
        },
        FileBody::Symlink { target } => {
            out.push(83u8);
            out.push(89u8);
            out.push(77u8);
            out.push(0u8);
            append_bytes(out, target.as_str().as_bytes());
            out.push(0u8);
        },
    }
    assert(final(out)@ =~= old(out)@ + enc_file(*f));
}

/// The content hash of a package tree, as lowercase hexadecimal, from its
/// files in lexicographic byte order of their paths; none where the files are
/// not in that order or a path repeats.
pub fn content_hash(files: &Vec<FileRecord>) -> (r: Option<String>)
    ensures
        r is Some <==> paths_sorted(files@),
        r matches Some(h) ==> encode_utf8(h@) == content_hash_of(files@),
{
    if !paths_in_order(files) {
        return None;
    }
    let mut input: Vec<u8> = Vec::new();
    let mut i: usize = 0;
    while i < files.len()
        invariant
            i <= files@.len(),
            input@ == enc_each(files@.take(i as int), file_enc()),
        decreases files@.len() - i,
    {
        write_file(&mut input, &files[i]);
        proof {
            assert(files@.take(i + 1) =~= files@.take(i as int).push(files@[i as int]));
            lemma_each_push(files@.take(i as int), files@[i as int], file_enc());
        }
        i = i + 1;
    }
    assert(files@.take(files@.len() as int) =~= files@);
    let digest = sha256(input.as_slice());
    let hex = to_hex(digest.as_slice());
    proof {
        lemma_ascii_valid(hex@);
    }
    Some(string_of_bytes(&hex))
}

} // verus!
