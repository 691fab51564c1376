use vstd::prelude::*;
use crate::order::{bytes_eq, bytes_le, lemma_lex_total, lemma_lex_trans, lex_le};
use vstd::string::StringSliceAdditionalSpecFns;
use vstd::utf8::encode_utf8;
use crate::wire::{
    enc_each, enc_list, enc_str, enc_varint, lemma_each_push, lemma_list_round_trip,
    lemma_prefix_split, lemma_str_round_trip, lemma_varint_len, lemma_varint_round_trip,
    nonempty_items, parse_each, parse_list, parse_str, parse_varint, prefix_at, read_str,
    read_varint, reads_back, write_str, write_varint,
};

verus! {

/// Whether a peer dependency may be left out.
#[derive(Clone, Copy, Debug, PartialEq, Eq, Structural)]
pub struct PeerMeta {
    pub optional: bool,
}

pub open spec fn strs_view(v: Seq<String>) -> Seq<Seq<char>> {
    v.map_values(|s: String| s@)
}

pub open spec fn pairs_view(v: Seq<(String, String)>) -> Seq<(Seq<char>, Seq<char>)> {
    v.map_values(|x: (String, String)| (x.0@, x.1@))
}

pub open spec fn metas_view(v: Seq<(String, PeerMeta)>) -> Seq<(Seq<char>, bool)> {
    v.map_values(|x: (String, PeerMeta)| (x.0@, x.1.optional))
}

pub open spec fn str_enc() -> spec_fn(Seq<char>) -> Seq<u8> {
    |s: Seq<char>| enc_str(s)
}

pub open spec fn str_par() -> spec_fn(Seq<u8>, int) -> Option<(Seq<char>, int)> {
    |b: Seq<u8>, pos: int| parse_str(b, pos)
}

/// A dependency: its name, then its range.
pub open spec fn enc_pair(x: (Seq<char>, Seq<char>)) -> Seq<u8> {
    enc_str(x.0) + enc_str(x.1)
}

pub open spec fn parse_pair(b: Seq<u8>, pos: int) -> Option<((Seq<char>, Seq<char>), int)> {
    match parse_str(b, pos) {
        Some((k, q)) => match parse_str(b, q) {
            Some((v, r)) => Some(((k, v), r)),
            None => None,
        },
        None => None,
    }
}

pub open spec fn pair_enc() -> spec_fn((Seq<char>, Seq<char>)) -> Seq<u8> {
    |x: (Seq<char>, Seq<char>)| enc_pair(x)
}

pub open spec fn pair_par() -> spec_fn(Seq<u8>, int) -> Option<((Seq<char>, Seq<char>), int)> {
    |b: Seq<u8>, pos: int| parse_pair(b, pos)
}

/// A peer-meta item: the name, then one byte, 1 where the peer is optional.
pub open spec fn enc_meta(x: (Seq<char>, bool)) -> Seq<u8> {
    enc_str(x.0) + seq![if x.1 { 1u8 } else { 0u8 }]
}

pub open spec fn parse_meta(b: Seq<u8>, pos: int) -> Option<((Seq<char>, bool), int)> {
    match parse_str(b, pos) {
        Some((k, q)) => if 0 <= q < b.len() && b[q] <= 1 {
            Some(((k, b[q] == 1), q + 1))
        } else {
            None
        },
        None => None,
    }
}

pub open spec fn meta_enc() -> spec_fn((Seq<char>, bool)) -> Seq<u8> {
    |x: (Seq<char>, bool)| enc_meta(x)
}

pub open spec fn meta_par() -> spec_fn(Seq<u8>, int) -> Option<((Seq<char>, bool), int)> {
    |b: Seq<u8>, pos: int| parse_meta(b, pos)
}

proof fn lemma_str_items(b: Seq<u8>)
    requires
        b.len() <= u64::MAX,
    ensures
        reads_back(b, str_enc(), str_par()),
        nonempty_items(str_enc()),
{
    assert forall|pos: int, x: Seq<char>| #[trigger] prefix_at(b, pos, str_enc()(x)) implies str_par()(b, pos)
        == Some((x, pos + str_enc()(x).len())) by {
        lemma_str_round_trip(b, pos, x);
    }
    assert forall|x: Seq<char>| #[trigger] str_enc()(x).len() >= 1 by {
        lemma_varint_len(vstd::utf8::encode_utf8(x).len());
    }
}

proof fn lemma_pair_items(b: Seq<u8>)
    requires
        b.len() <= u64::MAX,
    ensures
        reads_back(b, pair_enc(), pair_par()),
        nonempty_items(pair_enc()),
{
    assert forall|pos: int, x: (Seq<char>, Seq<char>)| #[trigger] prefix_at(b, pos, pair_enc()(x)) implies pair_par()(b, pos)
        == Some((x, pos + pair_enc()(x).len())) by {
        lemma_prefix_split(b, pos, enc_str(x.0), enc_str(x.1));
        lemma_str_round_trip(b, pos, x.0);
        lemma_str_round_trip(b, pos + enc_str(x.0).len(), x.1);
    }
    assert forall|x: (Seq<char>, Seq<char>)| #[trigger] pair_enc()(x).len() >= 1 by {
        lemma_varint_len(vstd::utf8::encode_utf8(x.0).len());
    }
}

proof fn lemma_meta_items(b: Seq<u8>)
    requires
        b.len() <= u64::MAX,
    ensures
        reads_back(b, meta_enc(), meta_par()),
        nonempty_items(meta_enc()),
{
    assert forall|pos: int, x: (Seq<char>, bool)| #[trigger] prefix_at(b, pos, meta_enc()(x)) implies meta_par()(b, pos)
        == Some((x, pos + meta_enc()(x).len())) by {
        let tail = seq![if x.1 { 1u8 } else { 0u8 }];
        lemma_prefix_split(b, pos, enc_str(x.0), tail);
        lemma_str_round_trip(b, pos, x.0);
        let q = pos + enc_str(x.0).len();
        assert(b[q] == b.subrange(q, q + 1)[0]);
    }
    assert forall|x: (Seq<char>, bool)| #[trigger] meta_enc()(x).len() >= 1 by {
        lemma_varint_len(vstd::utf8::encode_utf8(x.0).len());
    }
}

fn read_strs(b: &[u8], pos: usize) -> (r: Option<(Vec<String>, usize)>)
    ensures
        match parse_list(b@, pos as int, str_par()) {
            Some((xs, p)) => r matches Some((v, rp)) && strs_view(v@) == xs && rp == p,
            None => r is None,
        },
        r matches Some((_, p)) ==> pos <= p <= b@.len(),
{
    let (n, p0) = match read_varint(b, pos) {
        Some(x) => x,
        None => return None,
    };
    let mut p: usize = p0;
    let mut v: Vec<String> = Vec::new();
    let mut i: u64 = 0;
    assert(strs_view(v@) =~= Seq::<Seq<char>>::empty());
    while i < n
        invariant
            i <= n,
            pos <= p <= b@.len(),
            parse_varint(b@, pos as int) == Some((n, p0 as int)),
            parse_each(b@, p0 as int, n as nat, seq![], str_par()) == parse_each(
                b@,
                p as int,
                (n - i) as nat,
                strs_view(v@),
                str_par(),
            ),
        decreases n - i,
    {
        match read_str(b, p) {
            Some((s, q)) => {
                proof {
                    assert(strs_view(v@.push(s)) =~= strs_view(v@).push(s@));
                }
                v.push(s);
                p = q;
            },
            None => return None,
        }
        i = i + 1;
    }
    Some((v, p))
}


fn read_pairs(b: &[u8], pos: usize) -> (r: Option<(Vec<(String, String)>, usize)>)
    ensures
        match parse_list(b@, pos as int, pair_par()) {
            Some((xs, p)) => r matches Some((v, rp)) && pairs_view(v@) == xs && rp == p,
            None => r is None,
        },
        r matches Some((_, p)) ==> pos <= p <= b@.len(),
{
    let (n, p0) = match read_varint(b, pos) {
        Some(x) => x,
        None => return None,
    };
    let mut p: usize = p0;
    let mut v: Vec<(String, String)> = Vec::new();
    let mut i: u64 = 0;
    assert(pairs_view(v@) =~= Seq::<(Seq<char>, Seq<char>)>::empty());
    while i < n
        invariant
            i <= n,
            pos <= p <= b@.len(),
            parse_varint(b@, pos as int) == Some((n, p0 as int)),
            parse_each(b@, p0 as int, n as nat, seq![], pair_par()) == parse_each(
                b@,
                p as int,
                (n - i) as nat,
                pairs_view(v@),
                pair_par(),
            ),
        decreases n - i,
    {
        let (k, q) = match read_str(b, p) {
            Some(x) => x,
            None => return None,
        };
        let (val, q2) = match read_str(b, q) {
            Some(x) => x,
            None => return None,
        };
        proof {
            assert(pairs_view(v@.push((k, val))) =~= pairs_view(v@).push((k@, val@)));
        }
        v.push((k, val));
        p = q2;
        i = i + 1;
    }
    Some((v, p))
}

fn read_metas(b: &[u8], pos: usize) -> (r: Option<(Vec<(String, PeerMeta)>, usize)>)
    ensures
        match parse_list(b@, pos as int, meta_par()) {
            Some((xs, p)) => r matches Some((v, rp)) && metas_view(v@) == xs && rp == p,
            None => r is None,
        },
        r matches Some((_, p)) ==> pos <= p <= b@.len(),
{
    let (n, p0) = match read_varint(b, pos) {
        Some(x) => x,
        None => return None,
    };
    let mut p: usize = p0;
    let mut v: Vec<(String, PeerMeta)> = Vec::new();
    let mut i: u64 = 0;
    assert(metas_view(v@) =~= Seq::<(Seq<char>, bool)>::empty());
    while i < n
        invariant
            i <= n,
            pos <= p <= b@.len(),
            parse_varint(b@, pos as int) == Some((n, p0 as int)),
            parse_each(b@, p0 as int, n as nat, seq![], meta_par()) == parse_each(
                b@,
                p as int,
                (n - i) as nat,
                metas_view(v@),
                meta_par(),
            ),
        decreases n - i,
    {
        let (k, q) = match read_str(b, p) {
            Some(x) => x,
            None => return None,
        };
        if q >= b.len() || b[q] > 1 {
            return None;
        }
        let m = PeerMeta { optional: b[q] == 1 };
        proof {
            assert(metas_view(v@.push((k, m))) =~= metas_view(v@).push((k@, m.optional)));
        }
        v.push((k, m));
        p = q + 1;
        i = i + 1;
    }
    Some((v, p))
}

fn write_strs(out: &mut Vec<u8>, v: &Vec<String>)
    ensures
        final(out)@ == old(out)@ + enc_list(strs_view(v@), str_enc()),
{
    write_varint(out, v.len() as u64);
    let ghost start = out@;
    let mut i: usize = 0;
    while i < v.len()
        invariant
            i <= v@.len(),
            start == old(out)@ + enc_varint(v@.len() as nat),
            out@ == start + enc_each(strs_view(v@).take(i as int), str_enc()),
        decreases v@.len() - i,
    {
        write_str(out, v[i].as_str());
        proof {
            assert(strs_view(v@).take(i + 1) =~= strs_view(v@).take(i as int).push(v@[i as int]@));
            lemma_each_push(strs_view(v@).take(i as int), v@[i as int]@, str_enc());
        }
        i = i + 1;
    }
    assert(strs_view(v@).take(v@.len() as int) =~= strs_view(v@));
    assert(final(out)@ =~= old(out)@ + enc_list(strs_view(v@), str_enc()));
}

fn write_pairs(out: &mut Vec<u8>, v: &Vec<(String, String)>)
    ensures
        final(out)@ == old(out)@ + enc_list(pairs_view(v@), pair_enc()),
{
    write_varint(out, v.len() as u64);
    let ghost start = out@;
    let mut i: usize = 0;
    while i < v.len()
        invariant
            i <= v@.len(),
            start == old(out)@ + enc_varint(v@.len() as nat),
            out@ == start + enc_each(pairs_view(v@).take(i as int), pair_enc()),
        decreases v@.len() - i,
    {
        let ghost before = out@;
        write_str(out, v[i].0.as_str());
        write_str(out, v[i].1.as_str());
        proof {
            let x = (v@[i as int].0@, v@[i as int].1@);
            assert(out@ =~= before + enc_pair(x));
            assert(pairs_view(v@).take(i + 1) =~= pairs_view(v@).take(i as int).push(x));
            lemma_each_push(pairs_view(v@).take(i as int), x, pair_enc());
        }
        i = i + 1;
    }
    assert(pairs_view(v@).take(v@.len() as int) =~= pairs_view(v@));
    assert(final(out)@ =~= old(out)@ + enc_list(pairs_view(v@), pair_enc()));
}

fn write_metas(out: &mut Vec<u8>, v: &Vec<(String, PeerMeta)>)
    ensures
        final(out)@ == old(out)@ + enc_list(metas_view(v@), meta_enc()),
{
    write_varint(out, v.len() as u64);
    let ghost start = out@;
    let mut i: usize = 0;
    while i < v.len()
        invariant
            i <= v@.len(),
            start == old(out)@ + enc_varint(v@.len() as nat),
            out@ == start + enc_each(metas_view(v@).take(i as int), meta_enc()),
        decreases v@.len() - i,
    {
        let ghost before = out@;
        write_str(out, v[i].0.as_str());
        out.push(if v[i].1.optional { 1u8 } else { 0u8 });
        proof {
            let x = (v@[i as int].0@, v@[i as int].1.optional);
            assert(out@ =~= before + enc_meta(x));
            assert(metas_view(v@).take(i + 1) =~= metas_view(v@).take(i as int).push(x));
            lemma_each_push(metas_view(v@).take(i as int), x, meta_enc());
        }
        i = i + 1;
    }
    assert(metas_view(v@).take(v@.len() as int) =~= metas_view(v@));
    assert(final(out)@ =~= old(out)@ + enc_list(metas_view(v@), meta_enc()));
}


/// One node of the lockfile.
#[derive(Clone, Debug, PartialEq, Eq)]
pub struct PackageEntry {
    pub version: Option<String>,
    pub integrity: Option<String>,
    pub resolved: Option<String>,
    pub dependencies: Vec<(String, String)>,
    pub dev_dependencies: Vec<(String, String)>,
    pub optional_dependencies: Vec<(String, String)>,
    pub peer_dependencies: Vec<(String, String)>,
    pub peer_dependencies_meta: Vec<(String, PeerMeta)>,
    pub os: Vec<String>,
    pub cpu_arch: Vec<String>,
    pub store_key: Option<String>,
    pub content_hash: Option<String>,
    pub link_mode: Option<String>,
    pub store_path: Option<String>,
}

/// What a `PackageEntry` holds, with strings as character sequences.
pub ghost struct EntryModel {
    pub version: Option<Seq<char>>,
    pub integrity: Option<Seq<char>>,
    pub resolved: Option<Seq<char>>,
    pub dependencies: Seq<(Seq<char>, Seq<char>)>,
    pub dev_dependencies: Seq<(Seq<char>, Seq<char>)>,
    pub optional_dependencies: Seq<(Seq<char>, Seq<char>)>,
    pub peer_dependencies: Seq<(Seq<char>, Seq<char>)>,
    pub peer_dependencies_meta: Seq<(Seq<char>, bool)>,
    pub os: Seq<Seq<char>>,
    pub cpu_arch: Seq<Seq<char>>,
    pub store_key: Option<Seq<char>>,
    pub content_hash: Option<Seq<char>>,
    pub link_mode: Option<Seq<char>>,
    pub store_path: Option<Seq<char>>,
}

pub open spec fn opt_view(o: Option<String>) -> Option<Seq<char>> {
    match o {
        Some(s) => Some(s@),
        None => None,
    }
}

impl View for PackageEntry {
    type V = EntryModel;

    open spec fn view(&self) -> EntryModel {
        EntryModel {
            version: opt_view(self.version),
            integrity: opt_view(self.integrity),
            resolved: opt_view(self.resolved),
            dependencies: pairs_view(self.dependencies@),
            dev_dependencies: pairs_view(self.dev_dependencies@),
            optional_dependencies: pairs_view(self.optional_dependencies@),
            peer_dependencies: pairs_view(self.peer_dependencies@),
            peer_dependencies_meta: metas_view(self.peer_dependencies_meta@),
            os: strs_view(self.os@),
            cpu_arch: strs_view(self.cpu_arch@),
            store_key: opt_view(self.store_key),
            content_hash: opt_view(self.content_hash),
            link_mode: opt_view(self.link_mode),
            store_path: opt_view(self.store_path),
        }
    }
}

pub open spec fn flag(o: Option<Seq<char>>, bit: u8) -> u8 {
    if o is Some {
        bit
    } else {
        0
    }
}

/// The bits of the presence byte put together.
#[verifier::opaque]
pub open spec fn join_bits(a: u8, b: u8, c: u8, d: u8, e: u8, f: u8, g: u8) -> u8 {
    a | b | c | d | e | f | g
}

/// Bit `m` is set in `f`.
#[verifier::opaque]
pub open spec fn bit_set(f: u8, m: u8) -> bool {
    f & m != 0
}

fn has_bit(f: u8, m: u8) -> (r: bool)
    ensures
        r == bit_set(f, m),
{
    proof {
        reveal(bit_set);
    }
    f & m != 0
}

fn make_flags(a: u8, b: u8, c: u8, d: u8, e: u8, f: u8, g: u8) -> (r: u8)
    ensures
        r == join_bits(a, b, c, d, e, f, g),
{
    proof {
        reveal(join_bits);
    }
    a | b | c | d | e | f | g
}

/// The presence byte: one bit per optional string, in layout order.
pub open spec fn flags_of(e: EntryModel) -> u8 {
    join_bits(
        flag(e.version, 1),
        flag(e.integrity, 2),
        flag(e.resolved, 4),
        flag(e.store_key, 8),
        flag(e.content_hash, 16),
        flag(e.link_mode, 32),
        flag(e.store_path, 64),
    )
}

pub open spec fn enc_opt(o: Option<Seq<char>>) -> Seq<u8> {
    match o {
        Some(s) => enc_str(s),
        None => seq![],
    }
}

pub open spec fn parse_opt(b: Seq<u8>, pos: int, present: bool) -> Option<(Option<Seq<char>>, int)> {
    if present {
        match parse_str(b, pos) {
            Some((s, q)) => Some((Some(s), q)),
            None => None,
        }
    } else {
        Some((None, pos))
    }
}

/// The presence byte and the optional strings of an entry.
#[verifier::opaque]
pub open spec fn enc_head(e: EntryModel) -> Seq<u8> {
    seq![flags_of(e)] + enc_opt(e.version) + enc_opt(e.integrity) + enc_opt(e.resolved) + enc_opt(
        e.store_key,
    ) + enc_opt(e.content_hash) + enc_opt(e.link_mode) + enc_opt(e.store_path)
}

/// The dependency maps and the platform lists of an entry.
#[verifier::opaque]
pub open spec fn enc_tail(e: EntryModel) -> Seq<u8> {
    enc_list(e.dependencies, pair_enc()) + enc_list(e.dev_dependencies, pair_enc()) + enc_list(
        e.optional_dependencies,
        pair_enc(),
    ) + enc_list(e.peer_dependencies, pair_enc()) + enc_list(e.peer_dependencies_meta, meta_enc())
        + enc_list(e.os, str_enc()) + enc_list(e.cpu_arch, str_enc())
}

/// The encoding of one entry, after its key.
#[verifier::opaque]
pub open spec fn enc_entry(e: EntryModel) -> Seq<u8> {
    enc_head(e) + enc_tail(e)
}

pub type OptStrs = (
    Option<Seq<char>>,
    Option<Seq<char>>,
    Option<Seq<char>>,
    Option<Seq<char>>,
    Option<Seq<char>>,
    Option<Seq<char>>,
    Option<Seq<char>>,
);

pub type Lists = (
    Seq<(Seq<char>, Seq<char>)>,
    Seq<(Seq<char>, Seq<char>)>,
    Seq<(Seq<char>, Seq<char>)>,
    Seq<(Seq<char>, Seq<char>)>,
    Seq<(Seq<char>, bool)>,
    Seq<Seq<char>>,
    Seq<Seq<char>>,
);

#[verifier::opaque]
pub open spec fn parse_head(b: Seq<u8>, pos: int) -> Option<(OptStrs, int)> {
    if pos < 0 || pos >= b.len() || b[pos] >= 128 {
        None
    } else {
        let f = b[pos];
        match parse_opt(b, pos + 1, bit_set(f, 1)) {
            None => None,
            Some((o1, p1)) => match parse_opt(b, p1, bit_set(f, 2)) {
                None => None,
                Some((o2, p2)) => match parse_opt(b, p2, bit_set(f, 4)) {
                    None => None,
                    Some((o3, p3)) => match parse_opt(b, p3, bit_set(f, 8)) {
                        None => None,
                        Some((o4, p4)) => match parse_opt(b, p4, bit_set(f, 16)) {
                            None => None,
                            Some((o5, p5)) => match parse_opt(b, p5, bit_set(f, 32)) {
                                None => None,
                                Some((o6, p6)) => match parse_opt(b, p6, bit_set(f, 64)) {
                                    None => None,
                                    Some((o7, p7)) => Some(((o1, o2, o3, o4, o5, o6, o7), p7)),
                                },
                            },
                        },
                    },
                },
            },
        }
    }
}

#[verifier::opaque]
pub open spec fn parse_tail(b: Seq<u8>, pos: int) -> Option<(Lists, int)> {
    match parse_list(b, pos, pair_par()) {
        None => None,
        Some((l1, p1)) => match parse_list(b, p1, pair_par()) {
            None => None,
            Some((l2, p2)) => match parse_list(b, p2, pair_par()) {
                None => None,
                Some((l3, p3)) => match parse_list(b, p3, pair_par()) {
                    None => None,
                    Some((l4, p4)) => match parse_list(b, p4, meta_par()) {
                        None => None,
                        Some((l5, p5)) => match parse_list(b, p5, str_par()) {
                            None => None,
                            Some((l6, p6)) => match parse_list(b, p6, str_par()) {
                                None => None,
                                Some((l7, p7)) => Some(((l1, l2, l3, l4, l5, l6, l7), p7)),
                            },
                        },
                    },
                },
            },
        },
    }
}

pub open spec fn assemble(h: OptStrs, t: Lists) -> EntryModel {
    EntryModel {
        version: h.0,
        integrity: h.1,
        resolved: h.2,
        store_key: h.3,
        content_hash: h.4,
        link_mode: h.5,
        store_path: h.6,
        dependencies: t.0,
        dev_dependencies: t.1,
        optional_dependencies: t.2,
        peer_dependencies: t.3,
        peer_dependencies_meta: t.4,
        os: t.5,
        cpu_arch: t.6,
    }
}

#[verifier::opaque]
pub open spec fn parse_entry(b: Seq<u8>, pos: int) -> Option<(EntryModel, int)> {
    match parse_head(b, pos) {
        Some((h, p)) => match parse_tail(b, p) {
            Some((t, q)) => Some((assemble(h, t), q)),
            None => None,
        },
        None => None,
    }
}

proof fn lemma_flag_bits(a: u8, b: u8, c: u8, d: u8, e: u8, f: u8, g: u8)
    by (bit_vector)
    requires
        a == 0 || a == 1,
        b == 0 || b == 2,
        c == 0 || c == 4,
        d == 0 || d == 8,
        e == 0 || e == 16,
        f == 0 || f == 32,
        g == 0 || g == 64,
    ensures
        (a | b | c | d | e | f | g) < 128,
        ((a | b | c | d | e | f | g) & 1 != 0) == (a == 1),
        ((a | b | c | d | e | f | g) & 2 != 0) == (b == 2),
        ((a | b | c | d | e | f | g) & 4 != 0) == (c == 4),
        ((a | b | c | d | e | f | g) & 8 != 0) == (d == 8),
        ((a | b | c | d | e | f | g) & 16 != 0) == (e == 16),
        ((a | b | c | d | e | f | g) & 32 != 0) == (f == 32),
        ((a | b | c | d | e | f | g) & 64 != 0) == (g == 64),
{
}

proof fn lemma_flags_of(e: EntryModel)
    ensures
        flags_of(e) < 128,
        bit_set(flags_of(e), 1) == (e.version is Some),
        bit_set(flags_of(e), 2) == (e.integrity is Some),
        bit_set(flags_of(e), 4) == (e.resolved is Some),
        bit_set(flags_of(e), 8) == (e.store_key is Some),
        bit_set(flags_of(e), 16) == (e.content_hash is Some),
        bit_set(flags_of(e), 32) == (e.link_mode is Some),
        bit_set(flags_of(e), 64) == (e.store_path is Some),
{
    reveal(join_bits);
    reveal(bit_set);
    lemma_flag_bits(
        flag(e.version, 1),
        flag(e.integrity, 2),
        flag(e.resolved, 4),
        flag(e.store_key, 8),
        flag(e.content_hash, 16),
        flag(e.link_mode, 32),
        flag(e.store_path, 64),
    );
}

proof fn lemma_opt_round_trip(b: Seq<u8>, pos: int, o: Option<Seq<char>>)
    requires
        prefix_at(b, pos, enc_opt(o)),
        b.len() <= u64::MAX,
    ensures
        parse_opt(b, pos, o is Some) == Some((o, pos + enc_opt(o).len())),
{
    if let Some(s) = o {
        lemma_str_round_trip(b, pos, s);
    }
}

#[verifier::rlimit(50)]
proof fn lemma_head_round_trip(b: Seq<u8>, pos: int, e: EntryModel)
    requires
        prefix_at(b, pos, enc_head(e)),
        b.len() <= u64::MAX,
    ensures
        parse_head(b, pos) == Some(
            (
                (e.version, e.integrity, e.resolved, e.store_key, e.content_hash, e.link_mode, e.store_path),
                pos + enc_head(e).len(),
            ),
        ),
{
    reveal(enc_head);
    reveal(parse_head);
    let a0 = seq![flags_of(e)];
    let x1 = a0 + enc_opt(e.version);
    let x2 = x1 + enc_opt(e.integrity);
    let x3 = x2 + enc_opt(e.resolved);
    let x4 = x3 + enc_opt(e.store_key);
    let x5 = x4 + enc_opt(e.content_hash);
    let x6 = x5 + enc_opt(e.link_mode);
    lemma_prefix_split(b, pos, x6, enc_opt(e.store_path));
    lemma_prefix_split(b, pos, x5, enc_opt(e.link_mode));
    lemma_prefix_split(b, pos, x4, enc_opt(e.content_hash));
    lemma_prefix_split(b, pos, x3, enc_opt(e.store_key));
    lemma_prefix_split(b, pos, x2, enc_opt(e.resolved));
    lemma_prefix_split(b, pos, x1, enc_opt(e.integrity));
    lemma_prefix_split(b, pos, a0, enc_opt(e.version));
    assert(b[pos] == flags_of(e)) by {
        assert(b.subrange(pos, pos + 1)[0] == b[pos]);
    }
    lemma_flags_of(e);
    lemma_opt_round_trip(b, pos + a0.len(), e.version);
    lemma_opt_round_trip(b, pos + x1.len(), e.integrity);
    lemma_opt_round_trip(b, pos + x2.len(), e.resolved);
    lemma_opt_round_trip(b, pos + x3.len(), e.store_key);
    lemma_opt_round_trip(b, pos + x4.len(), e.content_hash);
    lemma_opt_round_trip(b, pos + x5.len(), e.link_mode);
    lemma_opt_round_trip(b, pos + x6.len(), e.store_path);
}

#[verifier::rlimit(50)]
proof fn lemma_tail_round_trip(b: Seq<u8>, pos: int, e: EntryModel)
    requires
        prefix_at(b, pos, enc_tail(e)),
        b.len() <= u64::MAX,
    ensures
        parse_tail(b, pos) == Some(
            (
                (
                    e.dependencies,
                    e.dev_dependencies,
                    e.optional_dependencies,
                    e.peer_dependencies,
                    e.peer_dependencies_meta,
                    e.os,
                    e.cpu_arch,
                ),
                pos + enc_tail(e).len(),
            ),
        ),
{
    reveal(enc_tail);
    reveal(parse_tail);
    let x1 = enc_list(e.dependencies, pair_enc());
    let x2 = x1 + enc_list(e.dev_dependencies, pair_enc());
    let x3 = x2 + enc_list(e.optional_dependencies, pair_enc());
    let x4 = x3 + enc_list(e.peer_dependencies, pair_enc());
    let x5 = x4 + enc_list(e.peer_dependencies_meta, meta_enc());
    let x6 = x5 + enc_list(e.os, str_enc());
    lemma_prefix_split(b, pos, x6, enc_list(e.cpu_arch, str_enc()));
    lemma_prefix_split(b, pos, x5, enc_list(e.os, str_enc()));
    lemma_prefix_split(b, pos, x4, enc_list(e.peer_dependencies_meta, meta_enc()));
    lemma_prefix_split(b, pos, x3, enc_list(e.peer_dependencies, pair_enc()));
    lemma_prefix_split(b, pos, x2, enc_list(e.optional_dependencies, pair_enc()));
    lemma_prefix_split(b, pos, x1, enc_list(e.dev_dependencies, pair_enc()));
    lemma_str_items(b);
    lemma_pair_items(b);
    lemma_meta_items(b);
    lemma_list_round_trip(b, pos, e.dependencies, pair_enc(), pair_par());
    lemma_list_round_trip(b, pos + x1.len(), e.dev_dependencies, pair_enc(), pair_par());
    lemma_list_round_trip(b, pos + x2.len(), e.optional_dependencies, pair_enc(), pair_par());
    lemma_list_round_trip(b, pos + x3.len(), e.peer_dependencies, pair_enc(), pair_par());
    lemma_list_round_trip(b, pos + x4.len(), e.peer_dependencies_meta, meta_enc(), meta_par());
    lemma_list_round_trip(b, pos + x5.len(), e.os, str_enc(), str_par());
    lemma_list_round_trip(b, pos + x6.len(), e.cpu_arch, str_enc(), str_par());
}

proof fn lemma_entry_round_trip(b: Seq<u8>, pos: int, e: EntryModel)
    requires
        prefix_at(b, pos, enc_entry(e)),
        b.len() <= u64::MAX,
    ensures
        parse_entry(b, pos) == Some((e, pos + enc_entry(e).len())),
{
    reveal(enc_entry);
    reveal(parse_entry);
    lemma_prefix_split(b, pos, enc_head(e), enc_tail(e));
    lemma_head_round_trip(b, pos, e);
    lemma_tail_round_trip(b, pos + enc_head(e).len(), e);
}

fn read_opt(b: &[u8], pos: usize, present: bool) -> (r: Option<(Option<String>, usize)>)
    requires
        pos <= b@.len(),
    ensures
        match parse_opt(b@, pos as int, present) {
            Some((o, p)) => r matches Some((ro, rp)) && opt_view(ro) == o && rp == p,
            None => r is None,
        },
        r matches Some((_, p)) ==> pos <= p <= b@.len(),
{
    if present {
        match read_str(b, pos) {
            Some((s, q)) => Some((Some(s), q)),
            None => None,
        }
    } else {
        Some((None, pos))
    }
}

fn write_opt(out: &mut Vec<u8>, o: &Option<String>)
    ensures
        final(out)@ == old(out)@ + enc_opt(opt_view(*o)),
{
    match o {
        Some(s) => write_str(out, s.as_str()),
        None => {
            assert(out@ =~= old(out)@ + enc_opt(opt_view(*o)));
        },
    }
}

type ExecOpts = (
    Option<String>,
    Option<String>,
    Option<String>,
    Option<String>,
    Option<String>,
    Option<String>,
    Option<String>,
);

type ExecLists = (
    Vec<(String, String)>,
    Vec<(String, String)>,
    Vec<(String, String)>,
    Vec<(String, String)>,
    Vec<(String, PeerMeta)>,
    Vec<String>,
    Vec<String>,
);

spec fn opts_view(h: ExecOpts) -> OptStrs {
    (opt_view(h.0), opt_view(h.1), opt_view(h.2), opt_view(h.3), opt_view(h.4), opt_view(h.5), opt_view(h.6))
}

spec fn lists_view(t: ExecLists) -> Lists {
    (
        pairs_view(t.0@),
        pairs_view(t.1@),
        pairs_view(t.2@),
        pairs_view(t.3@),
        metas_view(t.4@),
        strs_view(t.5@),
        strs_view(t.6@),
    )
}

#[verifier::rlimit(80)]
fn read_head(b: &[u8], pos: usize) -> (r: Option<(ExecOpts, usize)>)
    ensures
        match parse_head(b@, pos as int) {
            Some((m, p)) => r matches Some((h, rp)) && opts_view(h) == m && rp == p,
            None => r is None,
        },
        r matches Some((_, p)) ==> pos <= p <= b@.len(),
{
    proof {
        reveal(parse_head);
    }
    if pos >= b.len() || b[pos] >= 128 {
        return None;
    }
    let f = b[pos];
    let (o1, p1) = match read_opt(b, pos + 1, has_bit(f, 1)) {
        Some(x) => x,
        None => return None,
    };
    let (o2, p2) = match read_opt(b, p1, has_bit(f, 2)) {
        Some(x) => x,
        None => return None,
    };
    let (o3, p3) = match read_opt(b, p2, has_bit(f, 4)) {
        Some(x) => x,
        None => return None,
    };
    let (o4, p4) = match read_opt(b, p3, has_bit(f, 8)) {
        Some(x) => x,
        None => return None,
    };
    let (o5, p5) = match read_opt(b, p4, has_bit(f, 16)) {
        Some(x) => x,
        None => return None,
    };
    let (o6, p6) = match read_opt(b, p5, has_bit(f, 32)) {
        Some(x) => x,
        None => return None,
    };
    let (o7, p7) = match read_opt(b, p6, has_bit(f, 64)) {
        Some(x) => x,
        None => return None,
    };
    Some(((o1, o2, o3, o4, o5, o6, o7), p7))
}

fn read_tail(b: &[u8], pos: usize) -> (r: Option<(ExecLists, usize)>)
    ensures
        match parse_tail(b@, pos as int) {
            Some((m, p)) => r matches Some((t, rp)) && lists_view(t) == m && rp == p,
            None => r is None,
        },
        r matches Some((_, p)) ==> pos <= p <= b@.len(),
{
    proof {
        reveal(parse_tail);
    }
    let (l1, p1) = match read_pairs(b, pos) {
        Some(x) => x,
        None => return None,
    };
    let (l2, p2) = match read_pairs(b, p1) {
        Some(x) => x,
        None => return None,
    };
    let (l3, p3) = match read_pairs(b, p2) {
        Some(x) => x,
        None => return None,
    };
    let (l4, p4) = match read_pairs(b, p3) {
        Some(x) => x,
        None => return None,
    };
    let (l5, p5) = match read_metas(b, p4) {
        Some(x) => x,
        None => return None,
    };
    let (l6, p6) = match read_strs(b, p5) {
        Some(x) => x,
        None => return None,
    };
    let (l7, p7) = match read_strs(b, p6) {
        Some(x) => x,
        None => return None,
    };
    Some(((l1, l2, l3, l4, l5, l6, l7), p7))
}

fn read_entry(b: &[u8], pos: usize) -> (r: Option<(PackageEntry, usize)>)
    ensures
        match parse_entry(b@, pos as int) {
            Some((m, p)) => r matches Some((e, rp)) && e@ == m && rp == p,
            None => r is None,
        },
        r matches Some((_, p)) ==> pos <= p <= b@.len(),
{
    proof {
        reveal(parse_entry);
    }
    let (h, p) = match read_head(b, pos) {
        Some(x) => x,
        None => return None,
    };
    let (t, q) = match read_tail(b, p) {
        Some(x) => x,
        None => return None,
    };
    let e = PackageEntry {
        version: h.0,
        integrity: h.1,
        resolved: h.2,
        store_key: h.3,
        content_hash: h.4,
        link_mode: h.5,
        store_path: h.6,
        dependencies: t.0,
        dev_dependencies: t.1,
        optional_dependencies: t.2,
        peer_dependencies: t.3,
        peer_dependencies_meta: t.4,
        os: t.5,
        cpu_arch: t.6,
    };
    Some((e, q))
}

fn write_head(out: &mut Vec<u8>, e: &PackageEntry)
    ensures
        final(out)@ == old(out)@ + enc_head(e@),
{
    proof {
        reveal(enc_head);
    }
    let f = make_flags(
        if e.version.is_some() { 1 } else { 0 },
        if e.integrity.is_some() { 2 } else { 0 },
        if e.resolved.is_some() { 4 } else { 0 },
        if e.store_key.is_some() { 8 } else { 0 },
        if e.content_hash.is_some() { 16 } else { 0 },
        if e.link_mode.is_some() { 32 } else { 0 },
        if e.store_path.is_some() { 64 } else { 0 },
    );
    let ghost m = e@;
    assert(f == flags_of(m));
    out.push(f);
    let ghost o = old(out)@;
    let ghost mut h = seq![f];
    assert(out@ =~= o + h);
    write_opt(out, &e.version);
    proof {
        vstd::seq_lib::lemma_concat_associative(o, h, enc_opt(m.version));
        h = h + enc_opt(m.version);
    }
    write_opt(out, &e.integrity);
    proof {
        vstd::seq_lib::lemma_concat_associative(o, h, enc_opt(m.integrity));
        h = h + enc_opt(m.integrity);
    }
    write_opt(out, &e.resolved);
    proof {
        vstd::seq_lib::lemma_concat_associative(o, h, enc_opt(m.resolved));
        h = h + enc_opt(m.resolved);
    }
    write_opt(out, &e.store_key);
    proof {
        vstd::seq_lib::lemma_concat_associative(o, h, enc_opt(m.store_key));
        h = h + enc_opt(m.store_key);
    }
    write_opt(out, &e.content_hash);
    proof {
        vstd::seq_lib::lemma_concat_associative(o, h, enc_opt(m.content_hash));
        h = h + enc_opt(m.content_hash);
    }
    write_opt(out, &e.link_mode);
    proof {
        vstd::seq_lib::lemma_concat_associative(o, h, enc_opt(m.link_mode));
        h = h + enc_opt(m.link_mode);
    }
    write_opt(out, &e.store_path);
    proof {
        vstd::seq_lib::lemma_concat_associative(o, h, enc_opt(m.store_path));
        h = h + enc_opt(m.store_path);
    }
    assert(h == enc_head(m));
}

fn write_tail(out: &mut Vec<u8>, e: &PackageEntry)
    ensures
        final(out)@ == old(out)@ + enc_tail(e@),
{
    proof {
        reveal(enc_tail);
    }
    write_pairs(out, &e.dependencies);
    write_pairs(out, &e.dev_dependencies);
    write_pairs(out, &e.optional_dependencies);
    write_pairs(out, &e.peer_dependencies);
    write_metas(out, &e.peer_dependencies_meta);
    write_strs(out, &e.os);
    write_strs(out, &e.cpu_arch);
    assert(out@ =~= old(out)@ + enc_tail(e@));
}

fn write_entry(out: &mut Vec<u8>, e: &PackageEntry)
    ensures
        final(out)@ == old(out)@ + enc_entry(e@),
{
    proof {
        reveal(enc_entry);
    }
    write_head(out, e);
    write_tail(out, e);
    assert(out@ =~= old(out)@ + enc_entry(e@));
}

/// The format version that new lockfiles carry.
pub const LOCKFILE_FORMAT: u64 = 1;

/// The resolved dependency graph of a project, keyed by install path: `""` for
/// the project itself and `node_modules/<name>` for each installed package.
#[derive(Clone, Debug, PartialEq, Eq)]
pub struct Lockfile {
    pub format: u64,
    pub packages: Vec<(String, PackageEntry)>,
}

pub ghost struct LockModel {
    pub format: u64,
    pub packages: Seq<(Seq<char>, EntryModel)>,
}

pub open spec fn records_view(v: Seq<(String, PackageEntry)>) -> Seq<(Seq<char>, EntryModel)> {
    v.map_values(|x: (String, PackageEntry)| (x.0@, x.1@))
}

impl View for Lockfile {
    type V = LockModel;

    open spec fn view(&self) -> LockModel {
        LockModel { format: self.format, packages: records_view(self.packages@) }
    }
}

/// Why a byte string is not a lockfile.
#[derive(Clone, Copy, Debug, PartialEq, Eq, Structural)]
pub enum LockfileError {
    /// The bytes do not begin with the lockfile magic.
    UnknownFormat,
    /// A record is truncated or malformed, or bytes follow the last record.
    Malformed,
}

impl LockfileError {
    pub fn message(&self) -> (r: String)
        ensures
            *self == LockfileError::UnknownFormat ==> r@ == "unknown lockfile format"@,
            *self == LockfileError::Malformed ==> r@ == "malformed lockfile"@,
    {
        match self {
            LockfileError::UnknownFormat => "unknown lockfile format".to_owned(),
            LockfileError::Malformed => "malformed lockfile".to_owned(),
        }
    }
}

/// One record: the path key, then the entry.
pub open spec fn enc_record(x: (Seq<char>, EntryModel)) -> Seq<u8> {
    enc_str(x.0) + enc_entry(x.1)
}

pub open spec fn parse_record(b: Seq<u8>, pos: int) -> Option<((Seq<char>, EntryModel), int)> {
    match parse_str(b, pos) {
        Some((k, q)) => match parse_entry(b, q) {
            Some((e, r)) => Some(((k, e), r)),
            None => None,
        },
        None => None,
    }
}

pub open spec fn record_enc() -> spec_fn((Seq<char>, EntryModel)) -> Seq<u8> {
    |x: (Seq<char>, EntryModel)| enc_record(x)
}

pub open spec fn record_par() -> spec_fn(Seq<u8>, int) -> Option<((Seq<char>, EntryModel), int)> {
    |b: Seq<u8>, pos: int| parse_record(b, pos)
}

/// The bytes `PACMLOCK`.
pub open spec fn magic() -> Seq<u8> {
    seq![80u8, 65u8, 67u8, 77u8, 76u8, 79u8, 67u8, 75u8]
}

pub open spec fn has_magic(b: Seq<u8>) -> bool {
    b.len() >= 8 && b.take(8) == magic()
}

/// The binary lockfile: magic, format version, then the count-prefixed records.
pub open spec fn enc_lock(l: LockModel) -> Seq<u8> {
    magic() + enc_varint(l.format as nat) + enc_list(l.packages, record_enc())
}

pub open spec fn parse_lock(b: Seq<u8>) -> Option<LockModel> {
    if !has_magic(b) {
        None
    } else {
        match parse_varint(b, 8) {
            Some((format, p)) => match parse_list(b, p, record_par()) {
                Some((packages, q)) => if q == b.len() && keys_sorted(packages) && entries_wf(packages) {
                    Some(LockModel { format, packages })
                } else {
                    None
                },
                None => None,
            },
            None => None,
        }
    }
}

proof fn lemma_record_items(b: Seq<u8>)
    requires
        b.len() <= u64::MAX,
    ensures
        reads_back(b, record_enc(), record_par()),
        nonempty_items(record_enc()),
{
    assert forall|pos: int, x: (Seq<char>, EntryModel)| #[trigger] prefix_at(b, pos, record_enc()(x)) implies record_par()(b, pos)
        == Some((x, pos + record_enc()(x).len())) by {
        lemma_prefix_split(b, pos, enc_str(x.0), enc_entry(x.1));
        lemma_str_round_trip(b, pos, x.0);
        lemma_entry_round_trip(b, pos + enc_str(x.0).len(), x.1);
    }
    assert forall|x: (Seq<char>, EntryModel)| #[trigger] record_enc()(x).len() >= 1 by {
        lemma_varint_len(vstd::utf8::encode_utf8(x.0).len());
    }
}

/// Decoding an encoded lockfile gives back that lockfile.
pub proof fn lemma_lockfile_round_trip(l: LockModel)
    requires
        keys_sorted(l.packages),
        entries_wf(l.packages),
        enc_lock(l).len() <= u64::MAX,
    ensures
        parse_lock(enc_lock(l)) == Some(l),
{
    let b = enc_lock(l);
    let m = magic();
    let v = enc_varint(l.format as nat);
    let body = enc_list(l.packages, record_enc());
    assert(prefix_at(b, 0, b)) by {
        assert(b.subrange(0, b.len() as int) =~= b);
    }
    lemma_prefix_split(b, 0, m + v, body);
    lemma_prefix_split(b, 0, m, v);
    assert(b.take(8) == m) by {
        assert(b.take(8) =~= b.subrange(0, 8));
    }
    lemma_varint_round_trip(b, 8, l.format as nat);
    lemma_record_items(b);
    lemma_list_round_trip(b, 8 + v.len() as int, l.packages, record_enc(), record_par());
}

fn read_records(b: &[u8], pos: usize) -> (r: Option<(Vec<(String, PackageEntry)>, usize)>)
    ensures
        match parse_list(b@, pos as int, record_par()) {
            Some((xs, p)) => r matches Some((v, rp)) && records_view(v@) == xs && rp == p,
            None => r is None,
        },
        r matches Some((_, p)) ==> pos <= p <= b@.len(),
{
    let (n, p0) = match read_varint(b, pos) {
        Some(x) => x,
        None => return None,
    };
    let mut p: usize = p0;
    let mut v: Vec<(String, PackageEntry)> = Vec::new();
    let mut i: u64 = 0;
    assert(records_view(v@) =~= Seq::<(Seq<char>, EntryModel)>::empty());
    while i < n
        invariant
            i <= n,
            pos <= p <= b@.len(),
            parse_varint(b@, pos as int) == Some((n, p0 as int)),
            parse_each(b@, p0 as int, n as nat, seq![], record_par()) == parse_each(
                b@,
                p as int,
                (n - i) as nat,
                records_view(v@),
                record_par(),
            ),
        decreases n - i,
    {
        let (k, q) = match read_str(b, p) {
            Some(x) => x,
            None => return None,
        };
        let (e, q2) = match read_entry(b, q) {
            Some(x) => x,
            None => return None,
        };
        proof {
            assert(records_view(v@.push((k, e))) =~= records_view(v@).push((k@, e@)));
        }
        v.push((k, e));
        p = q2;
        i = i + 1;
    }
    Some((v, p))
}

/// Encodes a lockfile: magic, format version, then one record per package in
/// the order the lockfile holds them.
pub fn encode_current_binary(l: &Lockfile) -> (r: Result<Vec<u8>, LockfileError>)
    ensures
        r matches Ok(b) && b@ == enc_lock(l@),
{
    let mut out: Vec<u8> = Vec::new();
    out.push(80u8);
    out.push(65u8);
    out.push(67u8);
    out.push(77u8);
    out.push(76u8);
    out.push(79u8);
    out.push(67u8);
    out.push(75u8);
    assert(out@ =~= magic());
    write_varint(&mut out, l.format);
    let ghost start = out@;
    write_varint(&mut out, l.packages.len() as u64);
    let mut i: usize = 0;
    while i < l.packages.len()
        invariant
            i <= l.packages@.len(),
            start == magic() + enc_varint(l.format as nat),
            out@ == start + enc_varint(l.packages@.len() as nat) + enc_each(
                records_view(l.packages@).take(i as int),
                record_enc(),
            ),
        decreases l.packages@.len() - i,
    {
        let ghost before = out@;
        write_str(&mut out, l.packages[i].0.as_str());
        write_entry(&mut out, &l.packages[i].1);
        proof {
            let x = (l.packages@[i as int].0@, l.packages@[i as int].1@);
            assert(out@ =~= before + enc_record(x));
            assert(records_view(l.packages@).take(i + 1) =~= records_view(l.packages@).take(
                i as int,
            ).push(x));
            lemma_each_push(records_view(l.packages@).take(i as int), x, record_enc());
        }
        i = i + 1;
    }
    assert(records_view(l.packages@).take(l.packages@.len() as int) =~= records_view(l.packages@));
    assert(out@ =~= enc_lock(l@));
    Ok(out)
}

/// Names in strictly increasing byte order.
pub open spec fn names_sorted(ks: Seq<Seq<char>>) -> bool {
    forall|i: int, j: int|
        0 <= i < j < ks.len() ==> lex_le(encode_utf8(#[trigger] ks[i]), encode_utf8(#[trigger] ks[j])) && ks[i] != ks[j]
}

/// A map held as pairs: its keys unique and in byte order.
pub open spec fn map_sorted<V>(s: Seq<(Seq<char>, V)>) -> bool {
    names_sorted(s.map_values(|p: (Seq<char>, V)| p.0))
}

/// The dependency maps of an entry are maps in key order.
pub open spec fn entry_wf(e: EntryModel) -> bool {
    &&& map_sorted(e.dependencies)
    &&& map_sorted(e.dev_dependencies)
    &&& map_sorted(e.optional_dependencies)
    &&& map_sorted(e.peer_dependencies)
    &&& map_sorted(e.peer_dependencies_meta)
}

pub open spec fn entries_wf(ps: Seq<(Seq<char>, EntryModel)>) -> bool {
    forall|i: int| 0 <= i < ps.len() ==> entry_wf(#[trigger] ps[i].1)
}

/// Whether the names of `v` are unique and in byte order.
pub fn names_in_order<V>(v: &Vec<(String, V)>) -> (r: bool)
    ensures
        r == names_sorted(v@.map_values(|x: (String, V)| x.0@)),
{
    let ghost ps = v@.map_values(|x: (String, V)| x.0@);
    if v.len() == 0 {
        return true;
    }
    let mut i: usize = 1;
    while i < v.len()
        invariant
            1 <= i <= ps.len(),
            ps == v@.map_values(|x: (String, V)| x.0@),
            names_sorted(ps.take(i as int)),
        decreases ps.len() - i,
    {
        let a = v[i - 1].0.as_str().as_bytes();
        let b = v[i].0.as_str().as_bytes();
        let same = bytes_eq(a, b);
        proof {
            vstd::utf8::encode_utf8_decode_utf8(ps[i - 1]);
            vstd::utf8::encode_utf8_decode_utf8(ps[i as int]);
        }
        if same || !bytes_le(a, b) {
            proof {
                assert(!names_sorted(ps)) by {
                    if names_sorted(ps) {
                        assert(lex_le(encode_utf8(ps[i - 1]), encode_utf8(ps[i as int])) && ps[i - 1] != ps[i as int]);
                    }
                }
            }
            return false;
        }
        proof {
            let t = ps.take(i + 1);
            assert forall|x: int, y: int| 0 <= x < y < t.len() implies lex_le(encode_utf8(#[trigger] t[x]), encode_utf8(
                #[trigger] t[y],
            )) && t[x] != t[y] by {
                assert(t[x] == ps[x]);
                assert(t[y] == ps[y]);
                if y < i {
                    assert(ps.take(i as int)[x] == ps[x] && ps.take(i as int)[y] == ps[y]);
                } else if x < i - 1 {
                    assert(ps.take(i as int)[x] == ps[x] && ps.take(i as int)[i - 1] == ps[i - 1]);
                    lemma_lex_trans(encode_utf8(ps[x]), encode_utf8(ps[i - 1]), encode_utf8(ps[i as int]));
                    if ps[x] == ps[i as int] {
                        lemma_lex_total(encode_utf8(ps[i - 1]), encode_utf8(ps[i as int]));
                    }
                }
            }
        }
        i = i + 1;
    }
    assert(ps.take(ps.len() as int) =~= ps);
    true
}

pub(crate) fn pairs_in_order(v: &Vec<(String, String)>) -> (r: bool)
    ensures
        r == map_sorted(pairs_view(v@)),
{
    let r = names_in_order(v);
    assert(pairs_view(v@).map_values(|p: (Seq<char>, Seq<char>)| p.0) =~= v@.map_values(|x: (String, String)| x.0@));
    r
}

pub(crate) fn metas_in_order(v: &Vec<(String, PeerMeta)>) -> (r: bool)
    ensures
        r == map_sorted(metas_view(v@)),
{
    let r = names_in_order(v);
    assert(metas_view(v@).map_values(|p: (Seq<char>, bool)| p.0) =~= v@.map_values(|x: (String, PeerMeta)| x.0@));
    r
}

impl PackageEntry {
    /// The dependency maps are maps in key order.
    pub open spec fn wf(&self) -> bool {
        entry_wf(self@)
    }

    /// Whether the dependency maps are maps in key order.
    pub fn is_well_formed(&self) -> (r: bool)
        ensures
            r == self.wf(),
    {
        pairs_in_order(&self.dependencies) && pairs_in_order(&self.dev_dependencies) && pairs_in_order(
            &self.optional_dependencies,
        ) && pairs_in_order(&self.peer_dependencies) && metas_in_order(&self.peer_dependencies_meta)
    }
}

fn entries_in_order(v: &Vec<(String, PackageEntry)>) -> (r: bool)
    ensures
        r == entries_wf(records_view(v@)),
{
    let mut i: usize = 0;
    while i < v.len()
        invariant
            i <= v@.len(),
            forall|j: int| 0 <= j < i ==> entry_wf(#[trigger] records_view(v@)[j].1),
        decreases v@.len() - i,
    {
        if !v[i].1.is_well_formed() {
            assert(!entry_wf(records_view(v@)[i as int].1));
            return false;
        }
        i = i + 1;
    }
    true
}

fn keys_in_order(v: &Vec<(String, PackageEntry)>) -> (r: bool)
    ensures
        r == keys_sorted(records_view(v@)),
{
    let ghost ps = records_view(v@);
    let mut i: usize = 1;
    if v.len() == 0 {
        return true;
    }
    while i < v.len()
        invariant
            1 <= i <= v@.len(),
            ps == records_view(v@),
            keys_sorted(ps.take(i as int)),
        decreases v@.len() - i,
    {
        let a = v[i - 1].0.as_str().as_bytes();
        let b = v[i].0.as_str().as_bytes();
        let same = bytes_eq(a, b);
        proof {
            vstd::utf8::encode_utf8_decode_utf8(ps[i - 1].0);
            vstd::utf8::encode_utf8_decode_utf8(ps[i as int].0);
        }
        if same || !bytes_le(a, b) {
            proof {
                assert(ps[i - 1] == ps.take(i as int)[i - 1]);
                assert(!keys_sorted(ps)) by {
                    if keys_sorted(ps) {
                        assert(lex_le(encode_utf8(ps[i - 1].0), encode_utf8(ps[i as int].0)) && ps[i - 1].0 != ps[i as int].0);
                    }
                }
            }
            return false;
        }
        proof {
            let t = ps.take(i + 1);
            assert forall|x: int, y: int| 0 <= x < y < t.len() implies lex_le(encode_utf8(#[trigger] t[x].0), encode_utf8(
                #[trigger] t[y].0,
            )) && t[x].0 != t[y].0 by {
                assert(t[x] == ps[x]);
                assert(t[y] == ps[y]);
                if y < i {
                    assert(ps.take(i as int)[x] == ps[x] && ps.take(i as int)[y] == ps[y]);
                } else if x < i - 1 {
                    assert(ps.take(i as int)[x] == ps[x] && ps.take(i as int)[i - 1] == ps[i - 1]);
                    let ka = encode_utf8(ps[x].0);
                    let kb = encode_utf8(ps[i - 1].0);
                    let kc = encode_utf8(ps[i as int].0);
                    lemma_lex_trans(ka, kb, kc);
                    if ps[x].0 == ps[i as int].0 {
                        lemma_lex_total(kb, kc);
                    }
                }
            }
        }
        i = i + 1;
    }
    assert(ps.take(v@.len() as int) =~= ps);
    true
}

impl Lockfile {
    /// Whether the keys are unique and in byte order.
    pub fn is_well_formed(&self) -> (r: bool)
        ensures
            r == self.wf(),
    {
        keys_in_order(&self.packages) && entries_in_order(&self.packages)
    }
}

/// Decodes a lockfile. Bytes without the magic are refused as an unknown
/// format; anything else that is not exactly one encoded lockfile, with its
/// keys unique and in byte order, is malformed.
pub fn decode_current_binary(b: &[u8]) -> (r: Result<Lockfile, LockfileError>)
    ensures
        match parse_lock(b@) {
            Some(m) => r matches Ok(l) && l@ == m && l.wf(),
            None => r is Err,
        },
        r == Err::<Lockfile, LockfileError>(LockfileError::UnknownFormat) <==> !has_magic(b@),
{
    if b.len() < 8 || b[0] != 80 || b[1] != 65 || b[2] != 67 || b[3] != 77 || b[4] != 76 || b[5]
        != 79 || b[6] != 67 || b[7] != 75 {
        proof {
            if b@.len() >= 8 {
                assert(b@.take(8)[0] == b@[0]);
                assert(b@.take(8)[1] == b@[1]);
                assert(b@.take(8)[2] == b@[2]);
                assert(b@.take(8)[3] == b@[3]);
                assert(b@.take(8)[4] == b@[4]);
                assert(b@.take(8)[5] == b@[5]);
                assert(b@.take(8)[6] == b@[6]);
                assert(b@.take(8)[7] == b@[7]);
            }
        }
        return Err(LockfileError::UnknownFormat);
    }
    assert(b@.take(8) =~= magic());
    let (format, p) = match read_varint(b, 8) {
        Some(x) => x,
        None => return Err(LockfileError::Malformed),
    };
    let (packages, q) = match read_records(b, p) {
        Some(x) => x,
        None => return Err(LockfileError::Malformed),
    };
    if q != b.len() || !keys_in_order(&packages) || !entries_in_order(&packages) {
        return Err(LockfileError::Malformed);
    }
    Ok(Lockfile { format, packages })
}


/// Keys in strictly increasing byte order.
pub open spec fn keys_sorted(ps: Seq<(Seq<char>, EntryModel)>) -> bool {
    forall|i: int, j: int|
        0 <= i < j < ps.len() ==> lex_le(encode_utf8(#[trigger] ps[i].0), encode_utf8(#[trigger] ps[j].0))
            && ps[i].0 != ps[j].0
}

/// The entry stored under `key`.
pub open spec fn lookup(ps: Seq<(Seq<char>, EntryModel)>, key: Seq<char>) -> Option<EntryModel> {
    if exists|i: int| 0 <= i < ps.len() && ps[i].0 == key {
        Some(ps[choose|i: int| 0 <= i < ps.len() && ps[i].0 == key].1)
    } else {
        None
    }
}

proof fn lemma_lookup_at(ps: Seq<(Seq<char>, EntryModel)>, i: int)
    requires
        keys_sorted(ps),
        0 <= i < ps.len(),
    ensures
        lookup(ps, ps[i].0) == Some(ps[i].1),
{
    let j = choose|j: int| 0 <= j < ps.len() && ps[j].0 == ps[i].0;
    if j < i {
        assert(ps[j].0 != ps[i].0);
    } else if i < j {
        assert(ps[i].0 != ps[j].0);
    }
}

/// An entry with only a version, if any.
pub open spec fn placeholder(version: Option<Seq<char>>) -> EntryModel {
    EntryModel {
        version,
        integrity: None,
        resolved: None,
        dependencies: seq![],
        dev_dependencies: seq![],
        optional_dependencies: seq![],
        peer_dependencies: seq![],
        peer_dependencies_meta: seq![],
        os: seq![],
        cpu_arch: seq![],
        store_key: None,
        content_hash: None,
        link_mode: None,
        store_path: None,
    }
}

impl PackageEntry {
    pub fn placeholder(version: Option<String>) -> (r: PackageEntry)
        ensures
            r@ == placeholder(opt_view(version)),
    {
        let r = PackageEntry {
            version,
            integrity: None,
            resolved: None,
            dependencies: Vec::new(),
            dev_dependencies: Vec::new(),
            optional_dependencies: Vec::new(),
            peer_dependencies: Vec::new(),
            peer_dependencies_meta: Vec::new(),
            os: Vec::new(),
            cpu_arch: Vec::new(),
            store_key: None,
            content_hash: None,
            link_mode: None,
            store_path: None,
        };
        assert(r@.dependencies =~= seq![]);
        assert(r@.dev_dependencies =~= seq![]);
        assert(r@.optional_dependencies =~= seq![]);
        assert(r@.peer_dependencies =~= seq![]);
        assert(r@.peer_dependencies_meta =~= seq![]);
        assert(r@.os =~= seq![]);
        assert(r@.cpu_arch =~= seq![]);
        r
    }
}

impl Lockfile {
    /// Keys are unique and in byte order.
    pub open spec fn wf(&self) -> bool {
        keys_sorted(self@.packages) && entries_wf(self@.packages)
    }

    /// An empty lockfile of the current format.
    pub fn new() -> (r: Lockfile)
        ensures
            r.wf(),
            r@.format == LOCKFILE_FORMAT,
            r@.packages.len() == 0,
    {
        let r = Lockfile { format: LOCKFILE_FORMAT, packages: Vec::new() };
        assert(r@.packages =~= Seq::<(Seq<char>, EntryModel)>::empty());
        r
    }

    /// Where `key` is, or where it would go.
    fn position(&self, key: &str) -> (r: Result<usize, usize>)
        requires
            self.wf(),
        ensures
            match r {
                Ok(i) => i < self@.packages.len() && self@.packages[i as int].0 == key@,
                Err(i) => i <= self@.packages.len() && (forall|j: int|
                    0 <= j < i ==> lex_le(encode_utf8(#[trigger] self@.packages[j].0), encode_utf8(key@))
                        && self@.packages[j].0 != key@) && (forall|j: int|
                    i <= j < self@.packages.len() ==> lex_le(encode_utf8(key@), encode_utf8(#[trigger] self@.packages[j].0))
                        && self@.packages[j].0 != key@),
            },
    {
        let ghost ps = self@.packages;
        let mut i: usize = 0;
        while i < self.packages.len() && !bytes_le(key.as_bytes(), self.packages[i].0.as_str().as_bytes())
            invariant
                self.wf(),
                ps == self@.packages,
                i <= ps.len(),
                forall|j: int| 0 <= j < i ==> lex_le(encode_utf8(#[trigger] ps[j].0), encode_utf8(key@)) && ps[j].0 != key@,
            decreases ps.len() - i,
        {
            proof {
                lemma_lex_total(encode_utf8(key@), encode_utf8(ps[i as int].0));
            }
            i = i + 1;
        }
        if i < self.packages.len() && bytes_eq(key.as_bytes(), self.packages[i].0.as_str().as_bytes()) {
            proof {
                vstd::utf8::encode_utf8_decode_utf8(key@);
                vstd::utf8::encode_utf8_decode_utf8(ps[i as int].0);
            }
            return Ok(i);
        }
        proof {
            assert forall|j: int| i <= j < ps.len() implies lex_le(encode_utf8(key@), encode_utf8(#[trigger] ps[j].0))
                && ps[j].0 != key@ by {
                if j > i {
                    lemma_lex_trans(encode_utf8(key@), encode_utf8(ps[i as int].0), encode_utf8(ps[j].0));
                    if ps[j].0 == key@ {
                        lemma_lex_total(encode_utf8(ps[i as int].0), encode_utf8(key@));
                    }
                }
            }
        }
        Err(i)
    }

    /// The entry under `key`.
    pub fn get(&self, key: &str) -> (r: Option<&PackageEntry>)
        requires
            self.wf(),
        ensures
            match r {
                Some(e) => lookup(self@.packages, key@) == Some(e@),
                None => lookup(self@.packages, key@) is None,
            },
    {
        match self.position(key) {
            Ok(i) => {
                proof {
                    lemma_lookup_at(self@.packages, i as int);
                }
                Some(&self.packages[i].1)
            },
            Err(_) => None,
        }
    }

    pub fn contains_key(&self, key: &str) -> (r: bool)
        requires
            self.wf(),
        ensures
            r == (lookup(self@.packages, key@) is Some),
    {
        self.get(key).is_some()
    }

    /// Stores `entry` under `key`, in place of any entry there.
    pub fn insert(&mut self, key: String, entry: PackageEntry)
        requires
            old(self).wf(),
            entry.wf(),
        ensures
            final(self).wf(),
            final(self)@.format == old(self)@.format,
            lookup(final(self)@.packages, key@) == Some(entry@),
            forall|k: Seq<char>| k != key@ ==> #[trigger] lookup(final(self)@.packages, k) == lookup(old(self)@.packages, k),
    {
        let ghost ps = self@.packages;
        let ghost x = (key@, entry@);
        match self.position(key.as_str()) {
            Ok(i) => {
                let _ = self.packages.remove(i);
                self.packages.insert(i, (key, entry));
                proof {
                    assert(self@.packages =~= ps.update(i as int, x));
                    lemma_update_keeps(ps, i as int, x);
                }
            },
            Err(i) => {
                self.packages.insert(i, (key, entry));
                proof {
                    assert(self@.packages =~= ps.insert(i as int, x));
                    lemma_insert_keeps(ps, i as int, x);
                }
            },
        }
    }
}

/// `m` with the fields that an install records.
pub open spec fn with_install(
    m: EntryModel,
    store_key: Seq<char>,
    content_hash: Seq<char>,
    link_mode: Seq<char>,
    store_path: Seq<char>,
) -> EntryModel {
    EntryModel {
        store_key: Some(store_key),
        content_hash: Some(content_hash),
        link_mode: Some(link_mode),
        store_path: Some(store_path),
        ..m
    }
}

impl Lockfile {
    /// Records where the package under `key` was installed from and how. An
    /// absent entry is created first, carrying `version`.
    pub fn record_install(
        &mut self,
        key: String,
        version: String,
        store_key: String,
        content_hash: String,
        link_mode: String,
        store_path: String,
    )
        requires
            old(self).wf(),
        ensures
            final(self).wf(),
            final(self)@.format == old(self)@.format,
            lookup(final(self)@.packages, key@) == Some(
                with_install(
                    match lookup(old(self)@.packages, key@) {
                        Some(m) => m,
                        None => placeholder(Some(version@)),
                    },
                    store_key@,
                    content_hash@,
                    link_mode@,
                    store_path@,
                ),
            ),
            forall|k: Seq<char>| k != key@ ==> #[trigger] lookup(final(self)@.packages, k) == lookup(old(self)@.packages, k),
    {
        let ghost ps = self@.packages;
        match self.position(key.as_str()) {
            Ok(i) => {
                proof {
                    lemma_lookup_at(ps, i as int);
                }
                let (k, mut e) = self.packages.remove(i);
                e.store_key = Some(store_key);
                e.content_hash = Some(content_hash);
                e.link_mode = Some(link_mode);
                e.store_path = Some(store_path);
                let ghost x = (k@, e@);
                self.packages.insert(i, (k, e));
                proof {
                    assert(self@.packages =~= ps.update(i as int, x));
                    lemma_update_keeps(ps, i as int, x);
                }
            },
            Err(i) => {
                let mut e = PackageEntry::placeholder(Some(version));
                e.store_key = Some(store_key);
                e.content_hash = Some(content_hash);
                e.link_mode = Some(link_mode);
                e.store_path = Some(store_path);
                let ghost x = (key@, e@);
                proof {
                    assert(lookup(ps, key@) is None) by {
                        if exists|j: int| 0 <= j < ps.len() && ps[j].0 == key@ {
                            let j = choose|j: int| 0 <= j < ps.len() && ps[j].0 == key@;
                            assert(ps[j].0 != key@);
                        }
                    }
                }
                self.packages.insert(i, (key, e));
                proof {
                    assert(self@.packages =~= ps.insert(i as int, x));
                    lemma_insert_keeps(ps, i as int, x);
                }
            },
        }
    }
}

impl Default for Lockfile {
    fn default() -> (r: Lockfile)
        ensures
            r.wf(),
            r@.format == LOCKFILE_FORMAT,
            r@.packages.len() == 0,
    {
        Lockfile::new()
    }
}

proof fn lemma_update_keeps(ps: Seq<(Seq<char>, EntryModel)>, i: int, x: (Seq<char>, EntryModel))
    requires
        keys_sorted(ps),
        0 <= i < ps.len(),
        ps[i].0 == x.0,
        entries_wf(ps),
        entry_wf(x.1),
    ensures
        keys_sorted(ps.update(i, x)),
        lookup(ps.update(i, x), x.0) == Some(x.1),
        forall|k: Seq<char>| k != x.0 ==> #[trigger] lookup(ps.update(i, x), k) == lookup(ps, k),
        entries_wf(ps.update(i, x)),
{
    let nv = ps.update(i, x);
    assert forall|k: int| 0 <= k < nv.len() implies entry_wf(#[trigger] nv[k].1) by {
        if k != i {
            assert(nv[k] == ps[k]);
        }
    }
    assert forall|a: int, c: int| 0 <= a < c < nv.len() implies lex_le(encode_utf8(#[trigger] nv[a].0), encode_utf8(#[trigger] nv[c].0))
        && nv[a].0 != nv[c].0 by {
        assert(lex_le(encode_utf8(ps[a].0), encode_utf8(ps[c].0)) && ps[a].0 != ps[c].0);
    }
    lemma_lookup_at(nv, i);
    assert forall|k: Seq<char>| k != x.0 implies #[trigger] lookup(nv, k) == lookup(ps, k) by {
        if exists|j: int| 0 <= j < ps.len() && ps[j].0 == k {
            let j = choose|j: int| 0 <= j < ps.len() && ps[j].0 == k;
            lemma_lookup_at(ps, j);
            lemma_lookup_at(nv, j);
        } else {
            assert(!exists|j: int| 0 <= j < nv.len() && nv[j].0 == k);
        }
    }
}

proof fn lemma_insert_keeps(ps: Seq<(Seq<char>, EntryModel)>, i: int, x: (Seq<char>, EntryModel))
    requires
        keys_sorted(ps),
        0 <= i <= ps.len(),
        forall|j: int| 0 <= j < i ==> lex_le(encode_utf8(#[trigger] ps[j].0), encode_utf8(x.0)) && ps[j].0 != x.0,
        forall|j: int| i <= j < ps.len() ==> lex_le(encode_utf8(x.0), encode_utf8(#[trigger] ps[j].0)) && ps[j].0 != x.0,
        entries_wf(ps),
        entry_wf(x.1),
    ensures
        keys_sorted(ps.insert(i, x)),
        lookup(ps.insert(i, x), x.0) == Some(x.1),
        forall|k: Seq<char>| k != x.0 ==> #[trigger] lookup(ps.insert(i, x), k) == lookup(ps, k),
        entries_wf(ps.insert(i, x)),
{
    let nv = ps.insert(i, x);
    assert forall|k: int| 0 <= k < nv.len() implies entry_wf(#[trigger] nv[k].1) by {
        if k < i {
            assert(nv[k] == ps[k]);
        } else if k > i {
            assert(nv[k] == ps[k - 1]);
        }
    }
    assert forall|a: int, c: int| 0 <= a < c < nv.len() implies lex_le(encode_utf8(#[trigger] nv[a].0), encode_utf8(#[trigger] nv[c].0))
        && nv[a].0 != nv[c].0 by {
        if c < i {
            assert(lex_le(encode_utf8(ps[a].0), encode_utf8(ps[c].0)));
        } else if c == i {
        } else if a < i {
            assert(lex_le(encode_utf8(ps[a].0), encode_utf8(ps[c - 1].0)) && ps[a].0 != ps[c - 1].0);
        } else if a == i {
        } else {
            assert(lex_le(encode_utf8(ps[a - 1].0), encode_utf8(ps[c - 1].0)) && ps[a - 1].0 != ps[c - 1].0);
        }
    }
    lemma_lookup_at(nv, i);
    assert forall|k: Seq<char>| k != x.0 implies #[trigger] lookup(nv, k) == lookup(ps, k) by {
        if exists|j: int| 0 <= j < ps.len() && ps[j].0 == k {
            let j = choose|j: int| 0 <= j < ps.len() && ps[j].0 == k;
            lemma_lookup_at(ps, j);
            if j < i {
                lemma_lookup_at(nv, j);
            } else {
                assert(nv[j + 1] == ps[j]);
                lemma_lookup_at(nv, j + 1);
            }
        } else {
            assert forall|j: int| 0 <= j < nv.len() implies nv[j].0 != k by {
                if j < i {
                    assert(nv[j] == ps[j]);
                } else if j > i {
                    assert(nv[j] == ps[j - 1]);
                }
            }
        }
    }
}

} // verus!
