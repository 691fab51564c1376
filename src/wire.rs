use vstd::prelude::*;
use vstd::slice::slice_subrange;
use vstd::string::StringSliceAdditionalSpecFns;
use vstd::utf8::*;

verus! {

broadcast use {vstd::utf8::encode_utf8_decode_utf8, vstd::utf8::encode_utf8_valid_utf8};

/// `e` stands in `b` starting at `pos`.
pub open spec fn prefix_at(b: Seq<u8>, pos: int, e: Seq<u8>) -> bool {
    0 <= pos && pos + e.len() <= b.len() && b.subrange(pos, pos + e.len()) == e
}

/// Little-endian base-128 encoding: seven bits per byte, high bit set on all but the last.
pub open spec fn enc_varint(n: nat) -> Seq<u8>
    decreases n,
{
    if n < 128 {
        seq![n as u8]
    } else {
        seq![(n % 128 + 128) as u8] + enc_varint(n / 128)
    }
}

/// Reads a varint at `pos`: its value and the position after it. Values that
/// do not fit in 64 bits, and encodings with a superfluous zero group, are refused.
pub open spec fn parse_varint(b: Seq<u8>, pos: int) -> Option<(u64, int)>
    decreases b.len() - pos,
{
    if pos < 0 || pos >= b.len() {
        None
    } else if b[pos] < 128 {
        Some((b[pos] as u64, pos + 1))
    } else {
        match parse_varint(b, pos + 1) {
            Some((hi, p)) => {
                let v: int = hi as int * 128 + (b[pos] - 128);
                if hi == 0 || v > u64::MAX {
                    None
                } else {
                    Some((v as u64, p))
                }
            },
            None => None,
        }
    }
}

/// A length-prefixed UTF-8 string.
pub open spec fn enc_str(s: Seq<char>) -> Seq<u8> {
    enc_varint(encode_utf8(s).len()) + encode_utf8(s)
}

pub open spec fn parse_str(b: Seq<u8>, pos: int) -> Option<(Seq<char>, int)> {
    match parse_varint(b, pos) {
        Some((n, p)) => {
            if p + n > b.len() || !valid_utf8(b.subrange(p, p + n)) {
                None
            } else {
                Some((decode_utf8(b.subrange(p, p + n)), p + n))
            }
        },
        None => None,
    }
}

pub proof fn lemma_prefix_split(b: Seq<u8>, pos: int, x: Seq<u8>, y: Seq<u8>)
    ensures
        prefix_at(b, pos, x + y) <==> (prefix_at(b, pos, x) && prefix_at(b, pos + x.len(), y)),
{
    assert(x =~= (x + y).subrange(0, x.len() as int));
    assert(y =~= (x + y).subrange(x.len() as int, (x.len() + y.len()) as int));
    if prefix_at(b, pos, x + y) {
        assert(b.subrange(pos, pos + x.len()) =~= (x + y).subrange(0, x.len() as int));
        assert(b.subrange(pos + x.len(), pos + x.len() + y.len()) =~= (x + y).subrange(
            x.len() as int,
            (x.len() + y.len()) as int,
        ));
    }
    if prefix_at(b, pos, x) && prefix_at(b, pos + x.len(), y) {
        assert(b.subrange(pos, pos + (x + y).len()) =~= b.subrange(pos, pos + x.len())
            + b.subrange(pos + x.len(), pos + x.len() + y.len()));
    }
}

pub proof fn lemma_varint_len(n: nat)
    ensures
        1 <= enc_varint(n).len() <= n + 1,
    decreases n,
{
    if n >= 128 {
        lemma_varint_len(n / 128);
    }
}

pub proof fn lemma_varint_round_trip(b: Seq<u8>, pos: int, n: nat)
    requires
        prefix_at(b, pos, enc_varint(n)),
        n <= u64::MAX,
    ensures
        parse_varint(b, pos) == Some((n as u64, pos + enc_varint(n).len())),
    decreases n,
{
    assert(b[pos] == enc_varint(n)[0]);
    if n >= 128 {
        let hi = n / 128;
        assert(enc_varint(n) == seq![(n % 128 + 128) as u8] + enc_varint(hi));
        lemma_prefix_split(b, pos, seq![(n % 128 + 128) as u8], enc_varint(hi));
        lemma_varint_round_trip(b, pos + 1, hi);
        assert(hi * 128 + n % 128 == n);
        lemma_varint_len(hi);
        assert(b[pos] == (n % 128 + 128) as u8);
        assert(b[pos] - 128 == n % 128);
    } else {
        assert(enc_varint(n) == seq![n as u8]);
    }
}

pub proof fn lemma_str_round_trip(b: Seq<u8>, pos: int, s: Seq<char>)
    requires
        prefix_at(b, pos, enc_str(s)),
        b.len() <= u64::MAX,
    ensures
        parse_str(b, pos) == Some((s, pos + enc_str(s).len())),
{
    let e = encode_utf8(s);
    lemma_prefix_split(b, pos, enc_varint(e.len()), e);
    lemma_varint_round_trip(b, pos, e.len());
    let p = pos + enc_varint(e.len()).len();
    assert(b.subrange(p, p + e.len()) == e);
}

/// Appends the varint encoding of `n`.
pub fn write_varint(out: &mut Vec<u8>, n: u64)
    ensures
        final(out)@ == old(out)@ + enc_varint(n as nat),
    decreases n,
{
    if n < 128 {
        out.push(n as u8);
    } else {
        out.push((n % 128 + 128) as u8);
        write_varint(out, n / 128);
        assert(final(out)@ =~= old(out)@ + enc_varint(n as nat));
    }
}

pub fn read_varint(b: &[u8], pos: usize) -> (r: Option<(u64, usize)>)
    ensures
        match parse_varint(b@, pos as int) {
            Some((v, p)) => r matches Some((rv, rp)) && rv == v && rp == p,
            None => r is None,
        },
        r matches Some((_, p)) ==> pos < p <= b@.len(),
    decreases b@.len() - pos,
{
    if pos >= b.len() {
        return None;
    }
    let byte = b[pos];
    if byte < 128 {
        return Some((byte as u64, pos + 1));
    }
    match read_varint(b, pos + 1) {
        Some((hi, p)) => {
            let low = (byte - 128) as u64;
            if hi == 0 || hi > (u64::MAX - low) / 128 {
                proof {
                    if hi != 0 {
                        assert(hi as int * 128 + low > u64::MAX) by (nonlinear_arith)
                            requires
                                hi > (u64::MAX - low) / 128,
                                low < 128,
                        ;
                    }
                }
                None
            } else {
                proof {
                    assert(hi as int * 128 + low <= u64::MAX) by (nonlinear_arith)
                        requires
                            hi <= (u64::MAX - low) / 128,
                            low < 128,
                    ;
                }
                Some((hi * 128 + low, p))
            }
        },
        None => None,
    }
}

/// Appends a length-prefixed string.
pub fn write_str(out: &mut Vec<u8>, s: &str)
    ensures
        final(out)@ == old(out)@ + enc_str(s@),
{
    let bytes = s.as_bytes();
    write_varint(out, bytes.len() as u64);
    let ghost mid = out@;
    out.extend_from_slice(bytes);
    assert(out@ =~= mid + encode_utf8(s@));
    assert(final(out)@ =~= old(out)@ + enc_str(s@));
}

/// Relies on std's `str::from_utf8`: it succeeds exactly on valid UTF-8, and then
/// the string holds the characters those bytes encode.
#[verifier::external_body]
pub(crate) fn string_from_utf8(bytes: &[u8]) -> (r: Option<String>)
    ensures
        r is Some <==> valid_utf8(bytes@),
        r matches Some(s) ==> s@ == decode_utf8(bytes@),
{
    std::str::from_utf8(bytes).ok().map(|s| s.to_string())
}

pub fn read_str(b: &[u8], pos: usize) -> (r: Option<(String, usize)>)
    ensures
        match parse_str(b@, pos as int) {
            Some((s, p)) => r matches Some((rs, rp)) && rs@ == s && rp == p,
            None => r is None,
        },
        r matches Some((_, p)) ==> pos < p <= b@.len(),
{
    match read_varint(b, pos) {
        Some((n, p)) => {
            if n > (b.len() - p) as u64 {
                return None;
            }
            let end = p + n as usize;
            let bytes = slice_subrange(b, p, end);
            assert(bytes@ == b@.subrange(p as int, p + n));
            match string_from_utf8(bytes) {
                Some(s) => Some((s, end)),
                None => None,
            }
        },
        None => None,
    }
}

/// The encodings of the items of `xs`, one after another.
pub open spec fn enc_each<T>(xs: Seq<T>, f: spec_fn(T) -> Seq<u8>) -> Seq<u8>
    decreases xs.len(),
{
    if xs.len() == 0 {
        seq![]
    } else {
        f(xs[0]) + enc_each(xs.drop_first(), f)
    }
}

/// A count-prefixed list.
pub open spec fn enc_list<T>(xs: Seq<T>, f: spec_fn(T) -> Seq<u8>) -> Seq<u8> {
    enc_varint(xs.len()) + enc_each(xs, f)
}

/// Reads `k` more items with `p` after those already read into `acc`.
pub open spec fn parse_each<T>(
    b: Seq<u8>,
    pos: int,
    k: nat,
    acc: Seq<T>,
    p: spec_fn(Seq<u8>, int) -> Option<(T, int)>,
) -> Option<(Seq<T>, int)>
    decreases k,
{
    if k == 0 {
        Some((acc, pos))
    } else {
        match p(b, pos) {
            Some((x, q)) => parse_each(b, q, (k - 1) as nat, acc.push(x), p),
            None => None,
        }
    }
}

pub open spec fn parse_list<T>(b: Seq<u8>, pos: int, p: spec_fn(Seq<u8>, int) -> Option<(T, int)>) -> Option<(Seq<T>, int)> {
    match parse_varint(b, pos) {
        Some((n, q)) => parse_each(b, q, n as nat, seq![], p),
        None => None,
    }
}

/// `p` reads back what `f` writes, wherever it stands in `b`.
pub open spec fn reads_back<T>(b: Seq<u8>, f: spec_fn(T) -> Seq<u8>, p: spec_fn(Seq<u8>, int) -> Option<(T, int)>) -> bool {
    forall|pos: int, x: T| #[trigger] prefix_at(b, pos, f(x)) ==> p(b, pos) == Some((x, pos + f(x).len()))
}

/// Every encoded item takes at least one byte.
pub open spec fn nonempty_items<T>(f: spec_fn(T) -> Seq<u8>) -> bool {
    forall|x: T| #[trigger] f(x).len() >= 1
}

pub proof fn lemma_each_push<T>(xs: Seq<T>, x: T, f: spec_fn(T) -> Seq<u8>)
    ensures
        enc_each(xs.push(x), f) == enc_each(xs, f) + f(x),
    decreases xs.len(),
{
    if xs.len() == 0 {
        assert(xs.push(x).drop_first() =~= Seq::<T>::empty());
        assert(enc_each(xs.push(x).drop_first(), f) =~= Seq::<u8>::empty());
        assert(xs.push(x)[0] == x);
        assert(enc_each(xs.push(x), f) =~= f(x));
        assert(enc_each(xs, f) =~= Seq::<u8>::empty());
    } else {
        assert(xs.push(x).drop_first() =~= xs.drop_first().push(x));
        lemma_each_push(xs.drop_first(), x, f);
        assert(enc_each(xs.push(x), f) =~= enc_each(xs, f) + f(x));
    }
}

pub proof fn lemma_each_len<T>(xs: Seq<T>, f: spec_fn(T) -> Seq<u8>)
    requires
        nonempty_items(f),
    ensures
        enc_each(xs, f).len() >= xs.len(),
    decreases xs.len(),
{
    if xs.len() > 0 {
        lemma_each_len(xs.drop_first(), f);
    }
}

pub proof fn lemma_each_round_trip<T>(
    b: Seq<u8>,
    pos: int,
    xs: Seq<T>,
    acc: Seq<T>,
    f: spec_fn(T) -> Seq<u8>,
    p: spec_fn(Seq<u8>, int) -> Option<(T, int)>,
)
    requires
        reads_back(b, f, p),
        prefix_at(b, pos, enc_each(xs, f)),
    ensures
        parse_each(b, pos, xs.len(), acc, p) == Some((acc + xs, pos + enc_each(xs, f).len())),
    decreases xs.len(),
{
    if xs.len() == 0 {
        assert(acc + xs =~= acc);
    } else {
        lemma_prefix_split(b, pos, f(xs[0]), enc_each(xs.drop_first(), f));
        assert(prefix_at(b, pos, f(xs[0])));
        lemma_each_round_trip(b, pos + f(xs[0]).len(), xs.drop_first(), acc.push(xs[0]), f, p);
        assert(acc.push(xs[0]) + xs.drop_first() =~= acc + xs);
        assert((xs.len() - 1) as nat == xs.drop_first().len());
    }
}

pub proof fn lemma_list_round_trip<T>(
    b: Seq<u8>,
    pos: int,
    xs: Seq<T>,
    f: spec_fn(T) -> Seq<u8>,
    p: spec_fn(Seq<u8>, int) -> Option<(T, int)>,
)
    requires
        reads_back(b, f, p),
        nonempty_items(f),
        prefix_at(b, pos, enc_list(xs, f)),
        b.len() <= u64::MAX,
    ensures
        parse_list(b, pos, p) == Some((xs, pos + enc_list(xs, f).len())),
{
    lemma_prefix_split(b, pos, enc_varint(xs.len()), enc_each(xs, f));
    lemma_each_len(xs, f);
    lemma_varint_round_trip(b, pos, xs.len());
    lemma_each_round_trip(b, pos + enc_varint(xs.len()).len(), xs, seq![], f, p);
    assert(Seq::<T>::empty() + xs =~= xs);
}

/// Bytes below 128 are valid UTF-8 on their own.
pub proof fn lemma_ascii_valid(b: Seq<u8>)
    requires
        forall|i: int| 0 <= i < b.len() ==> b[i] < 128,
    ensures
        valid_utf8(b),
    decreases b.len(),
{
    if b.len() > 0 {
        assert(is_leading_byte_width_1(b[0]));
        assert(length_of_first_scalar(b) == 1);
        assert(pop_first_scalar(b) =~= b.drop_first());
        lemma_ascii_valid(b.drop_first());
    }
}

/// The string whose UTF-8 encoding is `b`.
pub fn string_of_bytes(b: &Vec<u8>) -> (r: String)
    requires
        valid_utf8(b@),
    ensures
        encode_utf8(r@) == b@,
{
    match string_from_utf8(b.as_slice()) {
        Some(s) => {
            proof {
                vstd::utf8::decode_utf8_encode_utf8(b@);
            }
            s
        },
        None => String::new(),
    }
}

pub proof fn lemma_encode_concat(a: Seq<char>, b: Seq<char>)
    ensures
        encode_utf8(a + b) == encode_utf8(a) + encode_utf8(b),
    decreases a.len(),
{
    if a.len() > 0 {
        assert((a + b).drop_first() =~= a.drop_first() + b);
        lemma_encode_concat(a.drop_first(), b);
        assert((a + b)[0] == a[0]);
        assert(encode_utf8(a + b) =~= encode_utf8(a) + encode_utf8(b));
    } else {
        assert(a + b =~= b);
        assert(encode_utf8(a) =~= Seq::<u8>::empty());
        assert(encode_utf8(a) + encode_utf8(b) =~= encode_utf8(b));
    }
}

/// `a` followed by `b`.
pub fn concat(a: &str, b: &str) -> (r: String)
    ensures
        r@ == a@ + b@,
{
    let mut out: Vec<u8> = Vec::new();
    out.extend_from_slice(a.as_bytes());
    out.extend_from_slice(b.as_bytes());
    proof {
        assert(out@ =~= encode_utf8(a@) + encode_utf8(b@));
        lemma_encode_concat(a@, b@);
    }
    let r = string_of_bytes(&out);
    proof {
        encode_utf8_decode_utf8(r@);
        encode_utf8_decode_utf8(a@ + b@);
    }
    r
}

} // verus!
