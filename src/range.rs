use vstd::prelude::*;
use vstd::string::StringSliceAdditionalSpecFns;
use vstd::utf8::decode_utf8;
use crate::install::{dec_bytes, write_dec};
use crate::wire::{lemma_ascii_valid, string_of_bytes};

verus! {

/// Version components stay below this bound, so that one more still fits.
pub const COMPONENT_BOUND: u64 = 1000000000000000000;

/// Whitespace or a comma: what separates comparators.
pub open spec fn is_sep(c: u8) -> bool {
    c == 32 || c == 9 || c == 10 || c == 13 || c == 44
}

pub open spec fn is_digit(c: u8) -> bool {
    48 <= c <= 57
}

/// The comparators of a range: maximal runs of bytes between separators.
pub open spec fn tokens_from(b: Seq<u8>, i: int, cur: Seq<u8>, acc: Seq<Seq<u8>>) -> Seq<Seq<u8>>
    decreases b.len() - i,
{
    if i >= b.len() {
        if cur.len() > 0 {
            acc.push(cur)
        } else {
            acc
        }
    } else if is_sep(b[i]) {
        tokens_from(b, i + 1, seq![], if cur.len() > 0 { acc.push(cur) } else { acc })
    } else {
        tokens_from(b, i + 1, cur.push(b[i]), acc)
    }
}

pub open spec fn tokens(b: Seq<u8>) -> Seq<Seq<u8>> {
    tokens_from(b, 0, seq![], seq![])
}

/// A comparison operator standing alone.
pub open spec fn is_op(t: Seq<u8>) -> bool {
    t == seq![62u8, 61u8] || t == seq![60u8, 61u8] || t == seq![62u8] || t == seq![60u8] || t == seq![61u8]
}

/// Joins each operator that stands alone to the token after it (`>= 1.2.3`).
pub open spec fn merge_from(ts: Seq<Seq<u8>>, i: int, acc: Seq<Seq<u8>>) -> Seq<Seq<u8>>
    decreases ts.len() - i,
{
    if i < 0 || i >= ts.len() {
        acc
    } else if is_op(ts[i]) && i + 1 < ts.len() {
        merge_from(ts, i + 2, acc.push(ts[i] + ts[i + 1]))
    } else {
        merge_from(ts, i + 1, acc.push(ts[i]))
    }
}

/// The value of the digits `t[i..j]`.
pub open spec fn digits_value(t: Seq<u8>, i: int, j: int) -> nat
    decreases j - i,
{
    if j <= i {
        0
    } else {
        digits_value(t, i, j - 1) * 10 + (t[j - 1] - 48) as nat
    }
}

/// The end of the run of digits that starts at `i`.
pub open spec fn digits_end(t: Seq<u8>, i: int) -> int
    decreases t.len() - i,
{
    if 0 <= i < t.len() && is_digit(t[i]) {
        digits_end(t, i + 1)
    } else {
        i
    }
}

/// The number at `i` and the position after it; none where no digit stands
/// there or the number reaches the bound.
pub open spec fn num_at(t: Seq<u8>, i: int) -> Option<(nat, int)> {
    let j = digits_end(t, i);
    if j == i || digits_value(t, i, j) >= COMPONENT_BOUND {
        None
    } else {
        Some((digits_value(t, i, j), j))
    }
}

pub open spec fn is_dot_at(t: Seq<u8>, i: int) -> bool {
    0 <= i < t.len() && t[i] == 46
}

pub open spec fn is_wild_at(t: Seq<u8>, i: int) -> bool {
    0 <= i < t.len() && (t[i] == 120 || t[i] == 88 || t[i] == 42)
}

/// `N.M.P` from `i` to the end of `t`.
pub open spec fn full_version(t: Seq<u8>, i: int) -> Option<(nat, nat, nat)> {
    match num_at(t, i) {
        Some((n, a)) => if !is_dot_at(t, a) {
            None
        } else {
            match num_at(t, a + 1) {
                Some((m, c)) => if !is_dot_at(t, c) {
                    None
                } else {
                    match num_at(t, c + 1) {
                        Some((p, e)) => if e == t.len() {
                            Some((n, m, p))
                        } else {
                            None
                        },
                        None => None,
                    }
                },
                None => None,
            }
        },
        None => None,
    }
}

/// `N.M` or `N.M.P` from `i` to the end of `t`; a missing patch is zero.
pub open spec fn partial_version(t: Seq<u8>, i: int) -> Option<(nat, nat, nat)> {
    match num_at(t, i) {
        Some((n, a)) => if !is_dot_at(t, a) {
            None
        } else {
            match num_at(t, a + 1) {
                Some((m, c)) => if c == t.len() {
                    Some((n, m, 0))
                } else {
                    match full_version(t, i) {
                        Some(v) => Some(v),
                        None => None,
                    }
                },
                None => None,
            }
        },
        None => None,
    }
}

/// `N.M.P` as text.
pub open spec fn ver(n: nat, m: nat, p: nat) -> Seq<u8> {
    dec_bytes(n) + seq![46u8] + dec_bytes(m) + seq![46u8] + dec_bytes(p)
}

pub open spec fn ge(v: Seq<u8>) -> Seq<u8> {
    seq![62u8, 61u8] + v
}

pub open spec fn lt(v: Seq<u8>) -> Seq<u8> {
    seq![60u8] + v
}

pub open spec fn le(v: Seq<u8>) -> Seq<u8> {
    seq![60u8, 61u8] + v
}

/// The upper bound of a caret range: the next change of the left-most
/// non-zero component.
pub open spec fn caret_upper(n: nat, m: nat, p: nat) -> Seq<u8> {
    if n > 0 {
        ver(n + 1, 0, 0)
    } else if m > 0 {
        ver(0, m + 1, 0)
    } else {
        ver(0, 0, p + 1)
    }
}

/// Length of a leading comparison operator of `t`.
pub open spec fn op_len(t: Seq<u8>) -> int {
    if t.len() >= 2 && (t[0] == 62 || t[0] == 60) && t[1] == 61 {
        2
    } else if t.len() >= 1 && (t[0] == 62 || t[0] == 60 || t[0] == 61) {
        1
    } else {
        0
    }
}

pub open spec fn all_ascii(t: Seq<u8>) -> bool {
    forall|i: int| 0 <= i < t.len() ==> t[i] < 128
}

/// A plain comparator: an optional operator, then a full `N.M.P` version.
pub open spec fn plain_comparator(t: Seq<u8>) -> bool {
    op_len(t) < t.len() && is_digit(t[op_len(t)]) && all_ascii(t) && full_version(t, op_len(t)) is Some
}

pub open spec fn rewrite_caret(t: Seq<u8>) -> Option<Seq<Seq<u8>>> {
    match full_version(t, 1) {
        Some((n, m, p)) => Some(seq![ge(ver(n, m, p)), lt(caret_upper(n, m, p))]),
        None => None,
    }
}

pub open spec fn rewrite_tilde(t: Seq<u8>) -> Option<Seq<Seq<u8>>> {
    match partial_version(t, 1) {
        Some((n, m, p)) => Some(seq![ge(ver(n, m, p)), lt(ver(n, m + 1, 0))]),
        None => None,
    }
}

/// A token kept as it is, if it is a comparator.
pub open spec fn keep(t: Seq<u8>) -> Option<Seq<Seq<u8>>> {
    if plain_comparator(t) {
        Some(seq![t])
    } else {
        None
    }
}

/// `N.x` and `N.M.x` (also with `X` or `*`), or a plain comparator.
pub open spec fn rewrite_other(t: Seq<u8>) -> Option<Seq<Seq<u8>>> {
    match num_at(t, 0) {
        Some((n, a)) => if is_dot_at(t, a) && is_wild_at(t, a + 1) && a + 2 == t.len() {
            Some(seq![ge(ver(n, 0, 0)), lt(ver(n + 1, 0, 0))])
        } else {
            match num_at(t, a + 1) {
                Some((m, c)) => if is_dot_at(t, a) && is_dot_at(t, c) && is_wild_at(t, c + 1) && c + 2
                    == t.len() {
                    Some(seq![ge(ver(n, m, 0)), lt(ver(n, m + 1, 0))])
                } else {
                    keep(t)
                },
                None => keep(t),
            }
        },
        None => keep(t),
    }
}

/// The canonical comparators that one token stands for, or none where it is
/// not a range expression.
pub open spec fn rewrite(t: Seq<u8>) -> Option<Seq<Seq<u8>>> {
    if t.len() > 0 && t[0] == 94 {
        rewrite_caret(t)
    } else if t.len() > 0 && t[0] == 126 {
        rewrite_tilde(t)
    } else {
        rewrite_other(t)
    }
}

/// Rewrites tokens from `i` on after those already rewritten into `acc`.
pub open spec fn rewrite_from(ts: Seq<Seq<u8>>, i: int, acc: Seq<Seq<u8>>) -> Option<Seq<Seq<u8>>>
    decreases ts.len() - i,
{
    if i < 0 || i >= ts.len() {
        Some(acc)
    } else {
        match rewrite(ts[i]) {
            Some(cs) => rewrite_from(ts, i + 1, acc + cs),
            None => None,
        }
    }
}

/// The comparators joined by `, `.
pub open spec fn join_from(cs: Seq<Seq<u8>>, i: int, acc: Seq<u8>) -> Seq<u8>
    decreases cs.len() - i,
{
    if i < 0 || i >= cs.len() {
        acc
    } else if i == 0 {
        join_from(cs, i + 1, acc + cs[i])
    } else {
        join_from(cs, i + 1, acc + seq![44u8, 32u8] + cs[i])
    }
}

/// The canonical form of a range, as bytes; the input itself where it is not
/// a range expression.
pub open spec fn canon(b: Seq<u8>) -> Seq<u8> {
    let ms = merge_from(tokens(b), 0, seq![]);
    if ms.len() == 0 || ms == seq![seq![42u8]] {
        seq![42u8]
    } else if ms.len() == 3 && ms[1] == seq![45u8] && plain_comparator(ms[0]) && plain_comparator(ms[2]) {
        join_from(seq![ge(ms[0]), le(ms[2])], 0, seq![])
    } else {
        match rewrite_from(ms, 0, seq![]) {
            Some(cs) => join_from(cs, 0, seq![]),
            None => b,
        }
    }
}

pub open spec fn vv(v: Seq<Vec<u8>>) -> Seq<Seq<u8>> {
    v.map_values(|x: Vec<u8>| x@)
}

fn tokenize(b: &[u8]) -> (r: Vec<Vec<u8>>)
    ensures
        vv(r@) == tokens(b@),
{
    let mut acc: Vec<Vec<u8>> = Vec::new();
    let mut cur: Vec<u8> = Vec::new();
    let mut i: usize = 0;
    assert(vv(acc@) =~= Seq::<Seq<u8>>::empty());
    assert(cur@ =~= Seq::<u8>::empty());
    while i < b.len()
        invariant
            i <= b@.len(),
            tokens(b@) == tokens_from(b@, i as int, cur@, vv(acc@)),
        decreases b@.len() - i,
    {
        let c = b[i];
        if c == 32 || c == 9 || c == 10 || c == 13 || c == 44 {
            if cur.len() > 0 {
                let ghost a = acc@;
                let ghost cc = cur@;
                acc.push(cur);
                assert(vv(acc@) =~= vv(a).push(cc));
            }
            cur = Vec::new();
            assert(cur@ =~= Seq::<u8>::empty());
        } else {
            cur.push(c);
        }
        i = i + 1;
    }
    if cur.len() > 0 {
        let ghost a = acc@;
        let ghost cc = cur@;
        acc.push(cur);
        assert(vv(acc@) =~= vv(a).push(cc));
    }
    acc
}

fn bytes_is(t: &Vec<u8>, w: &[u8]) -> (r: bool)
    ensures
        r == (t@ == w@),
{
    crate::order::bytes_eq(t.as_slice(), w)
}

fn is_op_exec(t: &Vec<u8>) -> (r: bool)
    ensures
        r == is_op(t@),
{
    let a: [u8; 2] = [62, 61];
    let b: [u8; 2] = [60, 61];
    let c: [u8; 1] = [62];
    let d: [u8; 1] = [60];
    let e: [u8; 1] = [61];
    let r = bytes_is(t, a.as_slice()) || bytes_is(t, b.as_slice()) || bytes_is(t, c.as_slice()) || bytes_is(
        t,
        d.as_slice(),
    ) || bytes_is(t, e.as_slice());
    assert(a@ =~= seq![62u8, 61u8]);
    assert(b@ =~= seq![60u8, 61u8]);
    assert(c@ =~= seq![62u8]);
    assert(d@ =~= seq![60u8]);
    assert(e@ =~= seq![61u8]);
    r
}

fn copy_bytes(t: &Vec<u8>) -> (r: Vec<u8>)
    ensures
        r@ == t@,
{
    let mut r: Vec<u8> = Vec::new();
    r.extend_from_slice(t.as_slice());
    assert(r@ =~= t@);
    r
}

fn merge_ops(ts: &Vec<Vec<u8>>) -> (r: Vec<Vec<u8>>)
    ensures
        vv(r@) == merge_from(vv(ts@), 0, seq![]),
{
    let mut acc: Vec<Vec<u8>> = Vec::new();
    let mut i: usize = 0;
    assert(vv(acc@) =~= Seq::<Seq<u8>>::empty());
    while i < ts.len()
        invariant
            i <= ts@.len(),
            merge_from(vv(ts@), 0, seq![]) == merge_from(vv(ts@), i as int, vv(acc@)),
        decreases ts@.len() - i,
    {
        let ghost a = acc@;
        if is_op_exec(&ts[i]) && i + 1 < ts.len() {
            let mut joined = copy_bytes(&ts[i]);
            joined.extend_from_slice(ts[i + 1].as_slice());
            assert(joined@ =~= ts@[i as int]@ + ts@[i + 1]@);
            acc.push(joined);
            assert(vv(acc@) =~= vv(a).push(vv(ts@)[i as int] + vv(ts@)[i + 1]));
            i = i + 2;
        } else {
            let t = copy_bytes(&ts[i]);
            acc.push(t);
            assert(vv(acc@) =~= vv(a).push(vv(ts@)[i as int]));
            i = i + 1;
        }
    }
    acc
}

fn num_at_exec(t: &Vec<u8>, i: usize) -> (r: Option<(u64, usize)>)
    ensures
        match num_at(t@, i as int) {
            Some((v, j)) => r matches Some((rv, rj)) && rv == v && rj == j,
            None => r is None,
        },
        r matches Some((rv, rj)) ==> rv < COMPONENT_BOUND && i < rj <= t@.len(),
{
    let mut j: usize = i;
    let mut acc: u64 = 0;
    let mut over = false;
    if i > t.len() {
        return None;
    }
    while j < t.len() && t[j] >= 48 && t[j] <= 57
        invariant
            i <= j <= t@.len(),
            digits_end(t@, i as int) == digits_end(t@, j as int),
            over ==> digits_value(t@, i as int, j as int) >= COMPONENT_BOUND,
            !over ==> acc == digits_value(t@, i as int, j as int) && acc < COMPONENT_BOUND,
        decreases t@.len() - j,
    {
        let d = (t[j] - 48) as u64;
        proof {
            let v = digits_value(t@, i as int, j as int);
            assert(digits_value(t@, i as int, j + 1) == v * 10 + d);
            if over {
                assert(v * 10 + d >= COMPONENT_BOUND) by (nonlinear_arith)
                    requires
                        v >= COMPONENT_BOUND,
                        d >= 0,
                ;
            }
        }
        if !over {
            let nv = acc * 10 + d;
            if nv >= COMPONENT_BOUND {
                over = true;
            } else {
                acc = nv;
            }
        }
        j = j + 1;
    }
    if j == i || over {
        None
    } else {
        Some((acc, j))
    }
}

fn is_dot_exec(t: &Vec<u8>, i: usize) -> (r: bool)
    ensures
        r == is_dot_at(t@, i as int),
        t@.len() <= usize::MAX,
{
    i < t.len() && t[i] == 46
}

fn is_wild_exec(t: &Vec<u8>, i: usize) -> (r: bool)
    ensures
        r == is_wild_at(t@, i as int),
        t@.len() <= usize::MAX,
{
    i < t.len() && (t[i] == 120 || t[i] == 88 || t[i] == 42)
}

fn full_version_exec(t: &Vec<u8>, i: usize) -> (r: Option<(u64, u64, u64)>)
    ensures
        match full_version(t@, i as int) {
            Some((n, m, p)) => r == Some((n as u64, m as u64, p as u64)),
            None => r is None,
        },
        r matches Some((n, m, p)) ==> n < COMPONENT_BOUND && m < COMPONENT_BOUND && p < COMPONENT_BOUND,
{
    let (n, a) = match num_at_exec(t, i) {
        Some(x) => x,
        None => return None,
    };
    if !is_dot_exec(t, a) {
        return None;
    }
    let (m, c) = match num_at_exec(t, a + 1) {
        Some(x) => x,
        None => return None,
    };
    if !is_dot_exec(t, c) {
        return None;
    }
    let (p, e) = match num_at_exec(t, c + 1) {
        Some(x) => x,
        None => return None,
    };
    if e == t.len() {
        Some((n, m, p))
    } else {
        None
    }
}

fn partial_version_exec(t: &Vec<u8>, i: usize) -> (r: Option<(u64, u64, u64)>)
    ensures
        match partial_version(t@, i as int) {
            Some((n, m, p)) => r == Some((n as u64, m as u64, p as u64)),
            None => r is None,
        },
        r matches Some((n, m, p)) ==> n < COMPONENT_BOUND && m < COMPONENT_BOUND && p < COMPONENT_BOUND,
{
    let (n, a) = match num_at_exec(t, i) {
        Some(x) => x,
        None => return None,
    };
    if !is_dot_exec(t, a) {
        return None;
    }
    let (m, c) = match num_at_exec(t, a + 1) {
        Some(x) => x,
        None => return None,
    };
    if c == t.len() {
        Some((n, m, 0))
    } else {
        full_version_exec(t, i)
    }
}

fn ver_exec(prefix: &[u8], n: u64, m: u64, p: u64) -> (r: Vec<u8>)
    requires
        all_ascii(prefix@),
    ensures
        r@ == prefix@ + ver(n as nat, m as nat, p as nat),
        all_ascii(r@),
{
    let mut out: Vec<u8> = Vec::new();
    out.extend_from_slice(prefix);
    assert(out@ =~= prefix@);
    write_dec(&mut out, n);
    out.push(46u8);
    write_dec(&mut out, m);
    out.push(46u8);
    write_dec(&mut out, p);
    assert(out@ =~= prefix@ + ver(n as nat, m as nat, p as nat));
    out
}

fn all_ascii_exec(t: &Vec<u8>) -> (r: bool)
    ensures
        r == all_ascii(t@),
{
    let mut i: usize = 0;
    while i < t.len()
        invariant
            i <= t@.len(),
            forall|j: int| 0 <= j < i ==> t@[j] < 128,
        decreases t@.len() - i,
    {
        if t[i] >= 128 {
            return false;
        }
        i = i + 1;
    }
    true
}

fn op_len_exec(t: &Vec<u8>) -> (r: usize)
    ensures
        r == op_len(t@),
{
    if t.len() >= 2 && (t[0] == 62 || t[0] == 60) && t[1] == 61 {
        2
    } else if t.len() >= 1 && (t[0] == 62 || t[0] == 60 || t[0] == 61) {
        1
    } else {
        0
    }
}

fn plain_comparator_exec(t: &Vec<u8>) -> (r: bool)
    ensures
        r == plain_comparator(t@),
{
    let k = op_len_exec(t);
    k < t.len() && t[k] >= 48 && t[k] <= 57 && all_ascii_exec(t) && full_version_exec(t, k).is_some()
}

pub open spec fn all_ascii_tokens(cs: Seq<Seq<u8>>) -> bool {
    forall|i: int| 0 <= i < cs.len() ==> all_ascii(#[trigger] cs[i])
}

fn caret_exec(t: &Vec<u8>) -> (r: Option<Vec<Vec<u8>>>)
    ensures
        match rewrite_caret(t@) {
            Some(cs) => r matches Some(v) && vv(v@) == cs && all_ascii_tokens(cs),
            None => r is None,
        },
{
    let ge_op: [u8; 2] = [62, 61];
    let lt_op: [u8; 1] = [60];
    assert(ge_op@ =~= seq![62u8, 61u8]);
    assert(lt_op@ =~= seq![60u8]);
    match full_version_exec(t, 1) {
        Some((n, m, p)) => {
            let lo = ver_exec(ge_op.as_slice(), n, m, p);
            let hi = if n > 0 {
                ver_exec(lt_op.as_slice(), n + 1, 0, 0)
            } else if m > 0 {
                ver_exec(lt_op.as_slice(), 0, m + 1, 0)
            } else {
                ver_exec(lt_op.as_slice(), 0, 0, p + 1)
            };
            let r = vec![lo, hi];
            assert(vv(r@) =~= seq![ge(ver(n as nat, m as nat, p as nat)), lt(caret_upper(n as nat, m as nat, p as nat))]);
            Some(r)
        },
        None => None,
    }
}

fn tilde_exec(t: &Vec<u8>) -> (r: Option<Vec<Vec<u8>>>)
    ensures
        match rewrite_tilde(t@) {
            Some(cs) => r matches Some(v) && vv(v@) == cs && all_ascii_tokens(cs),
            None => r is None,
        },
{
    let ge_op: [u8; 2] = [62, 61];
    let lt_op: [u8; 1] = [60];
    assert(ge_op@ =~= seq![62u8, 61u8]);
    assert(lt_op@ =~= seq![60u8]);
    match partial_version_exec(t, 1) {
        Some((n, m, p)) => {
            let lo = ver_exec(ge_op.as_slice(), n, m, p);
            let hi = ver_exec(lt_op.as_slice(), n, m + 1, 0);
            let r = vec![lo, hi];
            assert(vv(r@) =~= seq![ge(ver(n as nat, m as nat, p as nat)), lt(ver(n as nat, m as nat + 1, 0))]);
            Some(r)
        },
        None => None,
    }
}

fn keep_exec(t: &Vec<u8>) -> (r: Option<Vec<Vec<u8>>>)
    ensures
        match keep(t@) {
            Some(cs) => r matches Some(v) && vv(v@) == cs && all_ascii_tokens(cs),
            None => r is None,
        },
{
    if plain_comparator_exec(t) {
        let r = vec![copy_bytes(t)];
        assert(vv(r@) =~= seq![t@]);
        Some(r)
    } else {
        None
    }
}

fn other_exec(t: &Vec<u8>) -> (r: Option<Vec<Vec<u8>>>)
    ensures
        match rewrite_other(t@) {
            Some(cs) => r matches Some(v) && vv(v@) == cs && all_ascii_tokens(cs),
            None => r is None,
        },
{
    let ge_op: [u8; 2] = [62, 61];
    let lt_op: [u8; 1] = [60];
    assert(ge_op@ =~= seq![62u8, 61u8]);
    assert(lt_op@ =~= seq![60u8]);
    match num_at_exec(t, 0) {
        Some((n, a)) => {
            if is_dot_exec(t, a) && is_wild_exec(t, a + 1) && a + 2 == t.len() {
                let lo = ver_exec(ge_op.as_slice(), n, 0, 0);
                let hi = ver_exec(lt_op.as_slice(), n + 1, 0, 0);
                let r = vec![lo, hi];
                assert(vv(r@) =~= seq![ge(ver(n as nat, 0, 0)), lt(ver(n as nat + 1, 0, 0))]);
                return Some(r);
            }
            if a >= t.len() {
                proof {
                    assert(digits_end(t@, a + 1) == a + 1);
                }
                return keep_exec(t);
            }
            match num_at_exec(t, a + 1) {
                Some((m, c)) => {
                    if is_dot_exec(t, a) && is_dot_exec(t, c) && is_wild_exec(t, c + 1) && c + 2 == t.len() {
                        let lo = ver_exec(ge_op.as_slice(), n, m, 0);
                        let hi = ver_exec(lt_op.as_slice(), n, m + 1, 0);
                        let r = vec![lo, hi];
                        assert(vv(r@) =~= seq![ge(ver(n as nat, m as nat, 0)), lt(ver(n as nat, m as nat + 1, 0))]);
                        Some(r)
                    } else {
                        keep_exec(t)
                    }
                },
                None => keep_exec(t),
            }
        },
        None => keep_exec(t),
    }
}

fn rewrite_exec(t: &Vec<u8>) -> (r: Option<Vec<Vec<u8>>>)
    ensures
        match rewrite(t@) {
            Some(cs) => r matches Some(v) && vv(v@) == cs && all_ascii_tokens(cs),
            None => r is None,
        },
{
    if t.len() > 0 && t[0] == 94 {
        caret_exec(t)
    } else if t.len() > 0 && t[0] == 126 {
        tilde_exec(t)
    } else {
        other_exec(t)
    }
}

fn rewrite_all(ms: &Vec<Vec<u8>>) -> (r: Option<Vec<Vec<u8>>>)
    ensures
        match rewrite_from(vv(ms@), 0, seq![]) {
            Some(cs) => r matches Some(v) && vv(v@) == cs && all_ascii_tokens(cs),
            None => r is None,
        },
{
    let mut acc: Vec<Vec<u8>> = Vec::new();
    let mut i: usize = 0;
    assert(vv(acc@) =~= Seq::<Seq<u8>>::empty());
    while i < ms.len()
        invariant
            i <= ms@.len(),
            rewrite_from(vv(ms@), 0, seq![]) == rewrite_from(vv(ms@), i as int, vv(acc@)),
            all_ascii_tokens(vv(acc@)),
        decreases ms@.len() - i,
    {
        match rewrite_exec(&ms[i]) {
            Some(mut v) => {
                let ghost a = acc@;
                let ghost w = v@;
                acc.append(&mut v);
                assert(vv(acc@) =~= vv(a) + vv(w));
            },
            None => return None,
        }
        i = i + 1;
    }
    Some(acc)
}

fn join(cs: &Vec<Vec<u8>>) -> (r: Vec<u8>)
    requires
        all_ascii_tokens(vv(cs@)),
    ensures
        r@ == join_from(vv(cs@), 0, seq![]),
        all_ascii(r@),
{
    let mut out: Vec<u8> = Vec::new();
    let mut i: usize = 0;
    assert(out@ =~= Seq::<u8>::empty());
    while i < cs.len()
        invariant
            i <= cs@.len(),
            all_ascii_tokens(vv(cs@)),
            join_from(vv(cs@), 0, seq![]) == join_from(vv(cs@), i as int, out@),
            all_ascii(out@),
        decreases cs@.len() - i,
    {
        let ghost o = out@;
        if i > 0 {
            out.push(44u8);
            out.push(32u8);
        }
        out.extend_from_slice(cs[i].as_slice());
        proof {
            assert(all_ascii(vv(cs@)[i as int]));
            if i > 0 {
                assert(out@ =~= o + seq![44u8, 32u8] + vv(cs@)[i as int]);
            } else {
                assert(out@ =~= o + vv(cs@)[i as int]);
            }
        }
        i = i + 1;
    }
    out
}

fn prefixed(op: &[u8], t: &Vec<u8>) -> (r: Vec<u8>)
    ensures
        r@ == op@ + t@,
{
    let mut out: Vec<u8> = Vec::new();
    out.extend_from_slice(op);
    out.extend_from_slice(t.as_slice());
    assert(out@ =~= op@ + t@);
    out
}

/// Brings a range expression into canonical form: comparators joined by `, `,
/// with wildcards, hyphen ranges, caret and tilde ranges spelled out as bounds
/// and operators joined to their versions. An empty range and `*` become `*`;
/// anything that is not a range expression comes back unchanged.
pub fn canonicalize_npm_range(range: &str) -> (r: String)
    ensures
        r@ == decode_utf8(canon(range.spec_bytes())),
{
    let b = range.as_bytes();
    let ts = tokenize(b);
    let ms = merge_ops(&ts);
    let star: [u8; 1] = [42];
    let dash: [u8; 1] = [45];
    assert(star@ =~= seq![42u8]);
    assert(dash@ =~= seq![45u8]);
    if ms.len() == 0 || (ms.len() == 1 && bytes_is(&ms[0], star.as_slice())) {
        let s = "*";
        proof {
            reveal_strlit("*");
            vstd::string::is_ascii_spec_bytes(s);
            assert(s.spec_bytes() =~= seq![42u8]);
            vstd::utf8::encode_utf8_decode_utf8(s@);
            if ms@.len() == 1 {
                assert(vv(ms@) =~= seq![seq![42u8]]);
            }
        }
        return s.to_owned();
    }
    proof {
        assert(vv(ms@) != seq![seq![42u8]]) by {
            if vv(ms@) == seq![seq![42u8]] {
                assert(vv(ms@)[0] == seq![42u8]);
            }
        }
    }
    let out: Vec<u8>;
    if ms.len() == 3 && bytes_is(&ms[1], dash.as_slice()) && plain_comparator_exec(&ms[0]) && plain_comparator_exec(&ms[2]) {
        let ge_op: [u8; 2] = [62, 61];
        let le_op: [u8; 2] = [60, 61];
        assert(ge_op@ =~= seq![62u8, 61u8]);
        assert(le_op@ =~= seq![60u8, 61u8]);
        let cs = vec![prefixed(ge_op.as_slice(), &ms[0]), prefixed(le_op.as_slice(), &ms[2])];
        assert(vv(cs@) =~= seq![ge(vv(ms@)[0]), le(vv(ms@)[2])]);
        out = join(&cs);
    } else {
        match rewrite_all(&ms) {
            Some(cs) => {
                out = join(&cs);
            },
            None => {
                proof {
                    vstd::utf8::encode_utf8_decode_utf8(range@);
                }
                return range.to_owned();
            },
        }
    }
    proof {
        lemma_ascii_valid(out@);
    }
    let r = string_of_bytes(&out);
    proof {
        vstd::utf8::encode_utf8_decode_utf8(r@);
    }
    r
}

pub open spec fn no_sep(t: Seq<u8>) -> bool {
    forall|i: int| 0 <= i < t.len() ==> !is_sep(#[trigger] t[i])
}

pub open spec fn good_tokens(ts: Seq<Seq<u8>>) -> bool {
    forall|k: int| 0 <= k < ts.len() ==> (#[trigger] ts[k]).len() > 0 && no_sep(ts[k])
}

/// A comparator that a second pass leaves alone, or that makes it give up.
pub open spec fn stable(c: Seq<u8>) -> bool {
    c.len() > 0 && no_sep(c) && !is_op(c) && c != seq![42u8] && c != seq![45u8] && (rewrite(c) is None
        || rewrite(c) == Some(seq![c]))
}

pub open spec fn all_stable(cs: Seq<Seq<u8>>) -> bool {
    forall|k: int| 0 <= k < cs.len() ==> stable(#[trigger] cs[k])
}

proof fn lemma_tokens_good(b: Seq<u8>, i: int, cur: Seq<u8>, acc: Seq<Seq<u8>>)
    requires
        0 <= i,
        no_sep(cur),
        good_tokens(acc),
    ensures
        good_tokens(tokens_from(b, i, cur, acc)),
    decreases b.len() - i,
{
    if i < b.len() {
        if is_sep(b[i]) {
            let a2 = if cur.len() > 0 { acc.push(cur) } else { acc };
            assert(good_tokens(a2)) by {
                assert forall|k: int| 0 <= k < a2.len() implies (#[trigger] a2[k]).len() > 0 && no_sep(a2[k]) by {
                    if k < acc.len() {
                        assert(a2[k] == acc[k]);
                    }
                }
            }
            lemma_tokens_good(b, i + 1, seq![], a2);
        } else {
            let c2 = cur.push(b[i]);
            assert(no_sep(c2)) by {
                assert forall|j: int| 0 <= j < c2.len() implies !is_sep(#[trigger] c2[j]) by {
                    if j < cur.len() {
                        assert(c2[j] == cur[j]);
                    }
                }
            }
            lemma_tokens_good(b, i + 1, c2, acc);
        }
    } else if cur.len() > 0 {
        assert forall|k: int| 0 <= k < acc.push(cur).len() implies (#[trigger] acc.push(cur)[k]).len() > 0 && no_sep(
            acc.push(cur)[k],
        ) by {
            if k < acc.len() {
                assert(acc.push(cur)[k] == acc[k]);
            }
        }
    }
}

proof fn lemma_merge_good(ts: Seq<Seq<u8>>, i: int, acc: Seq<Seq<u8>>)
    requires
        0 <= i,
        good_tokens(ts),
        good_tokens(acc),
    ensures
        good_tokens(merge_from(ts, i, acc)),
    decreases ts.len() - i,
{
    if i < ts.len() {
        let x = if is_op(ts[i]) && i + 1 < ts.len() { ts[i] + ts[i + 1] } else { ts[i] };
        let j = if is_op(ts[i]) && i + 1 < ts.len() { i + 2 } else { i + 1 };
        assert(x.len() > 0 && no_sep(x)) by {
            if is_op(ts[i]) && i + 1 < ts.len() {
                assert(no_sep(ts[i]) && no_sep(ts[i + 1]));
                assert forall|q: int| 0 <= q < x.len() implies !is_sep(#[trigger] x[q]) by {
                    if q < ts[i].len() {
                        assert(x[q] == ts[i][q]);
                    } else {
                        assert(x[q] == ts[i + 1][q - ts[i].len()]);
                    }
                }
            }
        }
        assert(good_tokens(acc.push(x))) by {
            assert forall|k: int| 0 <= k < acc.push(x).len() implies (#[trigger] acc.push(x)[k]).len() > 0 && no_sep(
                acc.push(x)[k],
            ) by {
                if k < acc.len() {
                    assert(acc.push(x)[k] == acc[k]);
                }
            }
        }
        lemma_merge_good(ts, j, acc.push(x));
    }
}

proof fn lemma_dec_digits(n: nat)
    ensures
        dec_bytes(n).len() > 0,
        forall|i: int| 0 <= i < dec_bytes(n).len() ==> is_digit(#[trigger] dec_bytes(n)[i]),
    decreases n,
{
    if n >= 10 {
        lemma_dec_digits(n / 10);
        let d = dec_bytes(n / 10);
        assert forall|i: int| 0 <= i < dec_bytes(n).len() implies is_digit(#[trigger] dec_bytes(n)[i]) by {
            if i < d.len() {
                assert(dec_bytes(n)[i] == d[i]);
            }
        }
    }
}

proof fn lemma_ver_shape(n: nat, m: nat, p: nat)
    ensures
        ver(n, m, p).len() > 0,
        is_digit(ver(n, m, p)[0]),
        no_sep(ver(n, m, p)),
{
    lemma_dec_digits(n);
    lemma_dec_digits(m);
    lemma_dec_digits(p);
    let v = ver(n, m, p);
    let a = dec_bytes(n);
    let b = dec_bytes(m);
    let c = dec_bytes(p);
    assert(v[0] == a[0]);
    assert forall|i: int| 0 <= i < v.len() implies !is_sep(#[trigger] v[i]) by {
        if i < a.len() {
            assert(v[i] == a[i]);
        } else if i == a.len() {
        } else if i < a.len() + 1 + b.len() {
            assert(v[i] == b[i - a.len() - 1]);
        } else if i == a.len() + 1 + b.len() {
        } else {
            assert(v[i] == c[i - a.len() - 2 - b.len()]);
        }
    }
}

/// A token that starts with `>` or `<` is kept as it is, or refused.
proof fn lemma_op_token_stable(c: Seq<u8>)
    requires
        c.len() >= 3 || (c.len() == 2 && c[0] == 60 && is_digit(c[1])),
        c[0] == 62 || c[0] == 60,
        no_sep(c),
    ensures
        stable(c),
{
    assert(digits_end(c, 0) == 0);
    assert(num_at(c, 0) is None);
    if c.len() == 2 {
        assert(c != seq![60u8, 61u8]);
        assert(c != seq![62u8, 61u8]);
    }
    assert(!is_op(c)) by {
        if c.len() >= 3 {
            assert(seq![62u8, 61u8].len() == 2);
        }
    }
    assert(c != seq![42u8]) by {
        assert(seq![42u8][0] == 42);
    }
    assert(c != seq![45u8]) by {
        assert(seq![45u8][0] == 45);
    }
}

proof fn lemma_prefixed_no_sep(op: Seq<u8>, v: Seq<u8>)
    requires
        no_sep(v),
        forall|i: int| 0 <= i < op.len() ==> op[i] == 62 || op[i] == 60 || op[i] == 61,
    ensures
        no_sep(op + v),
{
    assert forall|i: int| 0 <= i < (op + v).len() implies !is_sep(#[trigger] (op + v)[i]) by {
        if i < op.len() {
            assert((op + v)[i] == op[i]);
        } else {
            assert((op + v)[i] == v[i - op.len()]);
        }
    }
}

proof fn lemma_bounds_stable(lo: Seq<u8>, hi: Seq<u8>)
    requires
        lo.len() > 0 && is_digit(lo[0]) && no_sep(lo),
        hi.len() > 0 && is_digit(hi[0]) && no_sep(hi),
    ensures
        all_stable(seq![ge(lo), lt(hi)]),
{
    lemma_prefixed_no_sep(seq![62u8, 61u8], lo);
    lemma_prefixed_no_sep(seq![60u8], hi);
    lemma_op_token_stable(ge(lo));
    assert(lt(hi)[1] == hi[0]);
    lemma_op_token_stable(lt(hi));
    let cs = seq![ge(lo), lt(hi)];
    assert forall|k: int| 0 <= k < cs.len() implies stable(#[trigger] cs[k]) by {
        if k == 0 {
            assert(cs[0] == ge(lo));
        } else {
            assert(cs[1] == lt(hi));
        }
    }
}

proof fn lemma_rewrite_stable(t: Seq<u8>)
    requires
        t.len() > 0,
        no_sep(t),
    ensures
        rewrite(t) matches Some(cs) ==> all_stable(cs) && cs.len() > 0,
{
    if let Some(cs) = rewrite(t) {
        if cs == seq![t] {
            assert(plain_comparator(t) || rewrite(t) == Some(seq![t]));
            assert(stable(t)) by {
                if is_op(t) {
                    assert(op_len(t) == t.len());
                }
                if t == seq![42u8] || t == seq![45u8] {
                    assert(op_len(t) == 0);
                }
            }
            assert(cs[0] == t);
        } else if t[0] == 94 {
            let (n, m, p) = full_version(t, 1)->0;
            lemma_ver_shape(n, m, p);
            if n > 0 {
                lemma_ver_shape(n + 1, 0, 0);
            } else if m > 0 {
                lemma_ver_shape(0, m + 1, 0);
            } else {
                lemma_ver_shape(0, 0, p + 1);
            }
            lemma_bounds_stable(ver(n, m, p), caret_upper(n, m, p));
        } else if t[0] == 126 {
            let (n, m, p) = partial_version(t, 1)->0;
            lemma_ver_shape(n, m, p);
            lemma_ver_shape(n, m + 1, 0);
            lemma_bounds_stable(ver(n, m, p), ver(n, m + 1, 0));
        } else {
            let (n, a) = num_at(t, 0)->0;
            if is_dot_at(t, a) && is_wild_at(t, a + 1) && a + 2 == t.len() {
                lemma_ver_shape(n, 0, 0);
                lemma_ver_shape(n + 1, 0, 0);
                lemma_bounds_stable(ver(n, 0, 0), ver(n + 1, 0, 0));
            } else {
                let (m, c) = num_at(t, a + 1)->0;
                lemma_ver_shape(n, m, 0);
                lemma_ver_shape(n, m + 1, 0);
                lemma_bounds_stable(ver(n, m, 0), ver(n, m + 1, 0));
            }
        }
    }
}

proof fn lemma_rewrite_from_stable(ms: Seq<Seq<u8>>, i: int, acc: Seq<Seq<u8>>)
    requires
        0 <= i,
        good_tokens(ms),
        all_stable(acc),
    ensures
        rewrite_from(ms, i, acc) matches Some(cs) ==> all_stable(cs) && (i < ms.len() ==> cs.len() > acc.len()),
    decreases ms.len() - i,
{
    if i < ms.len() {
        lemma_rewrite_stable(ms[i]);
        if let Some(x) = rewrite(ms[i]) {
            assert(all_stable(acc + x)) by {
                assert forall|k: int| 0 <= k < (acc + x).len() implies stable(#[trigger] (acc + x)[k]) by {
                    if k < acc.len() {
                        assert((acc + x)[k] == acc[k]);
                    } else {
                        assert((acc + x)[k] == x[k - acc.len()]);
                    }
                }
            }
            lemma_rewrite_from_stable(ms, i + 1, acc + x);
        }
    }
}

proof fn lemma_scan(b: Seq<u8>, i: int, t: Seq<u8>, cur: Seq<u8>, acc: Seq<Seq<u8>>)
    requires
        0 <= i,
        i + t.len() <= b.len(),
        b.subrange(i, i + t.len()) == t,
        no_sep(t),
    ensures
        tokens_from(b, i, cur, acc) == tokens_from(b, i + t.len(), cur + t, acc),
    decreases t.len(),
{
    if t.len() == 0 {
        assert(cur + t =~= cur);
    } else {
        assert(b[i] == t[0]) by {
            assert(b.subrange(i, i + t.len())[0] == b[i]);
        }
        assert(!is_sep(t[0]));
        assert(b.subrange(i + 1, i + 1 + t.drop_first().len()) =~= t.drop_first()) by {
            assert forall|q: int| 0 <= q < t.drop_first().len() implies b.subrange(i + 1, i + 1 + t.drop_first().len())[q]
                == t.drop_first()[q] by {
                assert(b.subrange(i, i + t.len())[q + 1] == b[i + 1 + q]);
            }
        }
        assert(no_sep(t.drop_first())) by {
            assert forall|q: int| 0 <= q < t.drop_first().len() implies !is_sep(#[trigger] t.drop_first()[q]) by {
                assert(t.drop_first()[q] == t[q + 1]);
            }
        }
        lemma_scan(b, i + 1, t.drop_first(), cur.push(t[0]), acc);
        assert(cur.push(t[0]) + t.drop_first() =~= cur + t);
    }
}

proof fn lemma_join_split(cs: Seq<Seq<u8>>, i: int, acc: Seq<u8>)
    requires
        0 <= i,
    ensures
        join_from(cs, i, acc) == acc + join_from(cs, i, seq![]),
    decreases cs.len() - i,
{
    if i < cs.len() {
        let piece = if i == 0 { cs[i] } else { seq![44u8, 32u8] + cs[i] };
        if i == 0 {
            lemma_join_split(cs, i + 1, acc + cs[i]);
            lemma_join_split(cs, i + 1, Seq::<u8>::empty() + cs[i]);
            assert(acc + cs[i] + join_from(cs, i + 1, seq![]) =~= acc + ((Seq::<u8>::empty() + cs[i]) + join_from(cs, i + 1, seq![])));
        } else {
            lemma_join_split(cs, i + 1, acc + seq![44u8, 32u8] + cs[i]);
            lemma_join_split(cs, i + 1, Seq::<u8>::empty() + seq![44u8, 32u8] + cs[i]);
            assert(acc + seq![44u8, 32u8] + cs[i] + join_from(cs, i + 1, seq![]) =~= acc + ((Seq::<u8>::empty()
                + seq![44u8, 32u8] + cs[i]) + join_from(cs, i + 1, seq![])));
        }
    } else {
        assert(acc + Seq::<u8>::empty() =~= acc);
    }
}

proof fn lemma_tok_join(b: Seq<u8>, p: int, cs: Seq<Seq<u8>>, i: int, cur: Seq<u8>, acc: Seq<Seq<u8>>)
    requires
        1 <= i <= cs.len(),
        0 <= p <= b.len(),
        b.subrange(p, b.len() as int) == join_from(cs, i, seq![]),
        cur.len() > 0,
        good_tokens(cs),
    ensures
        tokens_from(b, p, cur, acc) == acc.push(cur) + cs.subrange(i, cs.len() as int),
    decreases cs.len() - i,
{
    if i == cs.len() {
        assert(b.subrange(p, b.len() as int).len() == 0);
        assert(acc.push(cur) + cs.subrange(i, cs.len() as int) =~= acc.push(cur));
    } else {
        let rest = join_from(cs, i + 1, seq![]);
        lemma_join_split(cs, i + 1, Seq::<u8>::empty() + seq![44u8, 32u8] + cs[i]);
        let whole = seq![44u8, 32u8] + cs[i] + rest;
        assert(join_from(cs, i, seq![]) =~= whole);
        assert(b[p] == 44) by {
            assert(b.subrange(p, b.len() as int)[0] == b[p]);
        }
        assert(b[p + 1] == 32) by {
            assert(b.subrange(p, b.len() as int)[1] == b[p + 1]);
        }
        assert(tokens_from(b, p, cur, acc) == tokens_from(b, p + 1, seq![], acc.push(cur)));
        assert(tokens_from(b, p + 1, seq![], acc.push(cur)) == tokens_from(b, p + 2, seq![], acc.push(cur)));
        let t = cs[i];
        assert(b.subrange(p + 2, p + 2 + t.len()) =~= t) by {
            assert forall|q: int| 0 <= q < t.len() implies b.subrange(p + 2, p + 2 + t.len())[q] == t[q] by {
                assert(b.subrange(p, b.len() as int)[q + 2] == b[p + 2 + q]);
                assert(whole[q + 2] == t[q]);
            }
        }
        lemma_scan(b, p + 2, t, seq![], acc.push(cur));
        assert(Seq::<u8>::empty() + t =~= t);
        assert(b.subrange(p + 2 + t.len(), b.len() as int) =~= rest) by {
            assert forall|q: int| 0 <= q < rest.len() implies b.subrange(p + 2 + t.len(), b.len() as int)[q] == rest[q] by {
                assert(b.subrange(p, b.len() as int)[q + 2 + t.len()] == b[p + 2 + t.len() + q]);
                assert(whole[q + 2 + t.len()] == rest[q]);
            }
        }
        lemma_tok_join(b, p + 2 + t.len(), cs, i + 1, t, acc.push(cur));
        assert(acc.push(cur).push(t) + cs.subrange(i + 1, cs.len() as int) =~= acc.push(cur) + cs.subrange(
            i,
            cs.len() as int,
        ));
    }
}

proof fn lemma_tokens_of_join(cs: Seq<Seq<u8>>)
    requires
        cs.len() > 0,
        good_tokens(cs),
    ensures
        tokens(join_from(cs, 0, seq![])) == cs,
{
    let b = join_from(cs, 0, seq![]);
    let rest = join_from(cs, 1, seq![]);
    lemma_join_split(cs, 1, Seq::<u8>::empty() + cs[0]);
    assert(b =~= cs[0] + rest);
    assert(b.subrange(0, cs[0].len() as int) =~= cs[0]);
    lemma_scan(b, 0, cs[0], seq![], seq![]);
    assert(Seq::<u8>::empty() + cs[0] =~= cs[0]);
    assert(b.subrange(cs[0].len() as int, b.len() as int) =~= rest);
    lemma_tok_join(b, cs[0].len() as int, cs, 1, cs[0], seq![]);
    assert(Seq::<Seq<u8>>::empty().push(cs[0]) + cs.subrange(1, cs.len() as int) =~= cs);
}

proof fn lemma_merge_identity(cs: Seq<Seq<u8>>, i: int, acc: Seq<Seq<u8>>)
    requires
        0 <= i <= cs.len(),
        all_stable(cs),
    ensures
        merge_from(cs, i, acc) == acc + cs.subrange(i, cs.len() as int),
    decreases cs.len() - i,
{
    if i < cs.len() {
        assert(stable(cs[i]));
        lemma_merge_identity(cs, i + 1, acc.push(cs[i]));
        assert(acc.push(cs[i]) + cs.subrange(i + 1, cs.len() as int) =~= acc + cs.subrange(i, cs.len() as int));
    } else {
        assert(acc + cs.subrange(i, cs.len() as int) =~= acc);
    }
}

proof fn lemma_rewrite_identity(cs: Seq<Seq<u8>>, i: int, acc: Seq<Seq<u8>>)
    requires
        0 <= i <= cs.len(),
        all_stable(cs),
    ensures
        rewrite_from(cs, i, acc) is None || rewrite_from(cs, i, acc) == Some(acc + cs.subrange(i, cs.len() as int)),
    decreases cs.len() - i,
{
    if i < cs.len() {
        assert(stable(cs[i]));
        if rewrite(cs[i]) is Some {
            lemma_rewrite_identity(cs, i + 1, acc + seq![cs[i]]);
            assert(acc + seq![cs[i]] + cs.subrange(i + 1, cs.len() as int) =~= acc + cs.subrange(i, cs.len() as int));
        }
    } else {
        assert(acc + cs.subrange(i, cs.len() as int) =~= acc);
    }
}

proof fn lemma_canon_of_join(cs: Seq<Seq<u8>>)
    requires
        cs.len() > 0,
        all_stable(cs),
    ensures
        canon(join_from(cs, 0, seq![])) == join_from(cs, 0, seq![]),
{
    assert(good_tokens(cs)) by {
        assert forall|k: int| 0 <= k < cs.len() implies (#[trigger] cs[k]).len() > 0 && no_sep(cs[k]) by {
            assert(stable(cs[k]));
        }
    }
    lemma_tokens_of_join(cs);
    lemma_merge_identity(cs, 0, seq![]);
    assert(Seq::<Seq<u8>>::empty() + cs.subrange(0, cs.len() as int) =~= cs);
    assert(stable(cs[0]));
    assert(cs != seq![seq![42u8]]) by {
        if cs == seq![seq![42u8]] {
            assert(cs[0] == seq![42u8]);
        }
    }
    if cs.len() == 3 {
        assert(stable(cs[1]));
    }
    lemma_rewrite_identity(cs, 0, seq![]);
}

/// Canonicalizing twice gives what canonicalizing once gives.
pub proof fn lemma_canon_idempotent(b: Seq<u8>)
    ensures
        canon(canon(b)) == canon(b),
{
    let ms = merge_from(tokens(b), 0, seq![]);
    lemma_tokens_good(b, 0, seq![], seq![]);
    lemma_merge_good(tokens(b), 0, seq![]);
    if ms.len() == 0 || ms == seq![seq![42u8]] {
        let star = seq![42u8];
        assert(!is_sep(star[0]));
        assert(tokens_from(star, 1, star, seq![]) == seq![star]) by {
            assert(seq![42u8] =~= Seq::<u8>::empty().push(42u8));
        }
        assert(tokens(star) == seq![star]) by {
            assert(Seq::<u8>::empty().push(star[0]) =~= star);
        }
        assert(!is_op(star)) by {
            assert(star.len() == 1 && star[0] == 42);
        }
        assert(merge_from(seq![star], 1, seq![star]) == seq![star]);
        assert(Seq::<Seq<u8>>::empty().push(star) =~= seq![star]);
    } else if ms.len() == 3 && ms[1] == seq![45u8] && plain_comparator(ms[0]) && plain_comparator(ms[2]) {
        let lo = ge(ms[0]);
        let hi = le(ms[2]);
        lemma_prefixed_no_sep(seq![62u8, 61u8], ms[0]);
        lemma_prefixed_no_sep(seq![60u8, 61u8], ms[2]);
        lemma_op_token_stable(lo);
        lemma_op_token_stable(hi);
        let cs = seq![lo, hi];
        assert(all_stable(cs)) by {
            assert forall|k: int| 0 <= k < cs.len() implies stable(#[trigger] cs[k]) by {
                if k == 0 {
                    assert(cs[0] == lo);
                } else {
                    assert(cs[1] == hi);
                }
            }
        }
        lemma_canon_of_join(cs);
    } else {
        lemma_rewrite_from_stable(ms, 0, seq![]);
        if let Some(cs) = rewrite_from(ms, 0, seq![]) {
            lemma_canon_of_join(cs);
        }
    }
}

} // verus!
