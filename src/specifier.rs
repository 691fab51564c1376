use vstd::prelude::*;
use vstd::utf8::*;
use vstd::string::StringSliceAdditionalSpecFns;

verus! {

broadcast use {
    vstd::utf8::encode_utf8_decode_utf8,
    vstd::utf8::encode_utf8_valid_utf8,
    vstd::utf8::valid_utf8_split,
    vstd::utf8::is_char_boundary_iff_not_is_continuation_byte,
};

/// The byte `@`.
pub const AT_SIGN: u8 = 64;

/// Index of the first `@` in `b` at or after `i`.
pub open spec fn first_at_from(b: Seq<u8>, i: int) -> Option<int>
    decreases b.len() - i,
{
    if i < 0 || i >= b.len() {
        None
    } else if b[i] == AT_SIGN {
        Some(i)
    } else {
        first_at_from(b, i + 1)
    }
}

/// Where the search for the separating `@` starts: after a leading scope `@`.
pub open spec fn search_start(b: Seq<u8>) -> int {
    if b.len() > 0 && b[0] == AT_SIGN {
        1
    } else {
        0
    }
}

/// Position of the `@` that splits `name@range`, if there is one.
pub open spec fn split_point(b: Seq<u8>) -> Option<int> {
    first_at_from(b, search_start(b))
}

/// The name part of a specifier, as UTF-8 bytes.
pub open spec fn spec_name_bytes(b: Seq<u8>) -> Seq<u8> {
    match split_point(b) {
        Some(k) => b.take(k),
        None => b,
    }
}

/// The range part of a specifier, as UTF-8 bytes; `*` where none is given.
pub open spec fn spec_range_bytes(b: Seq<u8>) -> Seq<u8> {
    match split_point(b) {
        Some(k) => b.skip(k + 1),
        None => seq![42u8],
    }
}

proof fn lemma_first_at_from(b: Seq<u8>, i: int)
    requires
        0 <= i,
    ensures
        match first_at_from(b, i) {
            Some(k) => i <= k < b.len() && b[k] == AT_SIGN && forall|j: int|
                i <= j < k ==> b[j] != AT_SIGN,
            None => forall|j: int| i <= j < b.len() ==> b[j] != AT_SIGN,
        },
    decreases b.len() - i,
{
    if i < b.len() && b[i] != AT_SIGN {
        lemma_first_at_from(b, i + 1);
    }
}

fn find_at(b: &[u8], start: usize) -> (r: Option<usize>)
    requires
        start <= b@.len(),
    ensures
        match r {
            Some(k) => first_at_from(b@, start as int) == Some(k as int),
            None => first_at_from(b@, start as int) is None,
        },
{
    let mut i: usize = start;
    while i < b.len()
        invariant
            start <= i <= b@.len(),
            first_at_from(b@, start as int) == first_at_from(b@, i as int),
        decreases b@.len() - i,
    {
        if b[i] == AT_SIGN {
            return Some(i);
        }
        i = i + 1;
    }
    None
}

/// Splits a specifier `name@range` into its name and its range. A leading `@`
/// belongs to a scoped name; where no separating `@` follows, the range is `*`.
pub fn parse_spec(spec: &str) -> (r: (String, String))
    ensures
        r.0@ == decode_utf8(spec_name_bytes(spec.spec_bytes())),
        r.1@ == decode_utf8(spec_range_bytes(spec.spec_bytes())),
{
    let b = spec.as_bytes();
    proof {
        encode_utf8_valid_utf8(spec@);
    }
    let start: usize = if b.len() > 0 && b[0] == AT_SIGN { 1 } else { 0 };
    match find_at(b, start) {
        Some(k) => {
            proof {
                lemma_first_at_from(b@, start as int);
                assert(!is_continuation_byte(b@[k as int]));
                assert(is_char_boundary(spec.spec_bytes(), k as int));
            }
            let (name, rest) = spec.split_at(k);
            proof {
                assert(rest.spec_bytes() =~= b@.subrange(k as int, b@.len() as int));
                encode_utf8_valid_utf8(rest@);
                assert(rest.spec_bytes()[0] == AT_SIGN);
                assert(is_leading_byte_width_1(rest.spec_bytes()[0]));
                assert(length_of_first_scalar(rest.spec_bytes()) == 1);
                reveal_with_fuel(is_char_boundary, 2);
                assert(is_char_boundary(rest.spec_bytes(), 1));
            }
            let (_sep, range) = rest.split_at(1);
            proof {
                assert(name.spec_bytes() =~= b@.take(k as int));
                assert(range.spec_bytes() =~= b@.skip(k + 1));
                assert(decode_utf8(name.spec_bytes()) == name@);
                assert(decode_utf8(range.spec_bytes()) == range@);
            }
            (name.to_owned(), range.to_owned())
        },
        None => {
            let star = "*";
            proof {
                reveal_strlit("*");
                assert(star.spec_bytes() =~= seq![42u8]) by {
                    vstd::string::is_ascii_spec_bytes(star);
                }
                assert(decode_utf8(star.spec_bytes()) == star@);
                assert(decode_utf8(spec.spec_bytes()) == spec@);
            }
            (spec.to_owned(), star.to_owned())
        },
    }
}

/// Index of the first `/` in `b`, if any.
pub open spec fn first_slash(b: Seq<u8>) -> Option<int> {
    if exists|i: int| 0 <= i < b.len() && b[i] == 47u8 {
        Some(choose|i: int| 0 <= i < b.len() && b[i] == 47u8 && forall|j: int| 0 <= j < i ==> b[j] != 47u8)
    } else {
        None
    }
}

/// A tarball member's path without its leading segment (`package/`), as
/// UTF-8 bytes; empty where the path has a single segment.
pub open spec fn stripped_bytes(b: Seq<u8>) -> Seq<u8> {
    match first_slash(b) {
        Some(k) => b.skip(k + 1),
        None => seq![],
    }
}

/// Drops the leading segment of a tarball member's path.
pub fn strip_leading_segment(path: &str) -> (r: String)
    ensures
        r@ == decode_utf8(stripped_bytes(path.spec_bytes())),
{
    let b = path.as_bytes();
    proof {
        encode_utf8_valid_utf8(path@);
    }
    let mut i: usize = 0;
    while i < b.len() && b[i] != 47u8
        invariant
            i <= b@.len(),
            forall|j: int| 0 <= j < i ==> b@[j] != 47u8,
        decreases b@.len() - i,
    {
        i = i + 1;
    }
    if i == b.len() {
        proof {
            assert(first_slash(b@) is None);
            assert(decode_utf8(Seq::<u8>::empty()) =~= Seq::<char>::empty());
        }
        return String::new();
    }
    proof {
        assert(b@[i as int] == 47u8);
        let k = choose|k: int| 0 <= k < b@.len() && b@[k] == 47u8 && forall|j: int| 0 <= j < k ==> b@[j] != 47u8;
        assert(k == i) by {
            if k < i {
            } else if k > i {
                assert(b@[i as int] != 47u8);
            }
        }
        assert(!is_continuation_byte(b@[i as int]));
        assert(is_char_boundary(path.spec_bytes(), i as int));
    }
    let (_head, rest) = path.split_at(i);
    proof {
        assert(rest.spec_bytes() =~= b@.subrange(i as int, b@.len() as int));
        encode_utf8_valid_utf8(rest@);
        assert(rest.spec_bytes()[0] == 47u8);
        assert(is_leading_byte_width_1(rest.spec_bytes()[0]));
        assert(length_of_first_scalar(rest.spec_bytes()) == 1);
        reveal_with_fuel(is_char_boundary, 2);
        assert(is_char_boundary(rest.spec_bytes(), 1));
    }
    let (_sep, tail) = rest.split_at(1);
    proof {
        assert(tail.spec_bytes() =~= b@.skip(i + 1));
        assert(decode_utf8(tail.spec_bytes()) == tail@);
    }
    tail.to_owned()
}

} // verus!
