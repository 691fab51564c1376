use vstd::prelude::*;
use vstd::string::StringSliceAdditionalSpecFns;
use vstd::utf8::{decode_utf8, encode_utf8};
use crate::order::bytes_eq;
use crate::wire::{lemma_ascii_valid, string_of_bytes};

verus! {

broadcast use {vstd::utf8::encode_utf8_valid_utf8, vstd::utf8::encode_utf8_decode_utf8};

/// The SHA-512 digest of `b`.
pub uninterp spec fn sha512_of(b: Seq<u8>) -> Seq<u8>;

/// The standard (padded) base64 text of `b`.
pub uninterp spec fn base64_of(b: Seq<u8>) -> Seq<char>;

/// Relies on `sha2::Sha512::digest`: the SHA-512 digest of the input, 64 bytes.
#[verifier::external_body]
fn sha512(b: &[u8]) -> (r: Vec<u8>)
    ensures
        r@ == sha512_of(b@),
        r@.len() == 64,
{
    <sha2::Sha512 as sha2::Digest>::digest(b).to_vec()
}

/// Relies on `base64::engine::general_purpose::STANDARD.encode`: the padded
/// standard-alphabet base64 text of the input.
#[verifier::external_body]
fn base64_standard(b: &[u8]) -> (r: String)
    requires
        b@.len() <= 4096,
    ensures
        r@ == base64_of(b@),
{
    <base64::engine::GeneralPurpose as base64::Engine>::encode(&base64::engine::general_purpose::STANDARD, b)
}

/// The bytes `sha512-`.
pub open spec fn integrity_prefix() -> Seq<u8> {
    seq![115u8, 104u8, 97u8, 53u8, 49u8, 50u8, 45u8]
}

/// The integrity string of a tarball: `sha512-` and the base64 of the SHA-512
/// digest of its compressed bytes.
pub open spec fn integrity_of(tarball: Seq<u8>) -> Seq<char> {
    decode_utf8(integrity_prefix() + encode_utf8(base64_of(sha512_of(tarball))))
}

/// Computes the integrity string of a tarball.
pub fn compute_integrity(tarball: &[u8]) -> (r: String)
    ensures
        r@ == integrity_of(tarball@),
        encode_utf8(r@) == integrity_prefix() + encode_utf8(base64_of(sha512_of(tarball@))),
{
    let digest = sha512(tarball);
    let b64 = base64_standard(digest.as_slice());
    let mut out: Vec<u8> = Vec::new();
    out.push(115u8);
    out.push(104u8);
    out.push(97u8);
    out.push(53u8);
    out.push(49u8);
    out.push(50u8);
    out.push(45u8);
    out.extend_from_slice(b64.as_str().as_bytes());
    proof {
        assert(out@ =~= integrity_prefix() + encode_utf8(b64@));
        lemma_ascii_valid(integrity_prefix());
        vstd::utf8::valid_utf8_concat(integrity_prefix(), encode_utf8(b64@));
    }
    let r = string_of_bytes(&out);
    proof {
        assert(decode_utf8(encode_utf8(r@)) == r@);
    }
    r
}

/// Why a tarball was not taken into the cache.
#[derive(Clone, Copy, Debug, PartialEq, Eq, Structural)]
pub enum CacheError {
    /// The tarball's digest is not the expected one.
    IntegrityMismatch,
    /// The archive could not be decompressed or read.
    TarballMalformed,
    /// A filesystem operation failed.
    StoreIo,
}

impl CacheError {
    pub fn message(&self) -> (r: String)
        ensures
            *self == CacheError::IntegrityMismatch ==> r@ == "integrity mismatch"@,
            *self == CacheError::TarballMalformed ==> r@ == "malformed tarball"@,
            *self == CacheError::StoreIo ==> r@ == "store i/o failure"@,
    {
        match self {
            CacheError::IntegrityMismatch => "integrity mismatch".to_owned(),
            CacheError::TarballMalformed => "malformed tarball".to_owned(),
            CacheError::StoreIo => "store i/o failure".to_owned(),
        }
    }
}

/// The outcome of checking a tarball against an expected integrity: its own
/// integrity where none is expected or the expected one matches.
pub open spec fn check_outcome(computed: Seq<char>, expected: Option<Seq<char>>) -> Result<Seq<char>, CacheError> {
    match expected {
        Some(e) => if e == computed {
            Ok(computed)
        } else {
            Err(CacheError::IntegrityMismatch)
        },
        None => Ok(computed),
    }
}

/// Checks a computed integrity against the expected one, if any.
pub fn check_integrity(computed: &str, expected: Option<&str>) -> (r: Result<String, CacheError>)
    ensures
        match check_outcome(computed@, match expected {
            Some(e) => Some(e@),
            None => None,
        }) {
            Ok(s) => r matches Ok(rs) && rs@ == s,
            Err(err) => r == Err::<String, CacheError>(err),
        },
{
    match expected {
        Some(e) => {
            if bytes_eq(e.as_bytes(), computed.as_bytes()) {
                proof {
                    assert(decode_utf8(encode_utf8(e@)) == e@);
                    assert(decode_utf8(encode_utf8(computed@)) == computed@);
                }
                Ok(computed.to_owned())
            } else {
                Err(CacheError::IntegrityMismatch)
            }
        },
        None => Ok(computed.to_owned()),
    }
}

/// Verifies a tarball before it is unpacked: returns its integrity, or the
/// mismatch when an expected integrity is given and differs.
pub fn verify_tarball(tarball: &[u8], expected: Option<&str>) -> (r: Result<String, CacheError>)
    ensures
        match check_outcome(integrity_of(tarball@), match expected {
            Some(e) => Some(e@),
            None => None,
        }) {
            Ok(s) => r matches Ok(rs) && rs@ == s,
            Err(err) => r == Err::<String, CacheError>(err),
        },
{
    let computed = compute_integrity(tarball);
    check_integrity(computed.as_str(), expected)
}

/// A tarball checked against its own integrity gives the same result as one
/// checked against nothing: that integrity.
pub proof fn lemma_own_integrity_accepted(tarball: Seq<u8>)
    ensures
        check_outcome(integrity_of(tarball), Some(integrity_of(tarball))) == check_outcome(
            integrity_of(tarball),
            None,
        ),
        check_outcome(integrity_of(tarball), None) == Ok::<Seq<char>, CacheError>(integrity_of(tarball)),
{
}

} // verus!
