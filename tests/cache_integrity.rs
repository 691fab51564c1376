use base64::{engine::general_purpose::STANDARD, Engine as _};
use pacm::integrity::{compute_integrity, verify_tarball, CacheError};
use std::io::Cursor;
use std::path::Path;
use tar::Builder;

fn build_tarball(entries: &[(&str, &str)]) -> Vec<u8> {
    let encoder = flate2::write::GzEncoder::new(Vec::new(), flate2::Compression::default());
    let mut builder = Builder::new(encoder);
    for (path, contents) in entries {
        let mut header = tar::Header::new_gnu();
        header.set_path(path).expect("set tar path");
        header.set_size(contents.as_bytes().len() as u64);
        header.set_mode(0o644);
        header.set_cksum();
        builder
            .append_data(&mut header, Path::new(path), &mut Cursor::new(contents.as_bytes()))
            .expect("append tar data");
    }
    let encoder = builder.into_inner().expect("finish tar builder");
    encoder.finish().expect("finish gzip encoder")
}

#[test]
fn verified_integrity_is_stable() {
    let bytes = build_tarball(&[
        ("package/package.json", r#"{"name":"omega","version":"1.0.0"}"#),
        ("package/lib/index.js", "module.exports = 1;\n"),
    ]);
    let integrity = verify_tarball(&bytes, None).unwrap();
    assert!(integrity.starts_with("sha512-"));
    let again = verify_tarball(&bytes, Some(&integrity)).unwrap();
    assert_eq!(integrity, again);
}

#[test]
fn bad_integrity_is_rejected() {
    let bytes = build_tarball(&[("package/package.json", r#"{"name":"theta","version":"1.0.0"}"#)]);
    let bogus = format!("sha512-{}", STANDARD.encode([0u8; 64]));
    let err = verify_tarball(&bytes, Some(&bogus)).unwrap_err();
    assert_eq!(err, CacheError::IntegrityMismatch);
    assert!(err.message().contains("integrity mismatch"));
}

#[test]
fn integrity_of_empty_input() {
    // SHA-512 of the empty string, in base64.
    assert_eq!(
        compute_integrity(b""),
        "sha512-z4PhNX7vuL3xVChQ1m2AB9Yg5AULVxXcg/SpIdNs6c5H0NE8XYXysP+DGNKHfuwvY7kxvUdBeoGlODJ6+SfaPg=="
    );
}

#[test]
fn error_messages() {
    assert_eq!(CacheError::IntegrityMismatch.message(), "integrity mismatch");
    assert_eq!(CacheError::TarballMalformed.message(), "malformed tarball");
}
