use hash_dedup::algorithm::HashAlgorithm;
use hash_dedup::errors::ReconcileError;
use hash_dedup::hashing::{compute_digest, to_hex};

#[test]
fn md5_of_abc() {
    let d = compute_digest(&HashAlgorithm::Md5, b"abc");
    assert_eq!(d, "900150983cd24fb0d6963f7d28e17f72");
}

#[test]
fn md5_of_empty() {
    let d = compute_digest(&HashAlgorithm::Md5, b"");
    assert_eq!(d, "d41d8cd98f00b204e9800998ecf8427e");
}

#[test]
fn sha1_of_abc() {
    let d = compute_digest(&HashAlgorithm::Sha1, b"abc");
    assert_eq!(d, "a9993e364706816aba3e25717850c26c9cd0d89d");
}

#[test]
fn sha256_of_abc() {
    let d = compute_digest(&HashAlgorithm::Sha256, b"abc");
    assert_eq!(
        d,
        "ba7816bf8f01cfea414140de5dae2223b00361a396177a9cb410ff61f20015ad"
    );
}

#[test]
fn sha512_of_abc() {
    let d = compute_digest(&HashAlgorithm::Sha512, b"abc");
    assert_eq!(
        d,
        "ddaf35a193617abacc417349ae20413112e6fa4e89a97ea20a9eeee64b55d39a\
         2192992a274fc1a836ba3c23a3feebbd454d4423643ce80e2a9ac94fa54ca49f"
    );
}

#[test]
fn hex_rendering() {
    assert_eq!(to_hex(&[]), "");
    assert_eq!(to_hex(&[0u8, 15u8, 255u8, 161u8]), "000fffa1");
}

#[test]
fn digest_lengths() {
    assert_eq!(HashAlgorithm::Md5.digest_len(), 32);
    assert_eq!(HashAlgorithm::Sha1.digest_len(), 40);
    assert_eq!(HashAlgorithm::Sha256.digest_len(), 64);
    assert_eq!(HashAlgorithm::Sha512.digest_len(), 128);
    for alg in [
        HashAlgorithm::Md5,
        HashAlgorithm::Sha1,
        HashAlgorithm::Sha256,
        HashAlgorithm::Sha512,
    ] {
        let d = compute_digest(&alg, b"some content");
        assert_eq!(d.len(), alg.digest_len());
    }
}

#[test]
fn algorithm_names() {
    assert_eq!(HashAlgorithm::from_name("MD5"), Ok(HashAlgorithm::Md5));
    assert_eq!(HashAlgorithm::from_name("SHA1"), Ok(HashAlgorithm::Sha1));
    assert_eq!(HashAlgorithm::from_name("SHA256"), Ok(HashAlgorithm::Sha256));
    assert_eq!(HashAlgorithm::from_name("SHA512"), Ok(HashAlgorithm::Sha512));
}

#[test]
fn unknown_algorithm_name_is_rejected() {
    assert_eq!(
        HashAlgorithm::from_name("SHA3"),
        Err(ReconcileError::UnknownAlgorithm)
    );
    assert_eq!(
        HashAlgorithm::from_name("md5"),
        Err(ReconcileError::UnknownAlgorithm)
    );
    assert_eq!(
        HashAlgorithm::from_name(""),
        Err(ReconcileError::UnknownAlgorithm)
    );
}

#[test]
fn error_messages() {
    assert_eq!(
        ReconcileError::UnknownAlgorithm.message(),
        "unknown hash algorithm in configuration"
    );
    assert_eq!(
        ReconcileError::DuplicateDigest.message(),
        "persisted index holds a duplicate digest"
    );
    assert_eq!(
        ReconcileError::MissingIndexedFile.message(),
        "indexed file is missing from the scanned directory"
    );
}
