use vstd::prelude::*;

use crate::algorithm::{spec_digest_len, HashAlgorithm};
use vstd::string::StrSliceExecFns;
use vstd::string::StringExecFns;

verus! {

/// The bytes of the MD5 digest of the given input.
pub uninterp spec fn md5_digest(input: Seq<u8>) -> Seq<u8>;

/// The bytes of the SHA-1 digest of the given input.
pub uninterp spec fn sha1_digest(input: Seq<u8>) -> Seq<u8>;

/// The bytes of the SHA-256 digest of the given input.
pub uninterp spec fn sha256_digest(input: Seq<u8>) -> Seq<u8>;

/// The bytes of the SHA-512 digest of the given input.
pub uninterp spec fn sha512_digest(input: Seq<u8>) -> Seq<u8>;

/// Relies on `md5::Md5` of the `md-5` crate, through the `Digest` trait:
/// the digest depends on the input bytes alone and is 16 bytes long
/// (`OutputSize = U16`).
#[verifier::external_body]
fn md5_bytes(input: &[u8]) -> (r: Vec<u8>)
    ensures
        r@ == md5_digest(input@),
        r@.len() == 16,
{
    <md5::Md5 as md5::Digest>::digest(input).to_vec()
}

/// Relies on `sha1::Sha1`, through the `Digest` trait: the digest depends on
/// the input bytes alone and is 20 bytes long (`OutputSize = U20`).
#[verifier::external_body]
fn sha1_bytes(input: &[u8]) -> (r: Vec<u8>)
    ensures
        r@ == sha1_digest(input@),
        r@.len() == 20,
{
    <sha1::Sha1 as sha1::Digest>::digest(input).to_vec()
}

/// Relies on `sha2::Sha256`, through the `Digest` trait: the digest depends
/// on the input bytes alone and is 32 bytes long (`OutputSize = U32`).
#[verifier::external_body]
fn sha256_bytes(input: &[u8]) -> (r: Vec<u8>)
    ensures
        r@ == sha256_digest(input@),
        r@.len() == 32,
{
    <sha2::Sha256 as sha2::Digest>::digest(input).to_vec()
}

/// Relies on `sha2::Sha512`, through the `Digest` trait: the digest depends
/// on the input bytes alone and is 64 bytes long (`OutputSize = U64`).
#[verifier::external_body]
fn sha512_bytes(input: &[u8]) -> (r: Vec<u8>)
    ensures
        r@ == sha512_digest(input@),
        r@.len() == 64,
{
    <sha2::Sha512 as sha2::Digest>::digest(input).to_vec()
}

/// The lowercase hex character for one digit value.
pub open spec fn hex_digit(n: int) -> char
    recommends
        0 <= n < 16,
{
    if n < 10 {
        ((('0' as int) + n) as u8) as char
    } else {
        ((('a' as int) + (n - 10)) as u8) as char
    }
}

/// The lowercase hex rendering of a byte sequence: two digits per byte,
/// high digit first.
pub open spec fn hex_of(bytes: Seq<u8>) -> Seq<char>
    decreases bytes.len(),
{
    if bytes.len() == 0 {
        Seq::empty()
    } else {
        hex_of(bytes.drop_last()) + seq![
            hex_digit(bytes.last() as int / 16),
            hex_digit(bytes.last() as int % 16),
        ]
    }
}

proof fn lemma_hex_of_len(bytes: Seq<u8>)
    ensures
        hex_of(bytes).len() == 2 * bytes.len(),
    decreases bytes.len(),
{
    if bytes.len() > 0 {
        lemma_hex_of_len(bytes.drop_last());
    }
}

/// Renders bytes as a lowercase hex string, two digits per byte.
pub fn to_hex(bytes: &[u8]) -> (r: String)
    ensures
        r@ == hex_of(bytes@),
        r@.len() == 2 * bytes@.len(),
{
    let alphabet = "0123456789abcdef";
    proof {
        reveal_strlit("0123456789abcdef");
        assert(forall|n: int| 0 <= n < 16 ==> alphabet@[n] == hex_digit(n));
    }
    let mut r = String::new();
    let mut i: usize = 0;
    while i < bytes.len()
        invariant
            i <= bytes@.len(),
            r@ == hex_of(bytes@.take(i as int)),
            alphabet@.len() == 16,
            alphabet.is_ascii(),
            forall|n: int| 0 <= n < 16 ==> alphabet@[n] == hex_digit(n),
        decreases bytes@.len() - i,
    {
        let b = bytes[i];
        let hi = (b / 16) as usize;
        let lo = (b % 16) as usize;
        r.append(alphabet.substring_ascii(hi, hi + 1));
        r.append(alphabet.substring_ascii(lo, lo + 1));
        proof {
            assert(bytes@.take(i + 1 as int).drop_last() =~= bytes@.take(i as int));
            assert(bytes@.take(i + 1 as int).last() == b);
            assert(alphabet@.subrange(hi as int, hi as int + 1) =~= seq![
                hex_digit(b as int / 16),
            ]);
            assert(alphabet@.subrange(lo as int, lo as int + 1) =~= seq![
                hex_digit(b as int % 16),
            ]);
            assert(r@ =~= hex_of(bytes@.take(i + 1 as int)));
        }
        i = i + 1;
    }
    proof {
        assert(bytes@.take(i as int) =~= bytes@);
        lemma_hex_of_len(bytes@);
    }
    r
}

/// The digest bytes the selected algorithm assigns to the input.
pub open spec fn digest_bytes_of(alg: HashAlgorithm, input: Seq<u8>) -> Seq<u8> {
    match alg {
        HashAlgorithm::Md5 => md5_digest(input),
        HashAlgorithm::Sha1 => sha1_digest(input),
        HashAlgorithm::Sha256 => sha256_digest(input),
        HashAlgorithm::Sha512 => sha512_digest(input),
    }
}

/// The lowercase hex digest string the selected algorithm assigns to the
/// input: what one run records in the index for a file with these bytes.
pub open spec fn digest_of(alg: HashAlgorithm, input: Seq<u8>) -> Seq<char> {
    hex_of(digest_bytes_of(alg, input))
}

/// Computes the lowercase hex content digest of one file's bytes under the
/// selected algorithm.
pub fn compute_digest(alg: &HashAlgorithm, input: &[u8]) -> (r: String)
    ensures
        r@ == digest_of(*alg, input@),
        r@.len() == spec_digest_len(*alg),
{
    let bytes = match alg {
        HashAlgorithm::Md5 => md5_bytes(input),
        HashAlgorithm::Sha1 => sha1_bytes(input),
        HashAlgorithm::Sha256 => sha256_bytes(input),
        HashAlgorithm::Sha512 => sha512_bytes(input),
    };
    proof {
        lemma_hex_of_len(bytes@);
    }
    to_hex(bytes.as_slice())
}

} // verus!
