use vstd::prelude::*;

use crate::errors::ReconcileError;

verus! {

/// The content-hash algorithms a run can be configured with.
#[derive(Clone, Copy, PartialEq, Eq, Structural, Debug)]
pub enum HashAlgorithm {
    Md5,
    Sha1,
    Sha256,
    Sha512,
}

/// The algorithm a configuration name selects, if the name is recognized.
pub open spec fn algorithm_for_name(name: Seq<char>) -> Option<HashAlgorithm> {
    if name == "MD5"@ {
        Some(HashAlgorithm::Md5)
    } else if name == "SHA1"@ {
        Some(HashAlgorithm::Sha1)
    } else if name == "SHA256"@ {
        Some(HashAlgorithm::Sha256)
    } else if name == "SHA512"@ {
        Some(HashAlgorithm::Sha512)
    } else {
        None
    }
}

/// How many lowercase hex digits a digest under the algorithm has.
pub open spec fn spec_digest_len(alg: HashAlgorithm) -> nat {
    match alg {
        HashAlgorithm::Md5 => 32,
        HashAlgorithm::Sha1 => 40,
        HashAlgorithm::Sha256 => 64,
        HashAlgorithm::Sha512 => 128,
    }
}

impl HashAlgorithm {
    /// Parses a configured algorithm name; any unrecognized name is a
    /// configuration error, reported before any file content is looked at.
    pub fn from_name(name: &str) -> (r: Result<HashAlgorithm, ReconcileError>)
        ensures
            r == (match algorithm_for_name(name@) {
                Some(a) => Ok::<HashAlgorithm, ReconcileError>(a),
                None => Err::<HashAlgorithm, ReconcileError>(ReconcileError::UnknownAlgorithm),
            }),
    {
        let n = name.to_owned();
        if n == "MD5".to_owned() {
            Ok(HashAlgorithm::Md5)
        } else if n == "SHA1".to_owned() {
            Ok(HashAlgorithm::Sha1)
        } else if n == "SHA256".to_owned() {
            Ok(HashAlgorithm::Sha256)
        } else if n == "SHA512".to_owned() {
            Ok(HashAlgorithm::Sha512)
        } else {
            Err(ReconcileError::UnknownAlgorithm)
        }
    }

    /// The length, in hex digits, of every digest this algorithm produces.
    pub fn digest_len(&self) -> (n: usize)
        ensures
            n == spec_digest_len(*self),
    {
        match self {
            HashAlgorithm::Md5 => 32,
            HashAlgorithm::Sha1 => 40,
            HashAlgorithm::Sha256 => 64,
            HashAlgorithm::Sha512 => 128,
        }
    }
}

} // verus!
