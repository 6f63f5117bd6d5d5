//! Trusted wrappers around the outside hashing, CID and multibase crates.

use vstd::prelude::*;
use crate::varint::varint;

verus! {

/// The Keccak-256 digest of a byte string.
pub uninterp spec fn keccak256_of(data: Seq<u8>) -> Seq<u8>;

/// The digest size of each hash code that `multihash` 0.8 knows.
pub open spec fn digest_size(code: u8) -> Option<nat> {
    if code == 0x11 {
        Some(20)
    } else if code == 0x12 || code == 0x16 || code == 0x1b || code == 0x41 {
        Some(32)
    } else if code == 0x13 || code == 0x14 || code == 0x1d || code == 0x40 {
        Some(64)
    } else if code == 0x15 || code == 0x1c {
        Some(48)
    } else if code == 0x17 || code == 0x1a {
        Some(28)
    } else {
        None
    }
}

/// A multihash as `multihash::decode` accepts it: a known hash code, then
/// any byte (the size, which is not checked), then exactly as many bytes as
/// that code's digest has.
pub open spec fn is_multihash(b: Seq<u8>) -> bool {
    b.len() > 0 && (digest_size(b[0]) matches Some(sz) && b.len() == sz + 2)
}

/// What `multibase::decode` makes of a string: its payload, or None where the
/// string is no multibase text.
pub uninterp spec fn multibase_payload(s: Seq<char>) -> Option<Seq<u8>>;

/// Relies on `multihash::encode` with `Hash::Keccak256` (multihash 0.8), which
/// writes the hash code 0x1b, the digest size 32 and then the 32-byte digest,
/// and supports that hash, so it always succeeds.
#[verifier::external_body]
pub(crate) fn keccak256_multihash(data: &Vec<u8>) -> (r: Option<Vec<u8>>)
    ensures
        r is Some,
        r matches Some(h) ==> h@ == seq![0x1bu8, 0x20u8] + keccak256_of(data@) && h@.len() == 34,
{
    multihash::encode(multihash::Hash::Keccak256, data).ok()
}

/// Relies on `multihash::decode` (multihash 0.8): it refuses an empty input
/// and a code that `Hash::from_code` does not know, and otherwise accepts
/// exactly the inputs whose length is the code's digest size plus two.
#[verifier::external_body]
pub(crate) fn multihash_valid(b: &[u8]) -> (r: bool)
    ensures
        r == is_multihash(b@),
{
    multihash::decode(b).is_ok()
}

/// Relies on `cid_fork_rlay::Cid::to_bytes` for a version 1 CID: the varint
/// of the version, the varint of the codec code, then the hash as it is.
#[verifier::external_body]
pub(crate) fn cid_v1_bytes(codec: u64, hash: &Vec<u8>) -> (r: Vec<u8>)
    ensures
        r@ == varint(1) + varint(codec as nat) + hash@,
{
    cid_fork_rlay::Cid::new(cid_fork_rlay::Codec::Unknown(codec), cid_fork_rlay::Version::V1, hash).to_bytes()
}

/// Relies on `multibase::decode`: the payload of a multibase string, which
/// depends on the string alone.
#[verifier::external_body]
pub(crate) fn multibase_decode(s: &str) -> (r: Option<Vec<u8>>)
    ensures
        match r {
            Some(b) => multibase_payload(s@) == Some(b@),
            None => multibase_payload(s@) is None,
        },
{
    multibase::decode(s).ok().map(|p| p.1)
}

} // verus!
