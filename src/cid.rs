//! Content identifiers: computing an entity's CID and reading foreign ones.

use vstd::prelude::*;
use crate::canonical::{canonical_bytes, encode_canonical};
use crate::entity::{Entity, EntityView, fits};
use crate::hashing::{keccak256_multihash, keccak256_of, cid_v1_bytes, multihash_valid, is_multihash, digest_size, multibase_decode, multibase_payload};
use crate::schema::Schema;
use crate::varint::{varint, read_varint, varint_at, lemma_varint_at};

verus! {

/// The version of a content identifier.
#[derive(Clone, Copy, Debug, PartialEq, Eq, Structural)]
pub enum CidVersion {
    V0,
    V1,
}

/// A content identifier: a codec code, a version and a multihash.
#[derive(Clone, Debug, PartialEq, Eq)]
pub struct Cid {
    pub codec: u64,
    pub version: CidVersion,
    pub hash: Vec<u8>,
}

/// Why bytes or a string are not a CID.
#[derive(Clone, Copy, Debug, PartialEq, Eq, Structural)]
pub enum CidError {
    UnknownCodec,
    ParsingError,
    InvalidCidVersion,
}

/// The binary form of a CID: a version 0 CID is its hash alone, a version 1
/// CID the varints of version and codec, then the hash.
pub open spec fn cid_bytes(codec: u64, version: CidVersion, hash: Seq<u8>) -> Seq<u8> {
    match version {
        CidVersion::V0 => hash,
        CidVersion::V1 => varint(1) + varint(codec as nat) + hash,
    }
}

/// The Keccak-256 multihash of a byte string.
pub open spec fn keccak_multihash(data: Seq<u8>) -> Seq<u8> {
    seq![0x1bu8, 0x20u8] + keccak256_of(data)
}

/// The binary CID of an entity: version 1, the codec prefix of its kind, and
/// the Keccak-256 multihash of its canonical encoding.
pub open spec fn entity_cid_bytes(schema: Schema, e: EntityView) -> Seq<u8> {
    cid_bytes(
        schema.kinds@[e.kind as int].cid_prefix,
        CidVersion::V1,
        keccak_multihash(canonical_bytes(e)),
    )
}

impl Cid {
    /// The binary form of this CID.
    pub fn to_bytes(&self) -> (r: Vec<u8>)
        ensures
            r@ == cid_bytes(self.codec, self.version, self.hash@),
    {
        match self.version {
            CidVersion::V0 => self.hash.clone(),
            CidVersion::V1 => cid_v1_bytes(self.codec, &self.hash),
        }
    }
}

impl Entity {
    /// The CID of this entity, computed over its canonical encoding as it
    /// stands: canonicalize first where repeated fields may be unordered.
    pub fn to_cid(&self, schema: &Schema) -> (r: Result<Cid, CidError>)
        requires
            fits(*schema, self@),
            self.values@.len() < 0x0fff_ffff_ffff_ffff,
        ensures
            r matches Ok(c) && c.codec == schema.kinds@[self.kind as int].cid_prefix
                && c.version == CidVersion::V1 && c.hash@ == keccak_multihash(canonical_bytes(self@))
                && c.hash@.len() == 34,
    {
        let encoded = encode_canonical(self);
        match keccak256_multihash(&encoded) {
            Some(hash) => Ok(Cid { codec: schema.kinds[self.kind].cid_prefix, version: CidVersion::V1, hash }),
            None => Err(CidError::ParsingError),
        }
    }

    /// The binary CID of this entity.
    pub fn to_bytes(&self, schema: &Schema) -> (r: Vec<u8>)
        requires
            fits(*schema, self@),
            self.values@.len() < 0x0fff_ffff_ffff_ffff,
        ensures
            r@ == entity_cid_bytes(*schema, self@),
    {
        match self.to_cid(schema) {
            Ok(c) => c.to_bytes(),
            Err(_) => Vec::new(),
        }
    }
}

/// What the binary form of a foreign CID reads as: the version and codec
/// varints, then the multihash that fills the rest. `permitted`, where
/// given, is the one codec accepted.
pub open spec fn parse_cid(b: Seq<u8>, permitted: Option<u64>) -> Result<(u64, CidVersion, Seq<u8>), CidError> {
    match varint_at(b, 0) {
        None => Err(CidError::ParsingError),
        Some((raw_version, p1)) => match varint_at(b, p1 as int) {
            None => Err(CidError::ParsingError),
            Some((raw_codec, p2)) => {
                if raw_version > 1 {
                    Err(CidError::InvalidCidVersion)
                } else if permitted matches Some(c) && raw_codec != c {
                    Err(CidError::UnknownCodec)
                } else if !is_multihash(b.subrange(p2 as int, b.len() as int)) {
                    Err(CidError::ParsingError)
                } else {
                    Ok((
                        raw_codec,
                        if raw_version == 0 {
                            CidVersion::V0
                        } else {
                            CidVersion::V1
                        },
                        b.subrange(p2 as int, b.len() as int),
                    ))
                }
            },
        },
    }
}

/// Reads the binary form of a CID of any codec, or of the `permitted` one.
/// Its varints are read in their shortest form only.
pub fn to_cid_unknown(b: &Vec<u8>, permitted: Option<u64>) -> (r: Result<Cid, CidError>)
    ensures
        match parse_cid(b@, permitted) {
            Ok((codec, version, hash)) => r matches Ok(c) && c.codec == codec && c.version == version && c.hash@ == hash,
            Err(e) => r == Err::<Cid, CidError>(e),
        },
{
    let (raw_version, p1) = match read_varint(b, 0) {
        Some(x) => x,
        None => {
            return Err(CidError::ParsingError);
        },
    };
    let (raw_codec, p2) = match read_varint(b, p1) {
        Some(x) => x,
        None => {
            return Err(CidError::ParsingError);
        },
    };
    if raw_version > 1 {
        return Err(CidError::InvalidCidVersion);
    }
    match permitted {
        Some(c) => {
            if raw_codec != c {
                return Err(CidError::UnknownCodec);
            }
        },
        None => {},
    }
    let mut hash: Vec<u8> = Vec::new();
    let mut i: usize = p2;
    while i < b.len()
        invariant
            p2 <= i <= b@.len(),
            hash@ == b@.subrange(p2 as int, i as int),
        decreases b@.len() - i,
    {
        hash.push(b[i]);
        assert(b@.subrange(p2 as int, i + 1) =~= b@.subrange(p2 as int, i as int).push(b@[i as int]));
        i = i + 1;
    }
    if !multihash_valid(hash.as_slice()) {
        return Err(CidError::ParsingError);
    }
    let version = if raw_version == 0 {
        CidVersion::V0
    } else {
        CidVersion::V1
    };
    Ok(Cid { codec: raw_codec, version, hash })
}

/// Reads a multibase string that holds the binary form of a CID.
pub fn string_to_cid_unknown(s: &str, permitted: Option<u64>) -> (r: Result<Cid, CidError>)
    ensures
        match multibase_payload(s@) {
            None => r == Err::<Cid, CidError>(CidError::ParsingError),
            Some(b) => match parse_cid(b, permitted) {
                Ok((codec, version, hash)) => r matches Ok(c) && c.codec == codec && c.version == version && c.hash@ == hash,
                Err(e) => r == Err::<Cid, CidError>(e),
            },
        },
{
    match multibase_decode(s) {
        Some(b) => to_cid_unknown(&b, permitted),
        None => Err(CidError::ParsingError),
    }
}

/// A version 1 CID with a Keccak-256 multihash, as `to_cid` makes, reads
/// back as itself, also where its codec is the one permitted.
pub proof fn lemma_cid_read_back(codec: u64, hash: Seq<u8>, permitted: Option<u64>)
    requires
        hash.len() == 34,
        hash[0] == 0x1b,
        permitted is None || permitted == Some(codec),
    ensures
        parse_cid(cid_bytes(codec, CidVersion::V1, hash), permitted) == Ok::<(u64, CidVersion, Seq<u8>), CidError>((codec, CidVersion::V1, hash)),
{
    let b = cid_bytes(codec, CidVersion::V1, hash);
    let n1 = varint(1).len() as int;
    let n2 = varint(codec as nat).len() as int;
    assert(b.subrange(0, n1) =~= varint(1));
    lemma_varint_at(b, 0, 1);
    assert(b.subrange(n1, n1 + n2) =~= varint(codec as nat));
    lemma_varint_at(b, n1, codec);
    crate::varint::lemma_parse_varint(codec, Seq::empty());
    assert(b.subrange(n1 + n2, b.len() as int) =~= hash);
    assert(varint_at(b, 0) == Some((1u64, n1 as usize)));
    assert(varint_at(b, n1) == Some((codec, (n1 + n2) as usize)));
    assert(digest_size(hash[0]) == Some(32nat));
    assert(is_multihash(hash));
}

} // verus!
