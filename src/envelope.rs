//! The versioned v0 envelope: version, kind id, compact body.

use vstd::prelude::*;
use crate::compact::{compact_bytes, compact_bytes_n, compact_accepts, decode_compact, encode_compact, CompactError};
use crate::entity::{Entity, EntityKind, EntityView, fits};
use crate::schema::Schema;
use crate::varint::{varint, varint_at, write_varint, read_varint, lemma_varint_at, lemma_varint_at_inv};

verus! {

/// Why bytes are not a v0 envelope.
#[derive(Clone, Copy, Debug, PartialEq, Eq, Structural)]
pub enum EnvelopeError {
    /// The bytes end before the version or kind id is complete.
    Truncated,
    /// The version is not 0.
    UnsupportedVersion,
    /// No kind of the schema has the kind id.
    UnknownKind,
    /// The body is not the compact encoding of an instance of the kind.
    Body(CompactError),
}

/// The v0 envelope of an entity: the varint of the version (0), the varint
/// of its kind's id, then its compact encoding.
pub open spec fn envelope_bytes(schema: Schema, e: EntityView) -> Seq<u8> {
    varint(0) + varint(schema.kinds@[e.kind as int].id as nat) + compact_bytes(e)
}

/// A v0 envelope of an entity whose body writes the empty repeated fields
/// marked in `nulls` as null.
pub open spec fn envelope_bytes_n(schema: Schema, e: EntityView, nulls: Seq<bool>) -> Seq<u8> {
    varint(0) + varint(schema.kinds@[e.kind as int].id as nat) + compact_bytes_n(e, nulls)
}

/// `b` is a v0 envelope of `e`.
pub open spec fn envelope_accepts(schema: Schema, b: Seq<u8>, e: EntityView, nulls: Seq<bool>) -> bool {
    fits(schema, e) && nulls.len() == e.values.len() && envelope_bytes_n(schema, e, nulls) == b
}

impl EntityKind {
    /// The kind with the given numeric id.
    pub fn from_id(schema: &Schema, id: u64) -> (r: Option<EntityKind>)
        ensures
            match r {
                Some(k) => k.valid(*schema) && schema.kinds@[k.index as int].id == id,
                None => forall|j: int| 0 <= j < schema.kinds@.len() ==> schema.kinds@[j].id != id,
            },
    {
        let mut i: usize = 0;
        while i < schema.kinds.len()
            invariant
                i <= schema.kinds@.len(),
                forall|j: int| 0 <= j < i ==> schema.kinds@[j].id != id,
            decreases schema.kinds@.len() - i,
        {
            if schema.kinds[i].id == id {
                return Some(EntityKind { index: i });
            }
            i = i + 1;
        }
        None
    }
}

/// Writes the v0 envelope of an entity.
pub fn serialize_v0(schema: &Schema, e: &Entity) -> (r: Vec<u8>)
    requires
        fits(*schema, e@),
        e.values@.len() < u64::MAX,
    ensures
        r@ == envelope_bytes(*schema, e@),
{
    let mut out: Vec<u8> = Vec::new();
    write_varint(&mut out, 0);
    write_varint(&mut out, schema.kinds[e.kind].id);
    let body = encode_compact(e);
    let mut i: usize = 0;
    let ghost mid = out@;
    while i < body.len()
        invariant
            i <= body@.len(),
            out@ == mid + body@.subrange(0, i as int),
        decreases body@.len() - i,
    {
        out.push(body[i]);
        assert(body@.subrange(0, i + 1) =~= body@.subrange(0, i as int).push(body@[i as int]));
        i = i + 1;
    }
    assert(body@.subrange(0, body@.len() as int) =~= body@);
    assert(out@ =~= envelope_bytes(*schema, e@));
    out
}

/// Reads a v0 envelope. A version other than 0 is refused before anything
/// after it is read; otherwise it succeeds exactly on the envelopes of
/// instances of the schema's kinds, and gives the instance back. The
/// varints are read in their shortest form only: a padded varint, which a
/// lenient LEB128 reader would take, is refused here.
pub fn deserialize_v0(schema: &Schema, b: &Vec<u8>) -> (r: Result<Entity, EnvelopeError>)
    requires
        schema.wf(),
        forall|k: int| 0 <= k < schema.kinds@.len() ==> #[trigger] schema.kinds@[k].fields@.len() < u64::MAX,
    ensures
        varint_at(b@, 0) is None ==> r == Err::<Entity, EnvelopeError>(EnvelopeError::Truncated),
        varint_at(b@, 0) matches Some((v, _)) && v != 0 ==> r == Err::<Entity, EnvelopeError>(
            EnvelopeError::UnsupportedVersion,
        ),
        varint_at(b@, 0) matches Some((v, p1)) && v == 0 && varint_at(b@, p1 as int) is None
            ==> r == Err::<Entity, EnvelopeError>(EnvelopeError::Truncated),
        varint_at(b@, 0) matches Some((v, p1)) && v == 0 && (varint_at(b@, p1 as int) matches Some((id, _))
            && forall|j: int| 0 <= j < schema.kinds@.len() ==> #[trigger] schema.kinds@[j].id != id)
            ==> r == Err::<Entity, EnvelopeError>(EnvelopeError::UnknownKind),
        r matches Ok(d) ==> exists|nulls: Seq<bool>| #[trigger] envelope_accepts(*schema, b@, d@, nulls),
        forall|e: EntityView, nulls: Seq<bool>| #[trigger] envelope_accepts(*schema, b@, e, nulls) ==> (r matches Ok(d) && d@ == e),
{
    let len = b.len();
    let (version, p1) = match read_varint(b, 0) {
        Some(x) => x,
        None => {
            proof {
                assert forall|e: EntityView, nulls: Seq<bool>| #[trigger] envelope_accepts(*schema, b@, e, nulls) implies false by {
                    assert(b@.subrange(0, varint(0).len() as int) =~= varint(0));
                    lemma_varint_at(b@, 0, 0);
                }
            }
            return Err(EnvelopeError::Truncated);
        },
    };
    if version != 0 {
        proof {
            assert forall|e: EntityView, nulls: Seq<bool>| #[trigger] envelope_accepts(*schema, b@, e, nulls) implies false by {
                assert(b@.subrange(0, varint(0).len() as int) =~= varint(0));
                lemma_varint_at(b@, 0, 0);
            }
        }
        return Err(EnvelopeError::UnsupportedVersion);
    }
    proof {
        lemma_varint_at_inv(b@, 0);
    }
    let (kind_id, p2) = match read_varint(b, p1) {
        Some(x) => x,
        None => {
            proof {
                assert forall|e: EntityView, nulls: Seq<bool>| #[trigger] envelope_accepts(*schema, b@, e, nulls) implies false by {
                    let id = schema.kinds@[e.kind as int].id;
                    let n0 = varint(0).len() as int;
                    assert(b@.subrange(0, n0) =~= varint(0));
                    lemma_varint_at(b@, 0, 0);
                    assert(b@.subrange(n0, n0 + varint(id as nat).len()) =~= varint(id as nat));
                    lemma_varint_at(b@, n0, id);
                }
            }
            return Err(EnvelopeError::Truncated);
        },
    };
    proof {
        lemma_varint_at_inv(b@, p1 as int);
        assert forall|e: EntityView, nulls: Seq<bool>| #[trigger] envelope_accepts(*schema, b@, e, nulls) implies schema.kinds@[e.kind as int].id == kind_id && b@.subrange(p2 as int, len as int) == compact_bytes_n(e, nulls) by {
            let id = schema.kinds@[e.kind as int].id;
            let n0 = varint(0).len() as int;
            assert(b@.subrange(0, n0) =~= varint(0));
            lemma_varint_at(b@, 0, 0);
            assert(b@.subrange(n0, n0 + varint(id as nat).len()) =~= varint(id as nat));
            lemma_varint_at(b@, n0, id);
            assert(b@.subrange(p2 as int, len as int) =~= compact_bytes_n(e, nulls));
        }
    }
    let kind = match EntityKind::from_id(schema, kind_id) {
        Some(k) => k,
        None => {
            return Err(EnvelopeError::UnknownKind);
        },
    };
    proof {
        assert forall|e: EntityView, nulls: Seq<bool>| #[trigger] envelope_accepts(*schema, b@, e, nulls) implies e.kind == kind.index by {
            if e.kind < kind.index {
                assert(schema.kinds@[e.kind as int].id < schema.kinds@[kind.index as int].id);
            } else if e.kind > kind.index {
                assert(schema.kinds@[kind.index as int].id < schema.kinds@[e.kind as int].id);
            }
        }
    }
    let mut body: Vec<u8> = Vec::new();
    let mut i: usize = p2;
    while i < len
        invariant
            p2 <= i <= len,
            len == b@.len(),
            body@ == b@.subrange(p2 as int, i as int),
        decreases len - i,
    {
        body.push(b[i]);
        assert(b@.subrange(p2 as int, i + 1) =~= b@.subrange(p2 as int, i as int).push(b@[i as int]));
        i = i + 1;
    }
    let res = decode_compact(schema, kind.index, &body);
    proof {
        assert forall|e: EntityView, nulls: Seq<bool>| #[trigger] envelope_accepts(*schema, b@, e, nulls) implies compact_accepts(*schema, kind.index as nat, body@, e, nulls) by {
        }
    }
    match res {
        Ok(d) => {
            proof {
                assert(b@.subrange(0, p1 as int) == varint(0));
                assert(b@ =~= b@.subrange(0, p1 as int) + b@.subrange(p1 as int, p2 as int) + b@.subrange(p2 as int, len as int));
            }
            let ghost nulls = choose|nulls: Seq<bool>| compact_accepts(*schema, kind.index as nat, body@, d@, nulls);
            let r: Result<Entity, EnvelopeError> = Ok(d);
            assert(r->Ok_0@ == d@);
            assert(envelope_accepts(*schema, b@, r->Ok_0@, nulls));
            r
        },
        Err(e) => Err(EnvelopeError::Body(e)),
    }
}

} // verus!
