//! A content-addressable data model for a small ontology, driven by a schema
//! table: records of every kind are encoded, decoded, canonicalized and hashed
//! by one generic implementation parameterized by the kind's field list.

pub mod text;
pub mod schema;
pub mod order;
pub mod entity;
pub mod varint;
pub mod hashing;
pub mod canonical;
pub mod cid;
pub mod cbor;
pub mod compact;
pub mod envelope;
pub mod abi;
pub mod hex;
pub mod web3;
pub mod laws;
pub mod assertion;
pub mod serializable;
