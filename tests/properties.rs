use rlay_ontology::abi::{from_abiv2, AbiDecodeError};
use rlay_ontology::cid::{string_to_cid_unknown, to_cid_unknown, CidError, CidVersion};
use rlay_ontology::serializable::{AnnotationMap, ClassMap};
use std::collections::BTreeMap;
use rlay_ontology::compact::{decode_compact, encode_compact, CompactError};
use rlay_ontology::entity::{Entity, EntityKind, FieldValue};
use rlay_ontology::envelope::{deserialize_v0, serialize_v0, EnvelopeError};
use rlay_ontology::schema::{build_files, Field, Intermediate, Kind, Schema, SchemaError};

fn field(name: &str, kind: &str, required: bool) -> Field {
    Field { name: name.to_string(), kind: kind.to_string(), required }
}

fn kind(name: &str, kind_id: u64, cid_prefix: u64, fields: Vec<Field>) -> Kind {
    Kind {
        name: name.to_string(),
        fields,
        expression_kind: None,
        kind_id,
        cid_prefix,
        cid_prefix_hex: format!("{:x}", cid_prefix),
    }
}

fn ontology() -> Schema {
    let intermediate = Intermediate {
        kinds: vec![
            kind(
                "Class",
                0,
                49152,
                vec![field("annotations", "Annotation[]", false), field("subClassOfClass", "Class[]", false)],
            ),
            kind(
                "Annotation",
                1,
                49153,
                vec![field("property", "AnnotationProperty", true), field("value", "Value", true)],
            ),
            kind(
                "DataPropertyAssertion",
                2,
                49154,
                vec![
                    field("annotations", "Annotation[]", false),
                    field("subject", "Individual", false),
                    field("property", "DataProperty", false),
                    field("target", "Value", false),
                ],
            ),
            kind(
                "ClassAssertion",
                3,
                49155,
                vec![
                    field("annotations", "Annotation[]", false),
                    field("subject", "Individual", false),
                    field("class", "Class", false),
                ],
            ),
            kind(
                "NegativeClassAssertion",
                4,
                49156,
                vec![
                    field("annotations", "Annotation[]", false),
                    field("subject", "Individual", false),
                    field("class", "Class", false),
                ],
            ),
        ],
    };
    build_files(&intermediate).unwrap()
}

fn empty(schema: &Schema, name: &str) -> Entity {
    EntityKind::from_name(schema, name).unwrap().empty_entity(schema)
}

fn word(n: u64) -> Vec<u8> {
    let mut w = vec![0u8; 24];
    w.extend_from_slice(&n.to_be_bytes());
    w
}

#[test]
fn compact_round_trip() {
    let schema = ontology();
    let mut ca = empty(&schema, "ClassAssertion");
    ca.values[0] = FieldValue::Repeated(vec![vec![1, 2], vec![], vec![3]]);
    ca.values[1] = FieldValue::Optional(Some(vec![9; 300]));
    let bytes = encode_compact(&ca);
    assert_eq!(decode_compact(&schema, ca.kind, &bytes), Ok(ca));
}

#[test]
fn compact_matches_packed_cbor() {
    let schema = ontology();
    let mut ann = empty(&schema, "Annotation");
    ann.values[0] = FieldValue::Required(vec![0xab]);
    ann.values[1] = FieldValue::Required(vec![0x45]);
    let bytes = encode_compact(&ann);
    assert_eq!(bytes, vec![0xa2, 0x01, 0x41, 0xab, 0x02, 0x41, 0x45]);
    assert_eq!(decode_compact(&schema, ann.kind, &bytes), Ok(ann));
}

#[test]
fn compact_omits_empty_fields() {
    let schema = ontology();
    let dpa = empty(&schema, "DataPropertyAssertion");
    assert_eq!(encode_compact(&dpa), vec![0xa0]);
    let ann = empty(&schema, "Annotation");
    assert_eq!(encode_compact(&ann), vec![0xa2, 0x01, 0x40, 0x02, 0x40]);
    let mut ca = empty(&schema, "ClassAssertion");
    ca.values[2] = FieldValue::Optional(Some(vec![7]));
    assert_eq!(encode_compact(&ca), vec![0xa1, 0x03, 0x41, 0x07]);
}

#[test]
fn compact_errors() {
    let schema = ontology();
    let ann = EntityKind::from_name(&schema, "Annotation").unwrap().index;
    let class = EntityKind::from_name(&schema, "Class").unwrap().index;
    assert_eq!(decode_compact(&schema, ann, &vec![0x80]), Err(CompactError::NotAMap));
    assert_eq!(decode_compact(&schema, ann, &vec![]), Err(CompactError::NotAMap));
    assert_eq!(decode_compact(&schema, ann, &vec![0xa1, 0x01, 0x40]), Err(CompactError::MissingField { field: 1 }));
    assert_eq!(decode_compact(&schema, ann, &vec![0xa2, 0x01, 0x01, 0x02, 0x40]), Err(CompactError::Malformed { field: 0 }));
    assert_eq!(decode_compact(&schema, class, &vec![0xa1, 0x01, 0x80]), Err(CompactError::Malformed { field: 0 }));
    assert_eq!(decode_compact(&schema, class, &vec![0xa0, 0x00]), Err(CompactError::TrailingBytes));
}

#[test]
fn canonicalize_orders_repeated_fields() {
    let schema = ontology();
    let mut a = empty(&schema, "Class");
    a.values[0] = FieldValue::Repeated(vec![vec![2], vec![1, 5], vec![1]]);
    let mut b = empty(&schema, "Class");
    b.values[0] = FieldValue::Repeated(vec![vec![1], vec![2], vec![1, 5]]);
    assert_ne!(a.to_bytes(&schema), b.to_bytes(&schema));
    a.canonicalize();
    b.canonicalize();
    assert_eq!(a.values[0], FieldValue::Repeated(vec![vec![1], vec![1, 5], vec![2]]));
    assert_eq!(a, b);
    assert_eq!(a.to_cid(&schema), b.to_cid(&schema));
}

#[test]
fn canonicalize_twice_is_canonicalize_once() {
    let schema = ontology();
    let mut a = empty(&schema, "ClassAssertion");
    a.values[0] = FieldValue::Repeated(vec![vec![9, 9], vec![0], vec![9]]);
    a.values[1] = FieldValue::Optional(Some(vec![3, 2, 1]));
    a.canonicalize();
    let once = a.clone();
    a.canonicalize();
    assert_eq!(a, once);
    assert_eq!(a.values[1], FieldValue::Optional(Some(vec![3, 2, 1])));
}

#[test]
fn envelope_round_trip() {
    let schema = ontology();
    let mut ann = empty(&schema, "Annotation");
    ann.values[0] = FieldValue::Required(vec![0xab]);
    ann.values[1] = FieldValue::Required(vec![0x45]);
    let bytes = serialize_v0(&schema, &ann);
    assert_eq!(bytes, vec![0x00, 0x01, 0xa2, 0x01, 0x41, 0xab, 0x02, 0x41, 0x45]);
    assert_eq!(deserialize_v0(&schema, &bytes), Ok(ann));
}

#[test]
fn envelope_rejects_other_versions() {
    let schema = ontology();
    assert_eq!(deserialize_v0(&schema, &vec![0x01, 0x01, 0xa0]), Err(EnvelopeError::UnsupportedVersion));
    assert_eq!(deserialize_v0(&schema, &vec![0x01]), Err(EnvelopeError::UnsupportedVersion));
    assert_eq!(deserialize_v0(&schema, &vec![0x80, 0x01, 0xff]), Err(EnvelopeError::UnsupportedVersion));
}

#[test]
fn envelope_errors() {
    let schema = ontology();
    assert_eq!(deserialize_v0(&schema, &vec![]), Err(EnvelopeError::Truncated));
    assert_eq!(deserialize_v0(&schema, &vec![0x00]), Err(EnvelopeError::Truncated));
    assert_eq!(deserialize_v0(&schema, &vec![0x00, 0x63, 0xa0]), Err(EnvelopeError::UnknownKind));
    assert_eq!(deserialize_v0(&schema, &vec![0x00, 0x01, 0xa0]), Err(EnvelopeError::Body(CompactError::MissingField { field: 0 })));
}

#[test]
fn abi_decode_example() {
    let intermediate = Intermediate { kinds: vec![kind("Label", 0, 1, vec![field("value", "Value", true)])] };
    let schema = build_files(&intermediate).unwrap();
    let mut blob = word(0x20);
    blob.extend(word(0x03));
    let mut payload = vec![0x01, 0x02, 0x03];
    payload.resize(32, 0);
    blob.extend(payload);
    let e = from_abiv2(&schema, 0, &blob).unwrap();
    assert_eq!(e.values, vec![FieldValue::Required(vec![0x01, 0x02, 0x03])]);
}

#[test]
fn abi_decode_arrays_and_optional() {
    let schema = ontology();
    let ca = EntityKind::from_name(&schema, "ClassAssertion").unwrap().index;
    // slots: annotations at 0x60, subject at 0x140, class at 0x180
    let mut blob = word(0x60);
    blob.extend(word(0x140));
    blob.extend(word(0x180));
    // annotations: two elements
    blob.extend(word(2));
    blob.extend(word(0x40));
    blob.extend(word(0x80));
    blob.extend(word(1));
    let mut e0 = vec![0xaa];
    e0.resize(32, 0);
    blob.extend(e0);
    blob.extend(word(2));
    let mut e1 = vec![0xbb, 0xcc];
    e1.resize(32, 0);
    blob.extend(e1);
    // subject: empty bytes, so absent
    blob.extend(word(0));
    blob.extend(word(0));
    // class: one byte
    blob.extend(word(1));
    let mut c = vec![0x07];
    c.resize(32, 0);
    blob.extend(c);
    assert_eq!(blob.len(), 0x1c0);
    let e = from_abiv2(&schema, ca, &blob).unwrap();
    assert_eq!(
        e.values,
        vec![
            FieldValue::Repeated(vec![vec![0xaa], vec![0xbb, 0xcc]]),
            FieldValue::Optional(None),
            FieldValue::Optional(Some(vec![0x07])),
        ]
    );
}

#[test]
fn abi_decode_out_of_range() {
    let intermediate = Intermediate { kinds: vec![kind("Label", 0, 1, vec![field("value", "Value", true)])] };
    let schema = build_files(&intermediate).unwrap();
    let mut blob = word(0x20);
    blob.extend(word(0x40));
    assert_eq!(from_abiv2(&schema, 0, &blob), Err(AbiDecodeError::OutOfRange { field: 0 }));
    assert_eq!(from_abiv2(&schema, 0, &vec![0; 10]), Err(AbiDecodeError::OutOfRange { field: 0 }));
    let mut huge = vec![0xffu8; 32];
    huge.extend(word(0));
    assert_eq!(from_abiv2(&schema, 0, &huge), Err(AbiDecodeError::OutOfRange { field: 0 }));
}

#[test]
fn schema_errors() {
    let ok = vec![field("a", "X", true)];
    let dup_kind = Intermediate { kinds: vec![kind("A", 0, 1, vec![]), kind("A", 1, 1, vec![])] };
    assert_eq!(build_files(&dup_kind).unwrap_err(), SchemaError::DuplicateKindName { kind: 1 });
    let ids = Intermediate { kinds: vec![kind("A", 5, 1, vec![]), kind("B", 5, 1, vec![])] };
    assert_eq!(build_files(&ids).unwrap_err(), SchemaError::NonMonotonicKindId { kind: 1 });
    let nameless = Intermediate { kinds: vec![kind("", 0, 1, ok)] };
    assert_eq!(build_files(&nameless).unwrap_err(), SchemaError::EmptyKindName { kind: 0 });
    let shape = Intermediate { kinds: vec![kind("A", 0, 1, vec![field("a", "", false)])] };
    assert_eq!(build_files(&shape).unwrap_err(), SchemaError::UnknownFieldShape { kind: 0, field: 0 });
    let dup_field = Intermediate { kinds: vec![kind("A", 0, 1, vec![field("a", "X", false), field("a", "Y[]", false)])] };
    assert_eq!(build_files(&dup_field).unwrap_err(), SchemaError::DuplicateFieldName { kind: 0, field: 1 });
}

#[test]
fn field_shapes() {
    assert!(field("a", "Class[]", false).is_array_kind());
    assert!(!field("a", "Class", true).is_array_kind());
    assert!(!field("a", "]", true).is_array_kind());
}

#[test]
fn kind_lookups() {
    let schema = ontology();
    let ann = EntityKind::from_name(&schema, "Annotation").unwrap();
    assert_eq!(ann.id(&schema), 1);
    assert_eq!(ann.name(&schema), "Annotation");
    assert_eq!(ann.retrieve_fn_name(&schema), "retrieveAnnotation");
    assert_eq!(EntityKind::from_event_name(&schema, "AnnotationStored"), Ok(ann));
    assert_eq!(EntityKind::from_event_name(&schema, "Annotation"), Ok(ann));
    assert!(EntityKind::from_event_name(&schema, "Stored").is_err());
    assert!(EntityKind::from_name(&schema, "Nothing").is_err());
    assert_eq!(EntityKind::from_id(&schema, 3).unwrap().name(&schema), "ClassAssertion");
    assert!(EntityKind::from_id(&schema, 77).is_none());
    let dpa = EntityKind::from_name(&schema, "DataPropertyAssertion").unwrap();
    assert_eq!(dpa.data_field_names(&schema), vec!["target".to_string()]);
    assert_eq!(dpa.cid_field_names(&schema), vec!["annotations".to_string(), "subject".to_string(), "property".to_string()]);
    let e = dpa.empty_entity(&schema);
    assert_eq!(e.kind(), dpa);
}

#[test]
fn subjects_and_complements() {
    let schema = ontology();
    let mut ca = empty(&schema, "ClassAssertion");
    ca.values[0] = FieldValue::Repeated(vec![vec![1]]);
    ca.values[1] = FieldValue::Optional(Some(vec![0x51]));
    ca.values[2] = FieldValue::Optional(Some(vec![0xc1]));
    assert_eq!(ca.get_subject(&schema), Some(vec![0x51]));
    assert!(ca.as_class_assertion(&schema).is_some());
    assert!(ca.as_negative_class_assertion(&schema).is_none());
    let neg = ca.get_assertion_complement(&schema).unwrap();
    assert_eq!(neg.kind, EntityKind::from_name(&schema, "NegativeClassAssertion").unwrap().index);
    assert_eq!(
        neg.values,
        vec![FieldValue::Repeated(vec![]), FieldValue::Optional(Some(vec![0x51])), FieldValue::Optional(Some(vec![0xc1]))]
    );
    assert!(neg.as_negative_class_assertion(&schema).is_some());
    let back = neg.get_assertion_complement(&schema).unwrap();
    assert_eq!(back.kind, ca.kind);
    assert_eq!(back.values[1], ca.values[1]);
    let class = empty(&schema, "Class");
    assert_eq!(class.get_subject(&schema), None);
    assert!(class.get_assertion_complement(&schema).is_none());
}

#[test]
fn foreign_cids() {
    let schema = ontology();
    let mut klass = empty(&schema, "Class");
    klass.values[0] = FieldValue::Repeated(vec![vec![1, 2, 3]]);
    let bytes = klass.to_bytes(&schema);
    let cid = to_cid_unknown(&bytes, Some(49152)).unwrap();
    assert_eq!(cid.codec, 49152);
    assert_eq!(cid.version, CidVersion::V1);
    assert_eq!(cid.hash, bytes[4..].to_vec());
    assert_eq!(cid.to_bytes(), bytes);
    assert_eq!(to_cid_unknown(&bytes, Some(1)), Err(CidError::UnknownCodec));
    let mut v2 = bytes.clone();
    v2[0] = 2;
    assert_eq!(to_cid_unknown(&v2, None), Err(CidError::InvalidCidVersion));
    assert_eq!(to_cid_unknown(&bytes[..10].to_vec(), None), Err(CidError::ParsingError));
    assert_eq!(to_cid_unknown(&vec![], None), Err(CidError::ParsingError));
    let text = multibase::encode(multibase::Base::Base58btc, &bytes);
    assert_eq!(string_to_cid_unknown(&text, None).unwrap().to_bytes(), bytes);
    assert_eq!(string_to_cid_unknown("!!", None), Err(CidError::ParsingError));
}

#[test]
fn compact_reads_null_repeated_field() {
    let schema = ontology();
    let class = EntityKind::from_name(&schema, "Class").unwrap().index;
    let decoded = decode_compact(&schema, class, &vec![0xa1, 0x01, 0xf6]).unwrap();
    assert_eq!(decoded, empty(&schema, "Class"));
    let both = decode_compact(&schema, class, &vec![0xa2, 0x01, 0xf6, 0x02, 0x81, 0x41, 0x05]).unwrap();
    assert_eq!(both.values, vec![FieldValue::Repeated(vec![]), FieldValue::Repeated(vec![vec![0x05]])]);
    let ann = EntityKind::from_name(&schema, "Annotation").unwrap().index;
    assert_eq!(decode_compact(&schema, ann, &vec![0xa2, 0x01, 0xf6, 0x02, 0x40]), Err(CompactError::Malformed { field: 0 }));
    let mut body = vec![0x00, 0x00];
    body.extend(vec![0xa1, 0x02, 0xf6]);
    assert_eq!(deserialize_v0(&schema, &body), Ok(empty(&schema, "Class")));
}

#[test]
fn reserved_field_names_are_refused() {
    let named_cid = Intermediate { kinds: vec![kind("A", 0, 1, vec![field("a", "X", true), field("cid", "X", true)])] };
    assert_eq!(build_files(&named_cid).unwrap_err(), SchemaError::ReservedFieldName { kind: 0, field: 1 });
    let named_type = Intermediate { kinds: vec![kind("A", 0, 1, vec![field("type", "X", true)])] };
    assert_eq!(build_files(&named_type).unwrap_err(), SchemaError::ReservedFieldName { kind: 0, field: 0 });
}

#[test]
fn cid_and_data_field_values() {
    let schema = ontology();
    let mut dpa = empty(&schema, "DataPropertyAssertion");
    dpa.values[0] = FieldValue::Repeated(vec![vec![1], vec![2]]);
    dpa.values[1] = FieldValue::Optional(Some(vec![3]));
    dpa.values[3] = FieldValue::Optional(Some(vec![4]));
    assert_eq!(dpa.cid_field_values(&schema), vec![vec![1], vec![2], vec![3]]);
    assert_eq!(dpa.data_field_values(&schema), vec![vec![4]]);
    let mut ann = empty(&schema, "Annotation");
    ann.values[0] = FieldValue::Required(vec![7]);
    assert_eq!(ann.cid_field_values(&schema), vec![vec![7]]);
    assert_eq!(ann.data_field_values(&schema), vec![Vec::<u8>::new()]);
}

#[test]
fn cid_hash_is_a_keccak_multihash() {
    let schema = ontology();
    let cid = empty(&schema, "Annotation").to_cid(&schema).unwrap();
    assert_eq!(cid.hash.len(), 34);
    assert_eq!(cid.hash[..2].to_vec(), vec![0x1b, 0x20]);
}

#[test]
fn maps_by_cid() {
    let schema = ontology();
    let ann = empty(&schema, "Annotation");
    let mut annotations = AnnotationMap(BTreeMap::new());
    annotations.0.insert(ann.to_bytes(&schema), ann.clone());
    let classes = ClassMap(BTreeMap::new());
    assert_eq!(annotations.0.get(&ann.to_bytes(&schema)), Some(&ann));
    assert!(classes.0.is_empty());
}
