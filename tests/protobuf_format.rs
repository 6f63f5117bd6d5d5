use rlay_ontology::canonical::{decode_canonical, encode_canonical, CanonicalError};
use rlay_ontology::entity::{Entity, EntityKind, FieldValue};
use rlay_ontology::schema::{build_files, Field, Intermediate, Kind, Schema};

fn field(name: &str, kind: &str, required: bool) -> Field {
    Field { name: name.to_string(), kind: kind.to_string(), required }
}

fn kind(name: &str, kind_id: u64, cid_prefix: u64, fields: Vec<Field>) -> Kind {
    Kind {
        name: name.to_string(),
        fields,
        expression_kind: None,
        kind_id,
        cid_prefix,
        cid_prefix_hex: format!("{:x}", cid_prefix),
    }
}

fn ontology() -> Schema {
    let intermediate = Intermediate {
        kinds: vec![
            kind(
                "Class",
                0,
                49152,
                vec![field("annotations", "Annotation[]", false), field("subClassOfClass", "Class[]", false)],
            ),
            kind(
                "Annotation",
                1,
                49153,
                vec![field("property", "AnnotationProperty", true), field("value", "Value", true)],
            ),
            kind(
                "DataPropertyAssertion",
                2,
                49154,
                vec![
                    field("annotations", "Annotation[]", false),
                    field("subject", "Individual", false),
                    field("property", "DataProperty", false),
                    field("target", "Value", false),
                ],
            ),
            kind(
                "ClassAssertion",
                3,
                49155,
                vec![
                    field("annotations", "Annotation[]", false),
                    field("subject", "Individual", false),
                    field("class", "Class", false),
                ],
            ),
            kind(
                "NegativeClassAssertion",
                4,
                49156,
                vec![
                    field("annotations", "Annotation[]", false),
                    field("subject", "Individual", false),
                    field("class", "Class", false),
                ],
            ),
        ],
    };
    build_files(&intermediate).unwrap()
}

fn empty(schema: &Schema, name: &str) -> Entity {
    EntityKind::from_name(schema, name).unwrap().empty_entity(schema)
}

fn hex_bytes(s: &str) -> Vec<u8> {
    (0..s.len()).step_by(2).map(|i| u8::from_str_radix(&s[i..i + 2], 16).unwrap()).collect()
}

#[test]
fn protobuf_format_encoding() {
    let schema = ontology();
    let mut klass = empty(&schema, "Class");
    klass.values[0] = FieldValue::Repeated(vec![b"\x01\x02\x03".to_vec()]);

    let encoded_klass = encode_canonical(&klass);

    let expected_bytes = b"\x0a\x03\x01\x02\x03".to_vec();
    assert_eq!(expected_bytes, encoded_klass);
}

#[test]
fn protobuf_format_decoding() {
    let schema = ontology();
    let bytes = b"\x0a\x05\x01\x02\x03\x02\x03".to_vec();

    let mut expected_klass = empty(&schema, "Class");
    expected_klass.values[0] = FieldValue::Repeated(vec![b"\x01\x02\x03\x02\x03".to_vec()]);

    let class_kind = EntityKind::from_name(&schema, "Class").unwrap();
    let decoded_klass = decode_canonical(&schema, class_kind.index, &bytes).unwrap();

    assert_eq!(expected_klass, decoded_klass);
}

#[test]
/// Different entities can be encoded to the same bytes: the canonical
/// encoding does not carry the kind.
fn protobuf_format_encoding_equal() {
    let schema = ontology();
    let mut ann = empty(&schema, "DataPropertyAssertion");
    ann.values[0] = FieldValue::Repeated(vec![b"\x01\x02\x03".to_vec()]);

    let mut klass = empty(&schema, "Class");
    klass.values[0] = FieldValue::Repeated(vec![b"\x01\x02\x03".to_vec()]);

    let encoded_ann = encode_canonical(&ann);
    let encoded_klass = encode_canonical(&klass);

    assert_eq!(encoded_ann, encoded_klass);
}

#[test]
fn protobuf_cid() {
    let schema = ontology();
    let mut klass = empty(&schema, "Class");
    klass.values[0] = FieldValue::Repeated(vec![b"\x01\x02\x03".to_vec()]);

    let cid = klass.to_cid(&schema).unwrap().to_bytes();

    let expected_bytes: Vec<u8> =
        hex_bytes("018080031b20e74c92dfbce4b3219c3106b978aa99b8c0b1a34f90e60c947615752d37c210f9");
    assert_eq!(expected_bytes, cid);
}

#[test]
fn entity_to_bytes_is_cid_bytes() {
    let schema = ontology();
    let mut klass = empty(&schema, "Class");
    klass.values[0] = FieldValue::Repeated(vec![b"\x01\x02\x03".to_vec()]);
    assert_eq!(
        klass.to_bytes(&schema),
        hex_bytes("018080031b20e74c92dfbce4b3219c3106b978aa99b8c0b1a34f90e60c947615752d37c210f9")
    );
}

#[test]
fn canonical_optional_and_required_fields() {
    let schema = ontology();
    let mut dpa = empty(&schema, "DataPropertyAssertion");
    dpa.values[1] = FieldValue::Optional(Some(vec![0xaa]));
    dpa.values[3] = FieldValue::Optional(Some(vec![]));
    let bytes = encode_canonical(&dpa);
    assert_eq!(bytes, vec![0x12, 0x01, 0xaa, 0x22, 0x00]);
    let back = decode_canonical(&schema, dpa.kind, &bytes).unwrap();
    assert_eq!(back, dpa);

    let mut ann = empty(&schema, "Annotation");
    ann.values[0] = FieldValue::Required(vec![]);
    let bytes = encode_canonical(&ann);
    assert_eq!(bytes, vec![0x0a, 0x00, 0x12, 0x00]);
}

#[test]
fn canonical_missing_required_field() {
    let schema = ontology();
    let annotation = EntityKind::from_name(&schema, "Annotation").unwrap();
    let r = decode_canonical(&schema, annotation.index, &vec![0x0a, 0x00]);
    assert_eq!(r, Err(CanonicalError::MissingField { field: 1 }));
}

#[test]
fn canonical_trailing_bytes() {
    let schema = ontology();
    let class_kind = EntityKind::from_name(&schema, "Class").unwrap();
    let r = decode_canonical(&schema, class_kind.index, &vec![0x0a, 0x00, 0x07]);
    assert_eq!(r, Err(CanonicalError::TrailingBytes { pos: 2 }));
}

#[test]
fn canonical_rejects_out_of_order_records() {
    let schema = ontology();
    let class_kind = EntityKind::from_name(&schema, "Class").unwrap();
    let r = decode_canonical(&schema, class_kind.index, &vec![0x12, 0x00, 0x0a, 0x00]);
    assert!(r.is_err());
}
