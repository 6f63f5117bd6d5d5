use rlay_ontology::entity::{Entity, EntityKind, FieldValue};
use rlay_ontology::schema::{build_files, Field, Intermediate, Kind, Schema};
use rlay_ontology::web3::{FormatError, Web3Value};

fn field(name: &str, kind: &str, required: bool) -> Field {
    Field { name: name.to_string(), kind: kind.to_string(), required }
}

fn kind(name: &str, kind_id: u64, cid_prefix: u64, fields: Vec<Field>) -> Kind {
    Kind {
        name: name.to_string(),
        fields,
        expression_kind: None,
        kind_id,
        cid_prefix,
        cid_prefix_hex: format!("{:x}", cid_prefix),
    }
}

fn ontology() -> Schema {
    let intermediate = Intermediate {
        kinds: vec![
            kind(
                "Class",
                0,
                49152,
                vec![field("annotations", "Annotation[]", false), field("subClassOfClass", "Class[]", false)],
            ),
            kind(
                "Annotation",
                1,
                49153,
                vec![field("property", "AnnotationProperty", true), field("value", "Value", true)],
            ),
            kind(
                "DataPropertyAssertion",
                2,
                49154,
                vec![
                    field("annotations", "Annotation[]", false),
                    field("subject", "Individual", false),
                    field("property", "DataProperty", false),
                    field("target", "Value", false),
                ],
            ),
            kind(
                "ClassAssertion",
                3,
                49155,
                vec![
                    field("annotations", "Annotation[]", false),
                    field("subject", "Individual", false),
                    field("class", "Class", false),
                ],
            ),
            kind(
                "NegativeClassAssertion",
                4,
                49156,
                vec![
                    field("annotations", "Annotation[]", false),
                    field("subject", "Individual", false),
                    field("class", "Class", false),
                ],
            ),
        ],
    };
    build_files(&intermediate).unwrap()
}

fn empty(schema: &Schema, name: &str) -> Entity {
    EntityKind::from_name(schema, name).unwrap().empty_entity(schema)
}

fn s(x: &str) -> String {
    x.to_string()
}

fn string(x: &str) -> Web3Value {
    Web3Value::Str(x.to_string())
}

#[test]
fn ignores_cid_field() {
    let schema = ontology();
    let content = vec![
        (s("cid"), string("0x1234")),
        (s("type"), string("Annotation")),
        (s("property"), string("0x")),
        (s("value"), string("0x")),
    ];

    let parsed_annotation = Entity::from_web3(&schema, &content).unwrap();
    let expected_annotation: Entity = empty(&schema, "Annotation");

    assert_eq!(expected_annotation, parsed_annotation);
}

#[test]
fn web3_unknown_field() {
    let schema = ontology();
    let content = vec![
        (s("type"), string("Annotation")),
        (s("property"), string("0x")),
        (s("value"), string("0x")),
        (s("colour"), string("0x")),
    ];
    assert_eq!(Entity::from_web3(&schema, &content), Err(FormatError::UnknownField(s("colour"))));
}

#[test]
fn web3_duplicate_field() {
    let schema = ontology();
    let content = vec![
        (s("type"), string("Annotation")),
        (s("property"), string("0x01")),
        (s("value"), string("0x")),
        (s("property"), string("0x02")),
    ];
    assert_eq!(Entity::from_web3(&schema, &content), Err(FormatError::DuplicateField(s("property"))));
}

#[test]
fn web3_missing_required_field() {
    let schema = ontology();
    let content = vec![(s("type"), string("Annotation")), (s("property"), string("0x"))];
    assert_eq!(Entity::from_web3(&schema, &content), Err(FormatError::MissingField(s("value"))));
}

#[test]
fn web3_missing_type() {
    let schema = ontology();
    let content = vec![(s("property"), string("0x")), (s("value"), string("0x"))];
    assert_eq!(Entity::from_web3(&schema, &content), Err(FormatError::MissingField(s("type"))));
}

#[test]
fn web3_unknown_kind() {
    let schema = ontology();
    let content = vec![(s("type"), string("Unicorn"))];
    assert_eq!(Entity::from_web3(&schema, &content), Err(FormatError::UnknownKind(s("Unicorn"))));
}

#[test]
fn web3_invalid_hex() {
    let schema = ontology();
    let no_prefix = vec![(s("type"), string("Annotation")), (s("property"), string("12")), (s("value"), string("0x"))];
    assert_eq!(Entity::from_web3(&schema, &no_prefix), Err(FormatError::InvalidValue(s("property"))));
    let bad_digit = vec![(s("type"), string("Annotation")), (s("property"), string("0x1g")), (s("value"), string("0x"))];
    assert_eq!(Entity::from_web3(&schema, &bad_digit), Err(FormatError::InvalidValue(s("property"))));
    let odd = vec![(s("type"), string("Annotation")), (s("property"), string("0x123")), (s("value"), string("0x"))];
    assert_eq!(Entity::from_web3(&schema, &odd), Err(FormatError::InvalidValue(s("property"))));
}

#[test]
fn web3_reads_upper_case_hex_and_lists() {
    let schema = ontology();
    let content = vec![
        (s("type"), string("ClassAssertion")),
        (s("annotations"), Web3Value::List(vec![s("0xAB"), s("0x01ff")])),
        (s("subject"), Web3Value::Null),
        (s("class"), string("0x0a")),
    ];
    let mut expected = empty(&schema, "ClassAssertion");
    expected.values[0] = FieldValue::Repeated(vec![vec![0xab], vec![0x01, 0xff]]);
    expected.values[2] = FieldValue::Optional(Some(vec![0x0a]));
    assert_eq!(Entity::from_web3(&schema, &content), Ok(expected));
}

#[test]
fn web3_encoding_and_round_trip() {
    let schema = ontology();
    let mut ann = empty(&schema, "Annotation");
    ann.values[0] = FieldValue::Required(vec![0x01, 0x02, 0x03]);
    ann.values[1] = FieldValue::Required(vec![0xff]);
    let obj = ann.to_web3(&schema);
    assert_eq!(obj.len(), 4);
    assert_eq!(obj[0], (s("type"), string("Annotation")));
    assert_eq!(obj[1].0, s("cid"));
    match &obj[1].1 {
        Web3Value::Str(c) => {
            assert!(c.starts_with("0x018180031b20"));
            assert_eq!(c.len(), 2 + 2 * (1 + 3 + 34));
        }
        _ => panic!("cid is not a string"),
    }
    assert_eq!(obj[2], (s("property"), string("0x010203")));
    assert_eq!(obj[3], (s("value"), string("0xff")));
    assert_eq!(Entity::from_web3(&schema, &obj), Ok(ann));
}

#[test]
fn web3_reports_the_first_fault() {
    let schema = ontology();
    let content = vec![
        (s("type"), string("Annotation")),
        (s("property"), string("0xzz")),
        (s("colour"), string("0x")),
    ];
    assert_eq!(Entity::from_web3(&schema, &content), Err(FormatError::InvalidValue(s("property"))));
    let content = vec![
        (s("colour"), string("0x")),
        (s("type"), string("Annotation")),
        (s("property"), string("0x")),
        (s("property"), string("0x")),
    ];
    assert_eq!(Entity::from_web3(&schema, &content), Err(FormatError::UnknownField(s("colour"))));
    let content = vec![(s("type"), string("Annotation")), (s("type"), string("Class"))];
    assert_eq!(Entity::from_web3(&schema, &content), Err(FormatError::DuplicateField(s("type"))));
    let content = vec![(s("type"), Web3Value::Null)];
    assert_eq!(Entity::from_web3(&schema, &content), Err(FormatError::InvalidValue(s("type"))));
    let content = vec![(s("type"), string("Annotation"))];
    assert_eq!(Entity::from_web3(&schema, &content), Err(FormatError::MissingField(s("property"))));
}
