use rlay_ontology::entity::EntityKind;
use rlay_ontology::schema::{build_files, data_field, get_cid_fields, get_data_fields, Field, Intermediate, Kind, Schema};

fn field(name: &str, kind: &str, required: bool) -> Field {
    Field { name: name.to_string(), kind: kind.to_string(), required }
}

fn kind(name: &str, kind_id: u64, cid_prefix: u64, fields: Vec<Field>) -> Kind {
    Kind {
        name: name.to_string(),
        fields,
        expression_kind: None,
        kind_id,
        cid_prefix,
        cid_prefix_hex: format!("{:x}", cid_prefix),
    }
}

fn ontology() -> Schema {
    let intermediate = Intermediate {
        kinds: vec![
            kind(
                "Class",
                0,
                49152,
                vec![field("annotations", "Annotation[]", false), field("subClassOfClass", "Class[]", false)],
            ),
            kind(
                "Annotation",
                1,
                49153,
                vec![field("property", "AnnotationProperty", true), field("value", "Value", true)],
            ),
            kind(
                "DataPropertyAssertion",
                2,
                49154,
                vec![
                    field("annotations", "Annotation[]", false),
                    field("subject", "Individual", false),
                    field("property", "DataProperty", false),
                    field("target", "Value", false),
                ],
            ),
        ],
    };
    build_files(&intermediate).unwrap()
}

#[test]
fn entity_variants() {
    let schema = ontology();
    let entity_variants = EntityKind::variants(&schema);

    assert!(entity_variants.contains(&"Annotation".to_string()));
}

#[test]
fn annotation_data_field_names() {
    let schema = ontology();
    let annotation = EntityKind::from_name(&schema, "Annotation").unwrap();
    assert!(annotation.data_field_names(&schema).contains(&"value".to_string()));
}

#[test]
fn annotation_cid_field_names() {
    let schema = ontology();
    let annotation = EntityKind::from_name(&schema, "Annotation").unwrap();
    assert!(annotation.cid_field_names(&schema).contains(&"property".to_string()));
}

#[test]
fn call_with_entity_kinds() {
    let schema = ontology();
    let mut _abc: Vec<String> = vec![];

    for index in 0..schema.kinds.len() {
        _abc = EntityKind { index }.data_field_names(&schema).into_iter().collect();
    }
}

#[test]
fn cid_and_data_fields_of_declarations() {
    let fields = vec![
        field("annotations", "Annotation[]", false),
        field("subject", "Individual", false),
        field("property", "DataProperty", false),
        field("target", "Value", false),
    ];
    let cid: Vec<String> = get_cid_fields("DataPropertyAssertion", &fields).into_iter().map(|f| f.name).collect();
    assert_eq!(cid, vec!["annotations", "subject", "property"]);
    let data: Vec<String> = get_data_fields("NegativeDataPropertyAssertion", &fields).into_iter().map(|f| f.name).collect();
    assert_eq!(data, vec!["target"]);
    assert!(get_data_fields("Class", &fields).is_empty());
    assert_eq!(get_cid_fields("Class", &fields).len(), 4);
    assert!(data_field("Annotation", "value"));
    assert!(!data_field("Annotation", "property"));
}
