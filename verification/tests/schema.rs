use hellodb::error::CoreError;
use hellodb::json::JsonValue;
use hellodb::schema::{FieldType, Schema, SchemaField, SchemaRegistry};

fn obj(pairs: Vec<(&str, JsonValue)>) -> JsonValue {
    JsonValue::object(pairs.into_iter().map(|(k, v)| (k.to_string(), v)).collect())
}

fn sample_listing_schema() -> Schema {
    Schema {
        id: "ainp.commerce.listing".into(),
        version: "1.0.0".into(),
        namespace: "ainp.commerce".into(),
        name: "Listing".into(),
        fields: vec![
            SchemaField {
                name: "title".into(),
                field_type: FieldType::String,
                required: true,
                description: Some("Listing title".into()),
            },
            SchemaField {
                name: "price_micro_usdc".into(),
                field_type: FieldType::Integer,
                required: true,
                description: None,
            },
            SchemaField {
                name: "remote".into(),
                field_type: FieldType::Boolean,
                required: false,
                description: None,
            },
            SchemaField {
                name: "tags".into(),
                field_type: FieldType::Array(Box::new(FieldType::String)),
                required: false,
                description: None,
            },
        ],
        registered_at_ms: 1000,
    }
}

#[test]
fn register_and_get() {
    let mut reg = SchemaRegistry::new();
    reg.register(sample_listing_schema()).unwrap();
    let s = reg.get("ainp.commerce.listing").unwrap();
    assert_eq!(s.name, "Listing");
    assert_eq!(s.fields.len(), 4);
}

#[test]
fn idempotent_registration() {
    let mut reg = SchemaRegistry::new();
    reg.register(sample_listing_schema()).unwrap();
    reg.register(sample_listing_schema()).unwrap();
}

#[test]
fn duplicate_different_version_fails() {
    let mut reg = SchemaRegistry::new();
    reg.register(sample_listing_schema()).unwrap();
    let mut schema2 = sample_listing_schema();
    schema2.version = "2.0.0".into();
    assert!(reg.register(schema2).is_err());
}

#[test]
fn validate_conforming_data() {
    let mut reg = SchemaRegistry::new();
    reg.register(sample_listing_schema()).unwrap();
    let data = obj(vec![
        ("title", JsonValue::string("Rust Dev")),
        ("price_micro_usdc", JsonValue::integer(25000000)),
    ]);
    assert!(reg.validate_data("ainp.commerce.listing", &data).is_ok());
}

#[test]
fn validate_with_optional_fields() {
    let mut reg = SchemaRegistry::new();
    reg.register(sample_listing_schema()).unwrap();
    let data = obj(vec![
        ("title", JsonValue::string("Rust Dev")),
        ("price_micro_usdc", JsonValue::integer(25000000)),
        ("remote", JsonValue::boolean(true)),
        (
            "tags",
            JsonValue::array(vec![JsonValue::string("rust"), JsonValue::string("backend")]),
        ),
    ]);
    assert!(reg.validate_data("ainp.commerce.listing", &data).is_ok());
}

#[test]
fn validate_missing_required_field() {
    let mut reg = SchemaRegistry::new();
    reg.register(sample_listing_schema()).unwrap();
    let data = obj(vec![("title", JsonValue::string("Rust Dev"))]);
    assert!(reg.validate_data("ainp.commerce.listing", &data).is_err());
}

#[test]
fn validate_wrong_type() {
    let mut reg = SchemaRegistry::new();
    reg.register(sample_listing_schema()).unwrap();
    let data = obj(vec![
        ("title", JsonValue::integer(123)),
        ("price_micro_usdc", JsonValue::integer(25000000)),
    ]);
    assert!(reg.validate_data("ainp.commerce.listing", &data).is_err());
}

#[test]
fn validate_wrong_array_element_type() {
    let mut reg = SchemaRegistry::new();
    reg.register(sample_listing_schema()).unwrap();
    let data = obj(vec![
        ("title", JsonValue::string("Rust Dev")),
        ("price_micro_usdc", JsonValue::integer(25000000)),
        (
            "tags",
            JsonValue::array(vec![
                JsonValue::integer(1),
                JsonValue::integer(2),
                JsonValue::integer(3),
            ]),
        ),
    ]);
    assert!(reg.validate_data("ainp.commerce.listing", &data).is_err());
}

#[test]
fn validate_schema_not_found() {
    let reg = SchemaRegistry::new();
    let data = obj(vec![("title", JsonValue::string("test"))]);
    assert!(reg.validate_data("nonexistent.schema", &data).is_err());
}

#[test]
fn list_by_namespace() {
    let mut reg = SchemaRegistry::new();
    reg.register(sample_listing_schema()).unwrap();
    reg.register(Schema {
        id: "ainp.commerce.order".into(),
        version: "1.0.0".into(),
        namespace: "ainp.commerce".into(),
        name: "Order".into(),
        fields: vec![],
        registered_at_ms: 2000,
    })
    .unwrap();
    reg.register(Schema {
        id: "health.vitals.heartrate".into(),
        version: "1.0.0".into(),
        namespace: "health.vitals".into(),
        name: "Heart Rate".into(),
        fields: vec![],
        registered_at_ms: 3000,
    })
    .unwrap();

    let commerce = reg.list_by_namespace("ainp.commerce");
    assert_eq!(commerce.len(), 2);

    let health = reg.list_by_namespace("health.vitals");
    assert_eq!(health.len(), 1);
}

#[test]
fn has_schema() {
    let mut reg = SchemaRegistry::new();
    assert!(!reg.has_schema("test.schema"));
    reg.register(sample_listing_schema()).unwrap();
    assert!(reg.has_schema("ainp.commerce.listing"));
}

#[test]
fn field_type_clone_is_equal() {
    let ft = FieldType::Array(Box::new(FieldType::Optional(Box::new(FieldType::String))));
    assert_eq!(ft.clone(), ft);
}

#[test]
fn validation_error_messages() {
    let mut reg = SchemaRegistry::new();
    reg.register(sample_listing_schema()).unwrap();
    let missing = obj(vec![("title", JsonValue::string("x"))]);
    match reg.validate_data("ainp.commerce.listing", &missing) {
        Err(CoreError::SchemaValidation(m)) => {
            assert_eq!(m, "missing required field: price_micro_usdc")
        }
        other => panic!("unexpected {:?}", other),
    }
    let wrong = obj(vec![
        ("title", JsonValue::string("x")),
        ("price_micro_usdc", JsonValue::integer(1)),
        ("tags", JsonValue::array(vec![JsonValue::string("a"), JsonValue::boolean(true)])),
    ]);
    match reg.validate_data("ainp.commerce.listing", &wrong) {
        Err(CoreError::SchemaValidation(m)) => {
            assert_eq!(m, "field 'tags[1]' expected string, got boolean")
        }
        other => panic!("unexpected {:?}", other),
    }
    match reg.validate_data("nope", &wrong) {
        Err(CoreError::SchemaNotFound(m)) => assert_eq!(m, "nope"),
        other => panic!("unexpected {:?}", other),
    }
}

#[test]
fn optional_field_accepts_null_and_non_object_data_fails() {
    let mut reg = SchemaRegistry::new();
    reg.register(Schema {
        id: "s".into(),
        version: "1".into(),
        namespace: "n".into(),
        name: "S".into(),
        fields: vec![SchemaField {
            name: "maybe".into(),
            field_type: FieldType::Optional(Box::new(FieldType::Integer)),
            required: true,
            description: None,
        }],
        registered_at_ms: 0,
    })
    .unwrap();
    let ok = obj(vec![("maybe", JsonValue::null())]);
    assert!(reg.validate_data("s", &ok).is_ok());
    assert!(reg.validate_data("s", &JsonValue::integer(5)).is_err());
    let dup = reg.register(Schema {
        id: "s".into(),
        version: "2".into(),
        namespace: "n".into(),
        name: "S".into(),
        fields: vec![],
        registered_at_ms: 0,
    });
    match dup {
        Err(CoreError::DuplicateSchema(_)) => {}
        other => panic!("unexpected {:?}", other),
    }
}

fn one_field_registry(t: FieldType) -> SchemaRegistry {
    let mut reg = SchemaRegistry::new();
    reg.register(Schema {
        id: "one".into(),
        version: "1".into(),
        namespace: "n".into(),
        name: "One".into(),
        fields: vec![SchemaField { name: "f".into(), field_type: t, required: false, description: None }],
        registered_at_ms: 0,
    })
    .unwrap();
    reg
}

fn message_of(reg: &SchemaRegistry, data: &JsonValue) -> String {
    match reg.validate_data("one", data) {
        Err(CoreError::SchemaValidation(m)) => m,
        other => panic!("unexpected {:?}", other),
    }
}

#[test]
fn optional_value_reports_its_inner_type() {
    let reg = one_field_registry(FieldType::Optional(Box::new(FieldType::Integer)));
    let data = obj(vec![("f", JsonValue::decimal(15, 1))]);
    assert_eq!(message_of(&reg, &data), "field 'f' expected integer, got number");
}

#[test]
fn each_kind_names_what_it_expected() {
    let cases: Vec<(FieldType, &str)> = vec![
        (FieldType::String, "field 'f' expected string, got boolean"),
        (FieldType::Integer, "field 'f' expected integer, got boolean"),
        (FieldType::Timestamp, "field 'f' expected integer, got boolean"),
        (FieldType::Float, "field 'f' expected number, got boolean"),
        (FieldType::Blob, "field 'f' expected blob (string), got boolean"),
        (FieldType::Array(Box::new(FieldType::Json)), "field 'f' expected array, got boolean"),
    ];
    for (t, expected) in cases {
        let reg = one_field_registry(t);
        let data = obj(vec![("f", JsonValue::boolean(true))]);
        assert_eq!(message_of(&reg, &data), expected);
    }
    let reg = one_field_registry(FieldType::Boolean);
    let data = obj(vec![("f", JsonValue::null())]);
    assert_eq!(message_of(&reg, &data), "field 'f' expected boolean, got null");
}

#[test]
fn nested_array_items_are_named_by_position() {
    let reg = one_field_registry(FieldType::Array(Box::new(FieldType::Array(Box::new(FieldType::String)))));
    let data = obj(vec![(
        "f",
        JsonValue::array(vec![
            JsonValue::array(vec![JsonValue::string("a")]),
            JsonValue::array(vec![JsonValue::string("b"), JsonValue::integer(2)]),
        ]),
    )]);
    assert_eq!(message_of(&reg, &data), "field 'f[1][1]' expected string, got number");
}

#[test]
fn non_object_data_is_refused_with_its_message() {
    let reg = one_field_registry(FieldType::Json);
    assert_eq!(message_of(&reg, &JsonValue::string("x")), "data must be a JSON object");
}
