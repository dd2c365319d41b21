use hellodb::auth::access::AccessGate;
use hellodb::auth::consent::{ConsentAction, ConsentProof};
use hellodb::auth::delegation::{DelegationCredential, DelegationScope};
use hellodb::branch::Branch;
use hellodb::crypto::identity::KeyPair;
use hellodb::crypto::keychain::MasterKey;
use hellodb::json::{json_equal, JsonValue};
use hellodb::namespace::Namespace;
use hellodb::record::Record;
use hellodb::schema::{FieldType, Schema, SchemaField, SchemaRegistry};
use hellodb::storage::engine::StorageEngine;
use hellodb::storage::memory::MemoryEngine;

fn obj(pairs: Vec<(&str, JsonValue)>) -> JsonValue {
    JsonValue::object(pairs.into_iter().map(|(k, v)| (k.to_string(), v)).collect())
}

fn listing_schema() -> Schema {
    Schema {
        id: "app_a.commerce.listing".into(),
        version: "1".into(),
        namespace: "app_a.commerce".into(),
        name: "Listing".into(),
        fields: vec![
            SchemaField {
                name: "title".into(),
                field_type: FieldType::String,
                required: true,
                description: None,
            },
            SchemaField {
                name: "price".into(),
                field_type: FieldType::Float,
                required: true,
                description: None,
            },
            SchemaField {
                name: "currency".into(),
                field_type: FieldType::String,
                required: true,
                description: None,
            },
            SchemaField {
                name: "description".into(),
                field_type: FieldType::Optional(Box::new(FieldType::String)),
                required: false,
                description: None,
            },
        ],
        registered_at_ms: 1000,
    }
}

fn health_schema() -> Schema {
    Schema {
        id: "health.vitals.heart_rate".into(),
        version: "1".into(),
        namespace: "health.vitals".into(),
        name: "Heart Rate".into(),
        fields: vec![
            SchemaField {
                name: "bpm".into(),
                field_type: FieldType::Integer,
                required: true,
                description: None,
            },
            SchemaField {
                name: "measured_at".into(),
                field_type: FieldType::Timestamp,
                required: true,
                description: None,
            },
            SchemaField {
                name: "device".into(),
                field_type: FieldType::String,
                required: false,
                description: None,
            },
        ],
        registered_at_ms: 1000,
    }
}

fn run_full_scenario<E: StorageEngine>(engine: &mut E) {
    let device = KeyPair::generate();
    let master = MasterKey::generate();
    let commerce_ns_key = master.derive_namespace_key("app_a.commerce");
    let health_ns_key = master.derive_namespace_key("health.vitals");

    assert_ne!(commerce_ns_key.to_bytes(), health_ns_key.to_bytes(), "namespace keys must be distinct");

    let secret = b"commerce data payload";
    let ct = commerce_ns_key.encrypt(secret);
    let pt = commerce_ns_key.decrypt(&ct).unwrap();
    assert_eq!(pt, secret);
    assert!(health_ns_key.decrypt(&ct).is_err());

    let mut commerce_ns = Namespace::new(
        "app_a.commerce".into(),
        "Commerce App".into(),
        device.verifying.clone(),
        true,
    );
    commerce_ns.created_at_ms = 1000;

    let mut health_ns = Namespace::new(
        "health.vitals".into(),
        "Health Vitals".into(),
        device.verifying.clone(),
        true,
    );
    health_ns.created_at_ms = 1000;

    engine.create_namespace(commerce_ns.clone()).unwrap();
    engine.create_namespace(health_ns.clone()).unwrap();

    let listing_schema = listing_schema();
    let heart_schema = health_schema();

    let mut registry = SchemaRegistry::new();
    registry.register(listing_schema.clone()).unwrap();
    registry.register(heart_schema.clone()).unwrap();

    engine.register_schema(listing_schema).unwrap();
    engine.register_schema(heart_schema).unwrap();

    assert!(engine.get_schema("app_a.commerce.listing").unwrap().is_some());
    assert!(engine.get_schema("health.vitals.heart_rate").unwrap().is_some());
    assert!(engine.get_schema("nonexistent").unwrap().is_none());

    let commerce_main_id = format!("{}/main", "app_a.commerce");
    let health_main_id = format!("{}/main", "health.vitals");

    let listing_data = obj(vec![
        ("title", JsonValue::string("Handmade Ceramic Bowl")),
        ("price", JsonValue::decimal(2499, 2)),
        ("currency", JsonValue::string("USD")),
        ("description", JsonValue::string("Beautiful hand-thrown ceramic bowl")),
    ]);

    registry.validate_data("app_a.commerce.listing", &listing_data).unwrap();

    let listing = Record::new_with_timestamp(
        &device.signing,
        "app_a.commerce.listing".into(),
        "app_a.commerce".into(),
        listing_data.clone(),
        None,
        1000,
    )
    .unwrap();

    assert!(!listing.record_id.is_empty());
    assert!(listing.verify().is_ok(), "record signature must verify");

    engine.put_record(listing.clone(), &commerce_main_id).unwrap();

    let fetched = engine
        .get_record(&listing.record_id, &commerce_main_id)
        .unwrap()
        .expect("record must exist");
    assert_eq!(fetched.record_id, listing.record_id);
    assert!(json_equal(&fetched.data, &listing_data));
    assert!(fetched.verify().is_ok());

    let hr_data = obj(vec![
        ("bpm", JsonValue::integer(72)),
        ("measured_at", JsonValue::integer(1000)),
        ("device", JsonValue::string("AppleWatch")),
    ]);
    registry.validate_data("health.vitals.heart_rate", &hr_data).unwrap();

    let hr_record = Record::new_with_timestamp(
        &device.signing,
        "health.vitals.heart_rate".into(),
        "health.vitals".into(),
        hr_data,
        None,
        1100,
    )
    .unwrap();
    engine.put_record(hr_record, &health_main_id).unwrap();

    let draft = Branch::new(
        "app_a.commerce/draft-batch".into(),
        "app_a.commerce".into(),
        commerce_main_id.clone(),
        "Draft Batch Upload".into(),
    );
    engine.create_branch(draft.clone()).unwrap();

    let item2 = Record::new_with_timestamp(
        &device.signing,
        "app_a.commerce.listing".into(),
        "app_a.commerce".into(),
        obj(vec![
            ("title", JsonValue::string("Organic Honey Jar")),
            ("price", JsonValue::decimal(1250, 2)),
            ("currency", JsonValue::string("USD")),
        ]),
        None,
        2000,
    )
    .unwrap();

    let item3 = Record::new_with_timestamp(
        &device.signing,
        "app_a.commerce.listing".into(),
        "app_a.commerce".into(),
        obj(vec![
            ("title", JsonValue::string("Woven Basket Set")),
            ("price", JsonValue::decimal(3999, 2)),
            ("currency", JsonValue::string("USD")),
        ]),
        None,
        2001,
    )
    .unwrap();

    engine.put_record(item2, &draft.id).unwrap();
    engine.put_record(item3, &draft.id).unwrap();

    let draft_records = engine.list_records_by_namespace("app_a.commerce", &draft.id, 100, 0).unwrap();
    assert_eq!(draft_records.len(), 3, "draft branch should see parent records + its own");

    let main_records = engine
        .list_records_by_namespace("app_a.commerce", &commerce_main_id, 100, 0)
        .unwrap();
    assert_eq!(main_records.len(), 1, "main should still have 1 record");

    engine.merge_branch(&draft.id).unwrap();

    let main_after_merge = engine
        .list_records_by_namespace("app_a.commerce", &commerce_main_id, 100, 0)
        .unwrap();
    assert_eq!(main_after_merge.len(), 3, "main should have 3 records after merge");

    let app_b = KeyPair::generate();
    let gate = AccessGate::new();

    assert!(!gate.check_read(&app_b.verifying, &commerce_ns, 5000).is_allowed());
    assert!(!gate.check_write(&app_b.verifying, &commerce_ns, 5000).is_allowed());
    assert!(gate.check_read(&device.verifying, &commerce_ns, 5000).is_allowed());
    assert!(gate.check_write(&device.verifying, &commerce_ns, 5000).is_allowed());

    let consent = ConsentProof::new_with_timestamp(
        &device.signing,
        ConsentAction::CrossNamespaceRead,
        "Grant App B read access to app_a.commerce".into(),
        app_b.verifying.to_base64(),
        Some("app_a.commerce".into()),
        1000,
        Some(99999),
    )
    .unwrap();

    assert!(consent.verify().is_ok(), "consent signature must verify");

    let mut gate = AccessGate::new();
    gate.add_consent(consent).unwrap();

    assert!(gate.check_read(&app_b.verifying, &commerce_ns, 5000).is_allowed());
    assert!(!gate.check_write(&app_b.verifying, &commerce_ns, 5000).is_allowed());
    assert!(!gate.check_read(&app_b.verifying, &health_ns, 5000).is_allowed());

    let agent = KeyPair::generate();

    let delegation = DelegationCredential::new(
        &device.signing,
        agent.verifying.clone(),
        vec![DelegationScope::CrossNamespaceQuery, DelegationScope::ReadNamespace],
        vec!["app_a.commerce".into(), "health.vitals".into()],
        1000,
        3600_000,
        100,
    )
    .unwrap();

    assert!(delegation.verify_signature().is_ok(), "delegation signature must verify");
    assert!(delegation.is_valid(5000));
    assert!(delegation.has_scope(&DelegationScope::CrossNamespaceQuery));
    assert!(delegation.has_scope(&DelegationScope::ReadNamespace));
    assert!(!delegation.has_scope(&DelegationScope::WriteNamespace));

    let mut agent_gate = AccessGate::new();
    agent_gate.add_delegation(delegation).unwrap();

    assert!(agent_gate
        .check_cross_namespace_query(&agent.verifying, &[&commerce_ns, &health_ns], 5000)
        .is_allowed());
    assert!(agent_gate.check_read(&agent.verifying, &commerce_ns, 5000).is_allowed());
    assert!(agent_gate.check_read(&agent.verifying, &health_ns, 5000).is_allowed());
    assert!(!agent_gate.check_write(&agent.verifying, &commerce_ns, 5000).is_allowed());

    let finance_ns = Namespace::new("finance.tx".into(), "Finance".into(), device.verifying.clone(), true);
    assert!(!agent_gate
        .check_cross_namespace_query(&agent.verifying, &[&commerce_ns, &finance_ns], 5000)
        .is_allowed());

    let expired_consent = ConsentProof::new_with_timestamp(
        &device.signing,
        ConsentAction::CrossNamespaceRead,
        "Short-lived consent".into(),
        app_b.verifying.to_base64(),
        None,
        1000,
        Some(2000),
    )
    .unwrap();

    let mut expiry_gate = AccessGate::new();
    expiry_gate.add_consent(expired_consent).unwrap();

    assert!(expiry_gate.check_read(&app_b.verifying, &commerce_ns, 1500).is_allowed());
    assert!(!expiry_gate.check_read(&app_b.verifying, &commerce_ns, 3000).is_allowed());

    let revocable_deleg = DelegationCredential::new(
        &device.signing,
        agent.verifying.clone(),
        vec![DelegationScope::ReadNamespace],
        vec![],
        1000,
        3600_000,
        0,
    )
    .unwrap();
    let deleg_id = revocable_deleg.delegation_id.clone();

    let mut revoke_gate = AccessGate::new();
    revoke_gate.add_delegation(revocable_deleg).unwrap();

    assert!(revoke_gate.check_read(&agent.verifying, &commerce_ns, 5000).is_allowed());
    revoke_gate.revoke_delegation(&deleg_id);
    assert!(!revoke_gate.check_read(&agent.verifying, &commerce_ns, 5000).is_allowed());

    expiry_gate.cleanup_expired(5000);
    assert!(expiry_gate.consents.is_empty());

    let updated_listing = Record::new_with_timestamp(
        &device.signing,
        "app_a.commerce.listing".into(),
        "app_a.commerce".into(),
        obj(vec![
            ("title", JsonValue::string("Handmade Ceramic Bowl")),
            ("price", JsonValue::decimal(2999, 2)),
            ("currency", JsonValue::string("USD")),
            (
                "description",
                JsonValue::string("Beautiful hand-thrown ceramic bowl \u{2014} price updated"),
            ),
        ]),
        Some(listing.record_id.clone()),
        3000,
    )
    .unwrap();

    assert_ne!(updated_listing.record_id, listing.record_id);
    assert_eq!(updated_listing.previous_version, Some(listing.record_id.clone()));
    assert!(updated_listing.verify().is_ok());

    engine.put_record(updated_listing, &commerce_main_id).unwrap();

    let listing_count = engine.count_records_by_schema("app_a.commerce.listing", &commerce_main_id).unwrap();
    assert_eq!(listing_count, 4, "should have 4 listing records on main (3 from merge + 1 updated)");

    let health_count = engine.count_records_by_schema("health.vitals.heart_rate", &health_main_id).unwrap();
    assert_eq!(health_count, 1, "should have 1 health record");

    let all_ns = engine.list_namespaces().unwrap();
    assert_eq!(all_ns.len(), 2);

    let commerce_schemas = engine.list_schemas("app_a.commerce").unwrap();
    assert_eq!(commerce_schemas.len(), 1);
    assert_eq!(commerce_schemas[0].id, "app_a.commerce.listing");
}

#[test]
fn integration_memory_engine() {
    let mut engine = MemoryEngine::new();
    run_full_scenario(&mut engine);
}

#[test]
fn integration_write_delegation() {
    let user = KeyPair::generate();
    let app = KeyPair::generate();

    let ns = Namespace::new("shared.notes".into(), "Shared Notes".into(), user.verifying.clone(), false);

    let deleg = DelegationCredential::new(
        &user.signing,
        app.verifying.clone(),
        vec![DelegationScope::WriteNamespace, DelegationScope::ReadNamespace],
        vec!["shared.notes".into()],
        1000,
        3600_000,
        0,
    )
    .unwrap();

    let mut gate = AccessGate::new();
    gate.add_delegation(deleg).unwrap();

    assert!(gate.check_write(&app.verifying, &ns, 5000).is_allowed());
    assert!(gate.check_read(&app.verifying, &ns, 5000).is_allowed());
}

#[test]
fn integration_write_consent() {
    let owner = KeyPair::generate();
    let writer = KeyPair::generate();

    let ns = Namespace::new("collab.doc".into(), "Collab Doc".into(), owner.verifying.clone(), true);

    let consent = ConsentProof::new_with_timestamp(
        &owner.signing,
        ConsentAction::GrantWriteAccess,
        "Grant writer write access to collab.doc".into(),
        writer.verifying.to_base64(),
        Some("collab.doc".into()),
        1000,
        Some(99999),
    )
    .unwrap();

    let mut gate = AccessGate::new();
    gate.add_consent(consent).unwrap();

    assert!(gate.check_write(&writer.verifying, &ns, 5000).is_allowed());
    assert!(!gate.check_read(&writer.verifying, &ns, 5000).is_allowed());
}

#[test]
fn integration_namespace_key_isolation() {
    let master = MasterKey::generate();

    let key_a = master.derive_namespace_key("app.notes");
    let key_b = master.derive_namespace_key("app.photos");

    let plaintext = b"sensitive notes data";
    let encrypted = key_a.encrypt(plaintext);

    assert_eq!(key_a.decrypt(&encrypted).unwrap(), plaintext);
    assert!(key_b.decrypt(&encrypted).is_err());

    let master2 = MasterKey::generate();
    let key_a2 = master2.derive_namespace_key("app.notes");
    assert_ne!(key_a.to_bytes(), key_a2.to_bytes());
    assert!(key_a2.decrypt(&encrypted).is_err());
}

#[test]
fn integration_delegation_query_limit() {
    let user = KeyPair::generate();
    let agent = KeyPair::generate();

    let mut deleg = DelegationCredential::new(
        &user.signing,
        agent.verifying.clone(),
        vec![DelegationScope::ReadNamespace],
        vec![],
        1000,
        3600_000,
        3,
    )
    .unwrap();

    assert!(deleg.is_valid(5000));
    deleg.record_query();
    assert!(deleg.is_valid(5000));
    deleg.record_query();
    assert!(deleg.is_valid(5000));
    deleg.record_query();
    assert!(!deleg.is_valid(5000), "delegation should be exhausted after 3 queries");
}

#[test]
fn integration_schema_validation() {
    let mut registry = SchemaRegistry::new();
    registry.register(listing_schema()).unwrap();

    let valid = obj(vec![
        ("title", JsonValue::string("Widget")),
        ("price", JsonValue::decimal(999, 2)),
        ("currency", JsonValue::string("EUR")),
    ]);
    assert!(registry.validate_data("app_a.commerce.listing", &valid).is_ok());

    let missing_price = obj(vec![
        ("title", JsonValue::string("Widget")),
        ("currency", JsonValue::string("EUR")),
    ]);
    assert!(registry.validate_data("app_a.commerce.listing", &missing_price).is_err());

    let wrong_type = obj(vec![
        ("title", JsonValue::string("Widget")),
        ("price", JsonValue::string("not a number")),
        ("currency", JsonValue::string("EUR")),
    ]);
    assert!(registry.validate_data("app_a.commerce.listing", &wrong_type).is_err());

    assert!(registry.validate_data("nonexistent.schema", &valid).is_err());
}

#[test]
fn integration_record_tamper_detection() {
    let device = KeyPair::generate();

    let mut record = Record::new_with_timestamp(
        &device.signing,
        "test.schema".into(),
        "test.ns".into(),
        obj(vec![("key", JsonValue::string("value"))]),
        None,
        1000,
    )
    .unwrap();

    assert!(record.verify().is_ok());

    record.data = obj(vec![("key", JsonValue::string("tampered"))]);
    assert!(record.verify().is_err(), "tampered record must fail verification");
}
