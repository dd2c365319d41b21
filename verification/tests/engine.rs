use hellodb::auth::access::AccessGate;
use hellodb::auth::consent::{ConsentAction, ConsentProof};
use hellodb::auth::delegation::{DelegationCredential, DelegationScope};
use hellodb::crypto::identity::KeyPair;
use hellodb::error::QueryError;
use hellodb::json::{json_equal, JsonValue};
use hellodb::namespace::Namespace;
use hellodb::query::engine::{namespace_of_branch, QueryEngine};
use hellodb::query::filter::Filter;
use hellodb::query::query::Query;
use hellodb::query::sort::SortField;
use hellodb::record::Record;
use hellodb::schema::{FieldType, Schema, SchemaField};
use hellodb::storage::engine::StorageEngine;
use hellodb::storage::memory::MemoryEngine;

fn obj(pairs: Vec<(&str, JsonValue)>) -> JsonValue {
    JsonValue::object(pairs.into_iter().map(|(k, v)| (k.to_string(), v)).collect())
}

fn listing(title: &str, price_cents: i64, currency: &str) -> JsonValue {
    obj(vec![
        ("title", JsonValue::string(title)),
        ("price", JsonValue::decimal(price_cents, 2)),
        ("currency", JsonValue::string(currency)),
    ])
}

fn field_is(rec: &Record, field: &str, expected: JsonValue) -> bool {
    match rec.data.get(field) {
        Some(v) => json_equal(v, &expected),
        None => false,
    }
}

fn setup() -> (MemoryEngine, KeyPair, KeyPair, KeyPair) {
    let mut engine = MemoryEngine::new();
    let owner = KeyPair::generate();
    let app_b = KeyPair::generate();
    let agent = KeyPair::generate();

    let ns = Namespace::new("commerce".into(), "Commerce".into(), owner.verifying.clone(), false);
    engine.create_namespace(ns).unwrap();

    let schema = Schema {
        id: "commerce.listing".into(),
        version: "1".into(),
        namespace: "commerce".into(),
        name: "Listing".into(),
        fields: vec![
            SchemaField {
                name: "title".into(),
                field_type: FieldType::String,
                required: true,
                description: None,
            },
            SchemaField {
                name: "price".into(),
                field_type: FieldType::Float,
                required: true,
                description: None,
            },
            SchemaField {
                name: "currency".into(),
                field_type: FieldType::String,
                required: true,
                description: None,
            },
        ],
        registered_at_ms: 1000,
    };
    engine.register_schema(schema).unwrap();

    let listings = vec![
        listing("Ceramic Bowl", 2499, "USD"),
        listing("Honey Jar", 1250, "USD"),
        listing("Woven Basket", 3999, "EUR"),
        listing("Glass Vase", 5500, "USD"),
        listing("Candle Set", 1875, "EUR"),
    ];

    for (i, data) in listings.into_iter().enumerate() {
        let rec = Record::new_with_timestamp(
            &owner.signing,
            "commerce.listing".into(),
            "commerce".into(),
            data,
            None,
            1000 + i as u64,
        )
        .unwrap();
        engine.put_record(rec, "commerce/main").unwrap();
    }

    (engine, owner, app_b, agent)
}

#[test]
fn basic_query_no_filter() {
    let (engine, owner, _, _) = setup();
    let gate = AccessGate::new();
    let qe = QueryEngine::new(&engine, &gate);

    let result = qe
        .execute(&Query::new().namespace("commerce"), &owner.verifying, "commerce/main", 5000)
        .unwrap();

    assert_eq!(result.records.len(), 5);
    assert_eq!(result.total_count, 5);
    assert!(!result.has_more);
}

#[test]
fn filtered_query() {
    let (engine, owner, _, _) = setup();
    let gate = AccessGate::new();
    let qe = QueryEngine::new(&engine, &gate);

    let result = qe
        .execute(
            &Query::new()
                .namespace("commerce")
                .filter(Filter::Eq("currency".into(), JsonValue::string("USD"))),
            &owner.verifying,
            "commerce/main",
            5000,
        )
        .unwrap();

    assert_eq!(result.records.len(), 3);
    for rec in &result.records {
        assert!(field_is(rec, "currency", JsonValue::string("USD")));
    }
}

#[test]
fn sorted_query() {
    let (engine, owner, _, _) = setup();
    let gate = AccessGate::new();
    let qe = QueryEngine::new(&engine, &gate);

    let result = qe
        .execute(
            &Query::new().namespace("commerce").sort(SortField::asc("price")),
            &owner.verifying,
            "commerce/main",
            5000,
        )
        .unwrap();

    let expected = [1250, 1875, 2499, 3999, 5500];
    assert_eq!(result.records.len(), expected.len());
    for (rec, cents) in result.records.iter().zip(expected.iter()) {
        assert!(field_is(rec, "price", JsonValue::decimal(*cents, 2)));
    }
}

#[test]
fn paginated_query() {
    let (engine, owner, _, _) = setup();
    let gate = AccessGate::new();
    let qe = QueryEngine::new(&engine, &gate);

    let page1 = qe
        .execute(
            &Query::new().namespace("commerce").sort(SortField::asc("price")).limit(2),
            &owner.verifying,
            "commerce/main",
            5000,
        )
        .unwrap();

    assert_eq!(page1.records.len(), 2);
    assert!(page1.has_more);
    assert!(page1.next_cursor.is_some());

    let page2 = qe
        .execute(
            &Query::new()
                .namespace("commerce")
                .sort(SortField::asc("price"))
                .limit(2)
                .after(page1.next_cursor.clone().unwrap()),
            &owner.verifying,
            "commerce/main",
            5000,
        )
        .unwrap();

    assert_eq!(page2.records.len(), 2);
    assert_ne!(page1.records[0].record_id, page2.records[0].record_id);
}

#[test]
fn access_denied_without_consent() {
    let (engine, _, app_b, _) = setup();
    let gate = AccessGate::new();
    let qe = QueryEngine::new(&engine, &gate);

    let result = qe.execute(&Query::new().namespace("commerce"), &app_b.verifying, "commerce/main", 5000);

    assert!(result.is_err());
    assert!(matches!(result, Err(QueryError::AccessDenied(_))));
}

#[test]
fn access_with_consent() {
    let (engine, owner, app_b, _) = setup();
    let mut gate = AccessGate::new();

    let consent = ConsentProof::new_with_timestamp(
        &owner.signing,
        ConsentAction::CrossNamespaceRead,
        "Grant read".into(),
        app_b.verifying.to_base64(),
        Some("commerce".into()),
        1000,
        Some(99999),
    )
    .unwrap();
    gate.add_consent(consent).unwrap();

    let qe = QueryEngine::new(&engine, &gate);
    let result = qe
        .execute(&Query::new().namespace("commerce"), &app_b.verifying, "commerce/main", 5000)
        .unwrap();

    assert_eq!(result.records.len(), 5);
}

#[test]
fn cross_namespace_query_with_delegation() {
    let (mut engine, owner, _, agent) = setup();

    let health_ns = Namespace::new("health".into(), "Health".into(), owner.verifying.clone(), false);
    engine.create_namespace(health_ns).unwrap();

    let hr = Record::new_with_timestamp(
        &owner.signing,
        "health.vitals".into(),
        "health".into(),
        obj(vec![("bpm", JsonValue::integer(72)), ("device", JsonValue::string("watch"))]),
        None,
        2000,
    )
    .unwrap();
    engine.put_record(hr, "health/main").unwrap();

    let deleg = DelegationCredential::new(
        &owner.signing,
        agent.verifying.clone(),
        vec![DelegationScope::CrossNamespaceQuery, DelegationScope::ReadNamespace],
        vec!["commerce".into(), "health".into()],
        1000,
        3_600_000,
        100,
    )
    .unwrap();

    let mut gate = AccessGate::new();
    gate.add_delegation(deleg).unwrap();

    let qe = QueryEngine::new(&engine, &gate);
    let result = qe
        .execute_cross_namespace(
            &Query::new(),
            &agent.verifying,
            &[("commerce", "commerce/main"), ("health", "health/main")],
            5000,
        )
        .unwrap();

    assert_eq!(result.records.len(), 6);
}

#[test]
fn cross_namespace_denied_without_delegation() {
    let (engine, _, _, agent) = setup();
    let gate = AccessGate::new();
    let qe = QueryEngine::new(&engine, &gate);

    let result = qe.execute_cross_namespace(
        &Query::new(),
        &agent.verifying,
        &[("commerce", "commerce/main")],
        5000,
    );

    assert!(result.is_err());
    assert!(matches!(result, Err(QueryError::AccessDenied(_))));
}

#[test]
fn count_query() {
    let (engine, owner, _, _) = setup();
    let gate = AccessGate::new();
    let qe = QueryEngine::new(&engine, &gate);

    let count = qe
        .count(
            &Query::new().schema("commerce.listing").namespace("commerce"),
            &owner.verifying,
            "commerce/main",
            5000,
        )
        .unwrap();
    assert_eq!(count, 5);

    let count = qe
        .count(
            &Query::new()
                .namespace("commerce")
                .filter(Filter::Gt("price".into(), JsonValue::decimal(250, 1))),
            &owner.verifying,
            "commerce/main",
            5000,
        )
        .unwrap();
    assert_eq!(count, 2);
}

#[test]
fn query_by_schema() {
    let (engine, owner, _, _) = setup();
    let gate = AccessGate::new();
    let qe = QueryEngine::new(&engine, &gate);

    let result = qe
        .execute(
            &Query::new().schema("commerce.listing").namespace("commerce"),
            &owner.verifying,
            "commerce/main",
            5000,
        )
        .unwrap();

    assert_eq!(result.records.len(), 5);
    for rec in &result.records {
        assert_eq!(rec.schema, "commerce.listing");
    }
}

#[test]
fn empty_result() {
    let (engine, owner, _, _) = setup();
    let gate = AccessGate::new();
    let qe = QueryEngine::new(&engine, &gate);

    let result = qe
        .execute(
            &Query::new()
                .namespace("commerce")
                .filter(Filter::Eq("currency".into(), JsonValue::string("JPY"))),
            &owner.verifying,
            "commerce/main",
            5000,
        )
        .unwrap();

    assert_eq!(result.records.len(), 0);
    assert_eq!(result.total_count, 0);
    assert!(!result.has_more);
}

#[test]
fn range_filter() {
    let (engine, owner, _, _) = setup();
    let gate = AccessGate::new();
    let qe = QueryEngine::new(&engine, &gate);

    let result = qe
        .execute(
            &Query::new().namespace("commerce").filter(Filter::And(vec![
                Filter::Gte("price".into(), JsonValue::decimal(150, 1)),
                Filter::Lte("price".into(), JsonValue::decimal(400, 1)),
            ])),
            &owner.verifying,
            "commerce/main",
            5000,
        )
        .unwrap();

    assert_eq!(result.records.len(), 3);
}

#[test]
fn pages_cover_everything_once() {
    let (engine, owner, _, _) = setup();
    let gate = AccessGate::new();
    let qe = QueryEngine::new(&engine, &gate);
    let mut seen: Vec<String> = Vec::new();
    let mut cursor = None;
    loop {
        let mut q = Query::new().namespace("commerce").sort(SortField::asc("price")).limit(2);
        if let Some(c) = cursor.take() {
            q = q.after(c);
        }
        let page = qe.execute(&q, &owner.verifying, "commerce/main", 5000).unwrap();
        assert_eq!(page.total_count, 5);
        for r in &page.records {
            seen.push(r.record_id.clone());
        }
        if !page.has_more {
            break;
        }
        cursor = page.next_cursor;
    }
    assert_eq!(seen.len(), 5);
    let mut unique = seen.clone();
    unique.sort();
    unique.dedup();
    assert_eq!(unique.len(), 5);
}

#[test]
fn offset_and_missing_namespace() {
    let (engine, owner, _, _) = setup();
    let gate = AccessGate::new();
    let qe = QueryEngine::new(&engine, &gate);
    let page = qe
        .execute(
            &Query::new().namespace("commerce").sort(SortField::asc("price")).offset(3),
            &owner.verifying,
            "commerce/main",
            5000,
        )
        .unwrap();
    assert_eq!(page.records.len(), 2);
    assert!(field_is(&page.records[0], "price", JsonValue::decimal(3999, 2)));
    let missing = qe.execute(&Query::new().namespace("nope"), &owner.verifying, "nope/main", 5000);
    assert!(matches!(missing, Err(QueryError::NamespaceNotFound(_))));
    assert_eq!(namespace_of_branch("a.b/feature"), "a.b");
    assert_eq!(namespace_of_branch("plain"), "plain");
}

#[test]
fn count_matches_the_total_of_pages() {
    let (engine, owner, _, _) = setup();
    let gate = AccessGate::new();
    let qe = QueryEngine::new(&engine, &gate);
    let filters = vec![
        Filter::Gt("price".into(), JsonValue::decimal(250, 1)),
        Filter::Eq("currency".into(), JsonValue::string("USD")),
    ];
    for f in filters {
        let q = Query::new().namespace("commerce").filter(f).limit(1);
        let counted = qe.count(&q, &owner.verifying, "commerce/main", 5000).unwrap();
        let page = qe.execute(&q, &owner.verifying, "commerce/main", 5000).unwrap();
        assert_eq!(counted, page.total_count);
    }
    let q = Query::new().schema("commerce.listing").limit(2);
    let counted = qe.count(&q, &owner.verifying, "commerce/main", 5000).unwrap();
    let page = qe.execute(&q, &owner.verifying, "commerce/main", 5000).unwrap();
    assert_eq!(counted, page.total_count);
    assert_eq!(counted, 5);
}

#[test]
fn second_page_continues_the_first() {
    let (engine, owner, _, _) = setup();
    let gate = AccessGate::new();
    let qe = QueryEngine::new(&engine, &gate);
    let base = || Query::new().namespace("commerce").sort(SortField::desc("price"));
    let whole = qe.execute(&base().limit(100), &owner.verifying, "commerce/main", 5000).unwrap();
    let first = qe.execute(&base().limit(2), &owner.verifying, "commerce/main", 5000).unwrap();
    let second = qe
        .execute(&base().limit(2).after(first.next_cursor.clone().unwrap()), &owner.verifying, "commerce/main", 5000)
        .unwrap();
    let joined: Vec<String> = first.records.iter().chain(second.records.iter()).map(|r| r.record_id.clone()).collect();
    let expected: Vec<String> = whole.records.iter().take(4).map(|r| r.record_id.clone()).collect();
    assert_eq!(joined, expected);
}
