use hellodb::crypto::identity::KeyPair;
use hellodb::json::{json_equal, JsonValue};
use hellodb::query::sort::{apply_sort, SortField};
use hellodb::record::Record;

fn obj(pairs: Vec<(&str, JsonValue)>) -> JsonValue {
    JsonValue::object(pairs.into_iter().map(|(k, v)| (k.to_string(), v)).collect())
}

fn make_record(data: JsonValue, ts: u64) -> Record {
    let kp = KeyPair::generate();
    Record::new_with_timestamp(&kp.signing, "test.schema".into(), "test.ns".into(), data, None, ts)
        .unwrap()
}

fn field_is(rec: &Record, field: &str, expected: JsonValue) -> bool {
    match rec.data.get(field) {
        Some(v) => json_equal(v, &expected),
        None => false,
    }
}

#[test]
fn sort_by_created_at_asc() {
    let mut records = vec![
        make_record(obj(vec![]), 3000),
        make_record(obj(vec![]), 1000),
        make_record(obj(vec![]), 2000),
    ];
    apply_sort(&mut records, &[SortField::asc("created_at_ms")]);
    assert_eq!(records[0].created_at_ms, 1000);
    assert_eq!(records[1].created_at_ms, 2000);
    assert_eq!(records[2].created_at_ms, 3000);
}

#[test]
fn sort_by_field_desc() {
    let mut records = vec![
        make_record(obj(vec![("price", JsonValue::decimal(100, 1))]), 1000),
        make_record(obj(vec![("price", JsonValue::decimal(300, 1))]), 1000),
        make_record(obj(vec![("price", JsonValue::decimal(200, 1))]), 1000),
    ];
    apply_sort(&mut records, &[SortField::desc("price")]);
    assert!(field_is(&records[0], "price", JsonValue::decimal(300, 1)));
    assert!(field_is(&records[1], "price", JsonValue::decimal(200, 1)));
    assert!(field_is(&records[2], "price", JsonValue::decimal(100, 1)));
}

#[test]
fn multi_field_sort() {
    let mut records = vec![
        make_record(
            obj(vec![("category", JsonValue::string("B")), ("price", JsonValue::decimal(200, 1))]),
            1000,
        ),
        make_record(
            obj(vec![("category", JsonValue::string("A")), ("price", JsonValue::decimal(300, 1))]),
            1000,
        ),
        make_record(
            obj(vec![("category", JsonValue::string("A")), ("price", JsonValue::decimal(100, 1))]),
            1000,
        ),
    ];
    apply_sort(&mut records, &[SortField::asc("category"), SortField::asc("price")]);
    assert!(field_is(&records[0], "category", JsonValue::string("A")));
    assert!(field_is(&records[0], "price", JsonValue::decimal(100, 1)));
    assert!(field_is(&records[1], "category", JsonValue::string("A")));
    assert!(field_is(&records[1], "price", JsonValue::decimal(300, 1)));
    assert!(field_is(&records[2], "category", JsonValue::string("B")));
}

#[test]
fn missing_field_sorts_last() {
    let mut records = vec![
        make_record(obj(vec![]), 1000),
        make_record(obj(vec![("score", JsonValue::integer(50))]), 1000),
        make_record(obj(vec![("score", JsonValue::integer(10))]), 1000),
    ];
    apply_sort(&mut records, &[SortField::asc("score")]);
    assert!(field_is(&records[0], "score", JsonValue::integer(10)));
    assert!(field_is(&records[1], "score", JsonValue::integer(50)));
    assert!(records[2].data.get("score").is_none());
}

#[test]
fn empty_sort_preserves_order() {
    let r1 = make_record(obj(vec![("id", JsonValue::integer(1))]), 1000);
    let r2 = make_record(obj(vec![("id", JsonValue::integer(2))]), 2000);
    let id1 = r1.record_id.clone();
    let id2 = r2.record_id.clone();
    let mut records = vec![r1, r2];
    apply_sort(&mut records, &[]);
    assert_eq!(records[0].record_id, id1);
    assert_eq!(records[1].record_id, id2);
}

#[test]
fn sort_is_stable_and_desc_reverses_missing_too() {
    let a = make_record(obj(vec![("k", JsonValue::integer(1)), ("tag", JsonValue::string("a"))]), 1);
    let b = make_record(obj(vec![("tag", JsonValue::string("b"))]), 2);
    let c = make_record(obj(vec![("k", JsonValue::integer(1)), ("tag", JsonValue::string("c"))]), 3);
    let d = make_record(obj(vec![("k", JsonValue::integer(2)), ("tag", JsonValue::string("d"))]), 4);
    let mut records = vec![a, b, c, d];
    apply_sort(&mut records, &[SortField::desc("k")]);
    let tags: Vec<String> = records
        .iter()
        .map(|r| match r.data.get("tag") {
            Some(JsonValue::String(s)) => s.clone(),
            _ => String::new(),
        })
        .collect();
    assert_eq!(tags, vec!["b", "d", "a", "c"]);
}
