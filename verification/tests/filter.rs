use std::cmp::Ordering;

use hellodb::crypto::identity::KeyPair;
use hellodb::json::JsonValue;
use hellodb::query::filter::{compare_values, Filter};
use hellodb::record::Record;

fn obj(pairs: Vec<(&str, JsonValue)>) -> JsonValue {
    JsonValue::object(pairs.into_iter().map(|(k, v)| (k.to_string(), v)).collect())
}

fn s(v: &str) -> JsonValue {
    JsonValue::string(v)
}

fn i(v: i64) -> JsonValue {
    JsonValue::integer(v)
}

fn f(mantissa: i64, scale: u32) -> JsonValue {
    JsonValue::decimal(mantissa, scale)
}

fn b(v: bool) -> JsonValue {
    JsonValue::boolean(v)
}

fn make_record(data: JsonValue) -> Record {
    let kp = KeyPair::generate();
    Record::new_with_timestamp(&kp.signing, "test.schema".into(), "test.ns".into(), data, None, 5000)
        .unwrap()
}

fn make_record_with_key(data: JsonValue, kp: &KeyPair, ts: u64) -> Record {
    Record::new_with_timestamp(&kp.signing, "test.schema".into(), "test.ns".into(), data, None, ts)
        .unwrap()
}

#[test]
fn eq_filter() {
    let rec = make_record(obj(vec![("name", s("Alice")), ("age", i(30))]));
    assert!(Filter::Eq("name".into(), s("Alice")).matches(&rec));
    assert!(!Filter::Eq("name".into(), s("Bob")).matches(&rec));
    assert!(Filter::Eq("age".into(), i(30)).matches(&rec));
}

#[test]
fn ne_filter() {
    let rec = make_record(obj(vec![("name", s("Alice"))]));
    assert!(Filter::Ne("name".into(), s("Bob")).matches(&rec));
    assert!(!Filter::Ne("name".into(), s("Alice")).matches(&rec));
    assert!(Filter::Ne("missing".into(), s("anything")).matches(&rec));
}

#[test]
fn gt_lt_filter() {
    let rec = make_record(obj(vec![("price", f(250, 1))]));
    assert!(Filter::Gt("price".into(), f(200, 1)).matches(&rec));
    assert!(!Filter::Gt("price".into(), f(300, 1)).matches(&rec));
    assert!(Filter::Lt("price".into(), f(300, 1)).matches(&rec));
    assert!(!Filter::Lt("price".into(), f(200, 1)).matches(&rec));
}

#[test]
fn gte_lte_filter() {
    let rec = make_record(obj(vec![("score", i(100))]));
    assert!(Filter::Gte("score".into(), i(100)).matches(&rec));
    assert!(Filter::Gte("score".into(), i(99)).matches(&rec));
    assert!(!Filter::Gte("score".into(), i(101)).matches(&rec));
    assert!(Filter::Lte("score".into(), i(100)).matches(&rec));
    assert!(Filter::Lte("score".into(), i(101)).matches(&rec));
    assert!(!Filter::Lte("score".into(), i(99)).matches(&rec));
}

#[test]
fn contains_starts_with() {
    let rec = make_record(obj(vec![("title", s("Handmade Ceramic Bowl"))]));
    assert!(Filter::Contains("title".into(), "Ceramic".into()).matches(&rec));
    assert!(!Filter::Contains("title".into(), "Glass".into()).matches(&rec));
    assert!(Filter::StartsWith("title".into(), "Hand".into()).matches(&rec));
    assert!(!Filter::StartsWith("title".into(), "Cera".into()).matches(&rec));
}

#[test]
fn created_by_filter() {
    let kp = KeyPair::generate();
    let other = KeyPair::generate();
    let rec = make_record_with_key(obj(vec![("x", i(1))]), &kp, 5000);
    assert!(Filter::CreatedBy(kp.verifying.clone()).matches(&rec));
    assert!(!Filter::CreatedBy(other.verifying).matches(&rec));
}

#[test]
fn created_time_filters() {
    let rec = make_record(obj(vec![("x", i(1))]));
    assert!(Filter::CreatedAfter(4000).matches(&rec));
    assert!(!Filter::CreatedAfter(6000).matches(&rec));
    assert!(Filter::CreatedBefore(6000).matches(&rec));
    assert!(!Filter::CreatedBefore(4000).matches(&rec));
}

#[test]
fn has_previous_version() {
    let kp = KeyPair::generate();
    let rec = Record::new_with_timestamp(
        &kp.signing,
        "test.schema".into(),
        "test.ns".into(),
        obj(vec![("v", i(2))]),
        Some("prev-id".into()),
        5000,
    )
    .unwrap();
    assert!(Filter::HasPreviousVersion.matches(&rec));

    let rec_no_prev = make_record(obj(vec![("v", i(1))]));
    assert!(!Filter::HasPreviousVersion.matches(&rec_no_prev));
}

#[test]
fn and_combinator() {
    let rec = make_record(obj(vec![("price", f(250, 1)), ("currency", s("USD"))]));
    let filter = Filter::And(vec![
        Filter::Gt("price".into(), f(200, 1)),
        Filter::Eq("currency".into(), s("USD")),
    ]);
    assert!(filter.matches(&rec));

    let filter_fail = Filter::And(vec![
        Filter::Gt("price".into(), f(200, 1)),
        Filter::Eq("currency".into(), s("EUR")),
    ]);
    assert!(!filter_fail.matches(&rec));
}

#[test]
fn or_combinator() {
    let rec = make_record(obj(vec![("status", s("active"))]));
    let filter = Filter::Or(vec![
        Filter::Eq("status".into(), s("active")),
        Filter::Eq("status".into(), s("pending")),
    ]);
    assert!(filter.matches(&rec));

    let filter_fail = Filter::Or(vec![
        Filter::Eq("status".into(), s("closed")),
        Filter::Eq("status".into(), s("pending")),
    ]);
    assert!(!filter_fail.matches(&rec));
}

#[test]
fn not_combinator() {
    let rec = make_record(obj(vec![("active", b(true))]));
    assert!(Filter::Not(Box::new(Filter::Eq("active".into(), b(false)))).matches(&rec));
    assert!(!Filter::Not(Box::new(Filter::Eq("active".into(), b(true)))).matches(&rec));
}

#[test]
fn nested_combinators() {
    let rec = make_record(obj(vec![
        ("price", f(500, 1)),
        ("currency", s("USD")),
        ("in_stock", b(true)),
    ]));
    let filter = Filter::Or(vec![
        Filter::And(vec![
            Filter::Gt("price".into(), f(400, 1)),
            Filter::Eq("currency".into(), s("USD")),
        ]),
        Filter::Eq("in_stock".into(), b(false)),
    ]);
    assert!(filter.matches(&rec));
}

#[test]
fn missing_field_returns_false_for_comparisons() {
    let rec = make_record(obj(vec![("name", s("test"))]));
    assert!(!Filter::Eq("missing".into(), s("val")).matches(&rec));
    assert!(!Filter::Gt("missing".into(), i(0)).matches(&rec));
    assert!(!Filter::Contains("missing".into(), "x".into()).matches(&rec));
}

#[test]
fn compare_values_types() {
    assert_eq!(compare_values(&i(10), &i(5)), Some(Ordering::Greater));
    assert_eq!(compare_values(&i(5), &i(10)), Some(Ordering::Less));
    assert_eq!(compare_values(&i(5), &i(5)), Some(Ordering::Equal));
    assert_eq!(compare_values(&s("b"), &s("a")), Some(Ordering::Greater));
    assert_eq!(compare_values(&b(true), &b(false)), Some(Ordering::Greater));
    assert_eq!(compare_values(&s("str"), &i(5)), None);
}

#[test]
fn numbers_compare_across_representations() {
    assert_eq!(compare_values(&i(3), &f(30, 1)), Some(Ordering::Equal));
    assert_eq!(compare_values(&i(-1), &f(-5, 1)), Some(Ordering::Less));
    assert_eq!(compare_values(&JsonValue::uint(u64::MAX), &i(-1)), Some(Ordering::Greater));
    assert_eq!(compare_values(&JsonValue::null(), &JsonValue::null()), Some(Ordering::Equal));
    let rec = make_record(obj(vec![("n", i(3))]));
    assert!(!Filter::Eq("n".into(), f(30, 1)).matches(&rec));
    assert!(Filter::Gte("n".into(), f(30, 1)).matches(&rec));
}

#[test]
fn empty_combinators() {
    let rec = make_record(obj(vec![]));
    assert!(Filter::And(vec![]).matches(&rec));
    assert!(!Filter::Or(vec![]).matches(&rec));
}
