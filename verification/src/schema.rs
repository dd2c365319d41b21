//! Schema definitions and the schema registry.
//!
//! Apps register schemas before writing records. A schema defines the
//! expected shape of record data within a namespace. Schema IDs use
//! dot-notation: "app.domain.type" (e.g. "ainp.commerce.listing").

use vstd::prelude::*;
use vstd::string::*;
use crate::error::CoreError;
use crate::json::{JsonNumber, JsonValue, JsonView, field_of, get_field, views_of, lemma_views_of,
    str_equal};
use crate::strings::{concat, concat3, u64_to_string, decimal_text};

verus! {

broadcast use vstd::std_specs::vec::group_vec_axioms, vstd::seq::group_seq_axioms;

/// Field types supported by schemas.
#[derive(Debug, PartialEq, Eq)]
pub enum FieldType {
    /// UTF-8 string.
    String,
    /// Signed 64-bit integer.
    Integer,
    /// Any number.
    Float,
    /// Boolean.
    Boolean,
    /// Unix timestamp in milliseconds.
    Timestamp,
    /// Content-addressed blob reference, stored as a hex string.
    Blob,
    /// Arbitrary nested JSON.
    Json,
    /// Ordered array of a single element type.
    Array(Box<FieldType>),
    /// Optional wrapper around another type.
    Optional(Box<FieldType>),
}

impl Clone for FieldType {
    fn clone(&self) -> (r: Self)
        ensures
            r == *self,
        decreases self,
    {
        match self {
            FieldType::String => FieldType::String,
            FieldType::Integer => FieldType::Integer,
            FieldType::Float => FieldType::Float,
            FieldType::Boolean => FieldType::Boolean,
            FieldType::Timestamp => FieldType::Timestamp,
            FieldType::Blob => FieldType::Blob,
            FieldType::Json => FieldType::Json,
            FieldType::Array(inner) => FieldType::Array(Box::new((**inner).clone())),
            FieldType::Optional(inner) => FieldType::Optional(Box::new((**inner).clone())),
        }
    }
}

/// A single field in a schema.
#[derive(Debug)]
pub struct SchemaField {
    /// Field name.
    pub name: String,
    /// Field type.
    pub field_type: FieldType,
    /// Whether this field must be present.
    pub required: bool,
    /// Human-readable description.
    pub description: Option<String>,
}

impl Clone for SchemaField {
    fn clone(&self) -> (r: Self)
        ensures
            r == *self,
    {
        let description = match &self.description {
            Some(d) => Some(d.clone()),
            None => None,
        };
        SchemaField {
            name: self.name.clone(),
            field_type: self.field_type.clone(),
            required: self.required,
            description,
        }
    }
}

/// A schema for a record type within a namespace.
#[derive(Debug)]
pub struct Schema {
    /// Fully qualified schema ID (e.g. "ainp.commerce.listing").
    pub id: String,
    /// Schema version (semantic versioning).
    pub version: String,
    /// The namespace this schema belongs to.
    pub namespace: String,
    /// Human-readable name.
    pub name: String,
    /// The fields of the schema.
    pub fields: Vec<SchemaField>,
    /// Registration time (ms since epoch).
    pub registered_at_ms: u64,
}

impl Clone for Schema {
    fn clone(&self) -> (r: Self)
        ensures
            r.id == self.id,
            r.version == self.version,
            r.namespace == self.namespace,
            r.name == self.name,
            r.fields@ == self.fields@,
            r.registered_at_ms == self.registered_at_ms,
    {
        let mut fields: Vec<SchemaField> = Vec::new();
        let mut i: usize = 0;
        while i < self.fields.len()
            invariant
                i <= self.fields@.len(),
                fields@ == self.fields@.take(i as int),
            decreases self.fields@.len() - i,
        {
            fields.push(self.fields[i].clone());
            assert(self.fields@.take(i + 1) =~= self.fields@.take(i as int).push(self.fields@[i as int]));
            i += 1;
        }
        assert(self.fields@.take(self.fields@.len() as int) =~= self.fields@);
        Schema {
            id: self.id.clone(),
            version: self.version.clone(),
            namespace: self.namespace.clone(),
            name: self.name.clone(),
            fields,
            registered_at_ms: self.registered_at_ms,
        }
    }
}

// ---------------------------------------------------------------------------
// Conformance
// ---------------------------------------------------------------------------

/// Whether a JSON value has the given field type. Integers and timestamps
/// must be integral numbers; an optional value may be `null`; every item
/// of an array must have the element type.
pub open spec fn conforms(v: JsonView, t: FieldType) -> bool
    decreases t, 0nat,
{
    match t {
        FieldType::String => v is Str,
        FieldType::Blob => v is Str,
        FieldType::Integer => v matches JsonView::Number(n) && !(n is Float),
        FieldType::Timestamp => v matches JsonView::Number(n) && !(n is Float),
        FieldType::Float => v is Number,
        FieldType::Boolean => v is Bool,
        FieldType::Json => true,
        FieldType::Array(inner) => match v {
            JsonView::Array(items) => all_conform(items, *inner),
            _ => false,
        },
        FieldType::Optional(inner) => v is Null || conforms(v, *inner),
    }
}

/// Whether every item of `items` has type `t`.
pub open spec fn all_conform(items: Seq<JsonView>, t: FieldType) -> bool
    decreases t, items.len() + 1,
{
    if items.len() == 0 {
        true
    } else {
        all_conform(items.drop_last(), t) && conforms(items.last(), t)
    }
}

pub proof fn lemma_all_conform(items: Seq<JsonView>, t: FieldType)
    ensures
        all_conform(items, t) <==> forall|i: int| 0 <= i < items.len() ==> conforms(#[trigger] items[i], t),
    decreases items.len(),
{
    if items.len() > 0 {
        lemma_all_conform(items.drop_last(), t);
        if all_conform(items, t) {
            assert forall|i: int| 0 <= i < items.len() implies conforms(#[trigger] items[i], t) by {
                if i < items.len() - 1 {
                    assert(items.drop_last()[i] == items[i]);
                }
            }
        }
        if forall|i: int| 0 <= i < items.len() ==> conforms(#[trigger] items[i], t) {
            assert forall|i: int| 0 <= i < items.drop_last().len() implies conforms(#[trigger] items.drop_last()[i], t) by {
                assert(items.drop_last()[i] == items[i]);
            }
            assert(conforms(items[items.len() - 1], t));
        }
    }
}

/// Whether the object `data` satisfies one schema field: present when
/// required, and of the field's type when present.
pub open spec fn field_satisfied(f: SchemaField, data: JsonView) -> bool {
    &&& f.required ==> field_of(data, f.name@) is Some
    &&& field_of(data, f.name@) matches Some(v) ==> conforms(v, f.field_type)
}

/// Whether `data` is an object that satisfies every field of `s`.
pub open spec fn data_conforms(s: Schema, data: JsonView) -> bool {
    &&& data is Object
    &&& forall|i: int| 0 <= i < s.fields@.len() ==> field_satisfied(#[trigger] s.fields@[i], data)
}

/// The name of a JSON value's kind.
pub open spec fn kind_name(v: JsonView) -> Seq<char> {
    match v {
        JsonView::Null => "null"@,
        JsonView::Bool(_) => "boolean"@,
        JsonView::Number(_) => "number"@,
        JsonView::Str(_) => "string"@,
        JsonView::Array(_) => "array"@,
        JsonView::Object(_) => "object"@,
    }
}

/// The name of a JSON value's kind, as used in validation messages.
pub fn value_type_name(value: &JsonValue) -> (r: &'static str)
    ensures
        r@ == kind_name(value@),
{
    match value {
        JsonValue::Null => "null",
        JsonValue::Bool(_) => "boolean",
        JsonValue::Number(_) => "number",
        JsonValue::String(_) => "string",
        JsonValue::Array(_) => "array",
        JsonValue::Object(_) => "object",
    }
}

/// The message for a value of the wrong kind:
/// `field '{field_name}' expected {expected}, got {kind}`.
pub open spec fn type_error_text(field_name: Seq<char>, expected: Seq<char>, value: JsonView) -> Seq<char> {
    "field '"@ + field_name + "' expected "@ + expected + ", got "@ + kind_name(value)
}

/// The name under which the item at `index` of the array field `name` is
/// reported: `{name}[{index}]`.
pub open spec fn item_name(name: Seq<char>, index: nat) -> Seq<char> {
    name + "["@ + decimal_text(index) + "]"@
}

/// The message of the first check that `v` fails against type `t`, the
/// value being reported under `name`; `None` when it passes. A non-null
/// optional value is checked as its inner type; the items of an array are
/// checked in order, each under its own item name.
pub open spec fn field_error(name: Seq<char>, v: JsonView, t: FieldType) -> Option<Seq<char>>
    decreases t, 0nat,
{
    match t {
        FieldType::String => if v is Str { None } else { Some(type_error_text(name, "string"@, v)) },
        FieldType::Integer | FieldType::Timestamp => if v matches JsonView::Number(n) && !(n is Float) {
            None
        } else {
            Some(type_error_text(name, "integer"@, v))
        },
        FieldType::Float => if v is Number { None } else { Some(type_error_text(name, "number"@, v)) },
        FieldType::Boolean => if v is Bool { None } else { Some(type_error_text(name, "boolean"@, v)) },
        FieldType::Blob => if v is Str { None } else { Some(type_error_text(name, "blob (string)"@, v)) },
        FieldType::Json => None,
        FieldType::Array(inner) => match v {
            JsonView::Array(items) => items_error(name, items, *inner),
            _ => Some(type_error_text(name, "array"@, v)),
        },
        FieldType::Optional(inner) => if v is Null { None } else { field_error(name, v, *inner) },
    }
}

/// The message of the first item of `items` (items of the array field
/// `name`) that fails type `t`; `None` when all pass.
pub open spec fn items_error(name: Seq<char>, items: Seq<JsonView>, t: FieldType) -> Option<Seq<char>>
    decreases t, items.len() + 1,
{
    if items.len() == 0 {
        None
    } else {
        match items_error(name, items.drop_last(), t) {
            Some(m) => Some(m),
            None => field_error(item_name(name, (items.len() - 1) as nat), items.last(), t),
        }
    }
}

/// The message of one schema field's check on the object `data`: a missing
/// required field, else the type check of the value when present.
pub open spec fn field_check(f: SchemaField, data: JsonView) -> Option<Seq<char>> {
    match field_of(data, f.name@) {
        None => if f.required { Some("missing required field: "@ + f.name@) } else { None },
        Some(v) => field_error(f.name@, v, f.field_type),
    }
}

/// The message of the first of `fields` whose check fails on `data`.
pub open spec fn fields_error(fields: Seq<SchemaField>, data: JsonView) -> Option<Seq<char>>
    decreases fields.len(),
{
    if fields.len() == 0 {
        None
    } else {
        match fields_error(fields.drop_last(), data) {
            Some(m) => Some(m),
            None => field_check(fields.last(), data),
        }
    }
}

/// The message with which `data` is refused by schema `s`: it is not an
/// object, or the first failing field's message.
pub open spec fn data_error(s: Schema, data: JsonView) -> Option<Seq<char>> {
    if data is Object {
        fields_error(s.fields@, data)
    } else {
        Some("data must be a JSON object"@)
    }
}

proof fn lemma_fields_error_prefix(fields: Seq<SchemaField>, data: JsonView, k: int)
    requires
        0 <= k <= fields.len(),
        fields_error(fields.take(k), data) is Some,
    ensures
        fields_error(fields, data) == fields_error(fields.take(k), data),
    decreases fields.len(),
{
    if k < fields.len() {
        assert(fields.drop_last().take(k) =~= fields.take(k));
        lemma_fields_error_prefix(fields.drop_last(), data, k);
    } else {
        assert(fields.take(k) =~= fields);
    }
}

/// An optional field type accepts `null`, and checks any other value
/// exactly as its inner type does, with the same message.
pub proof fn optional_checks_inner(name: Seq<char>, v: JsonView, t: FieldType)
    requires
        t is Optional,
    ensures
        v is Null ==> conforms(v, t) && field_error(name, v, t) is None,
        !(v is Null) ==> conforms(v, t) == conforms(v, *t->Optional_0) && field_error(name, v, t) == field_error(name,
            v, *t->Optional_0),
{
}

/// What each field type accepts, by the kind of the value: a float field
/// takes every JSON number (integers included), an integer or timestamp
/// field takes the integral numbers only, a string or blob field takes
/// strings, a boolean field booleans, and a JSON field anything; where a
/// value is accepted no message is given.
pub proof fn field_kinds_law(name: Seq<char>, v: JsonView)
    ensures
        (v matches JsonView::Number(_)) ==> conforms(v, FieldType::Float) && field_error(name, v, FieldType::Float) is None,
        !(v matches JsonView::Number(_)) ==> !conforms(v, FieldType::Float) && field_error(name, v, FieldType::Float)
            is Some,
        (v matches JsonView::Number(n) && (n is PosInt || n is NegInt)) ==> conforms(v, FieldType::Integer) && conforms(
            v, FieldType::Timestamp) && conforms(v, FieldType::Float) && field_error(name, v, FieldType::Integer) is None,
        (v matches JsonView::Number(n) && n is Float) ==> !conforms(v, FieldType::Integer) && !conforms(v,
            FieldType::Timestamp) && conforms(v, FieldType::Float),
        (v matches JsonView::Str(_)) <==> conforms(v, FieldType::String),
        (v matches JsonView::Str(_)) <==> conforms(v, FieldType::Blob),
        (v matches JsonView::Bool(_)) <==> conforms(v, FieldType::Boolean),
        conforms(v, FieldType::Json) && field_error(name, v, FieldType::Json) is None,
{
}

/// The message of a rejected value names the field, the expected kind and
/// the kind of the value: `field '{name}' expected {kind}, got {actual}`,
/// where a null value is `null`, a boolean `boolean`, a number `number`, a
/// string `string`, an array `array` and an object `object`.
pub proof fn rejection_messages(name: Seq<char>, v: JsonView)
    ensures
        kind_name(v) == match v {
            JsonView::Null => "null"@,
            JsonView::Bool(_) => "boolean"@,
            JsonView::Number(_) => "number"@,
            JsonView::Str(_) => "string"@,
            JsonView::Array(_) => "array"@,
            JsonView::Object(_) => "object"@,
        },
        !(v is Str) ==> field_error(name, v, FieldType::String) == Some("field '"@ + name + "' expected string, got "@
            + kind_name(v)),
        !(v is Str) ==> field_error(name, v, FieldType::Blob) == Some("field '"@ + name + "' expected blob (string), got "@
            + kind_name(v)),
        !(v is Number) ==> field_error(name, v, FieldType::Float) == Some("field '"@ + name + "' expected number, got "@
            + kind_name(v)),
        !(v is Bool) ==> field_error(name, v, FieldType::Boolean) == Some("field '"@ + name + "' expected boolean, got "@
            + kind_name(v)),
        !conforms(v, FieldType::Integer) ==> field_error(name, v, FieldType::Integer) == Some("field '"@ + name
            + "' expected integer, got "@ + kind_name(v)),
        !conforms(v, FieldType::Timestamp) ==> field_error(name, v, FieldType::Timestamp) == Some("field '"@ + name
            + "' expected integer, got "@ + kind_name(v)),
        forall|inner: FieldType| !(v is Array) ==> #[trigger] field_error(name, v, FieldType::Array(Box::new(inner)))
            == Some("field '"@ + name + "' expected array, got "@ + kind_name(v)),
{
    reveal_strlit("' expected ");
    reveal_strlit(", got ");
    reveal_strlit("string");
    reveal_strlit("blob (string)");
    reveal_strlit("number");
    reveal_strlit("boolean");
    reveal_strlit("integer");
    reveal_strlit("array");
    reveal_strlit("' expected string, got ");
    reveal_strlit("' expected blob (string), got ");
    reveal_strlit("' expected number, got ");
    reveal_strlit("' expected boolean, got ");
    reveal_strlit("' expected integer, got ");
    reveal_strlit("' expected array, got ");
    assert(type_error_text(name, "string"@, v) =~= "field '"@ + name + "' expected string, got "@ + kind_name(v));
    assert(type_error_text(name, "blob (string)"@, v) =~= "field '"@ + name + "' expected blob (string), got "@ + kind_name(v));
    assert(type_error_text(name, "number"@, v) =~= "field '"@ + name + "' expected number, got "@ + kind_name(v));
    assert(type_error_text(name, "boolean"@, v) =~= "field '"@ + name + "' expected boolean, got "@ + kind_name(v));
    assert(type_error_text(name, "integer"@, v) =~= "field '"@ + name + "' expected integer, got "@ + kind_name(v));
    assert forall|inner: FieldType| !(v is Array) implies #[trigger] field_error(name, v, FieldType::Array(Box::new(inner)))
        == Some("field '"@ + name + "' expected array, got "@ + kind_name(v)) by {
        assert(type_error_text(name, "array"@, v) =~= "field '"@ + name + "' expected array, got "@ + kind_name(v));
    }
}

/// An array value is checked item by item: where every item has the
/// element type the array passes, and where the first item fails, the
/// array's message is that item's message, reported under `{name}[0]`.
pub proof fn array_items_law(name: Seq<char>, items: Seq<JsonView>, inner: FieldType)
    ensures
        (forall|i: int| 0 <= i < items.len() ==> conforms(#[trigger] items[i], inner)) ==> conforms(JsonView::Array(items),
            FieldType::Array(Box::new(inner))),
        (exists|i: int| 0 <= i < items.len() && !conforms(#[trigger] items[i], inner)) ==> !conforms(JsonView::Array(items),
            FieldType::Array(Box::new(inner))),
        items.len() > 0 && field_error(name + "[0]"@, items[0], inner) is Some ==> field_error(name, JsonView::Array(items),
            FieldType::Array(Box::new(inner))) == field_error(name + "[0]"@, items[0], inner),
    decreases items.len(),
{
    lemma_all_conform(items, inner);
    if items.len() > 0 && field_error(name + "[0]"@, items[0], inner) is Some {
        reveal_strlit("[");
        reveal_strlit("]");
        reveal_strlit("[0]");
        assert(decimal_text(0) =~= seq!['0']);
        assert(item_name(name, 0) =~= name + "[0]"@);
        lemma_first_item_error(name, items, inner);
    }
}

proof fn lemma_first_item_error(name: Seq<char>, items: Seq<JsonView>, inner: FieldType)
    requires
        items.len() > 0,
        field_error(item_name(name, 0), items[0], inner) is Some,
    ensures
        items_error(name, items, inner) == field_error(item_name(name, 0), items[0], inner),
    decreases items.len(),
{
    if items.len() > 1 {
        assert(items.drop_last()[0] == items[0]);
        lemma_first_item_error(name, items.drop_last(), inner);
        assert(items_error(name, items.drop_last(), inner) is Some);
    } else {
        assert(items.drop_last().len() == 0);
        assert(items_error(name, items.drop_last(), inner) is None);
        assert(items.last() == items[0]);
        assert((items.len() - 1) as nat == 0);
    }
}

/// Once an item of a prefix fails, the whole array reports that item.
proof fn lemma_items_error_prefix(name: Seq<char>, items: Seq<JsonView>, t: FieldType, k: int)
    requires
        0 <= k <= items.len(),
        items_error(name, items.take(k), t) is Some,
    ensures
        items_error(name, items, t) == items_error(name, items.take(k), t),
    decreases items.len(),
{
    if k < items.len() {
        assert(items.drop_last().take(k) =~= items.take(k));
        lemma_items_error_prefix(name, items.drop_last(), t, k);
    } else {
        assert(items.take(k) =~= items);
    }
}

/// The message for a value of the wrong kind.
fn type_error(field_name: &str, expected: &str, value: &JsonValue) -> (r: CoreError)
    ensures
        r matches CoreError::SchemaValidation(m) && m@ == type_error_text(field_name@, expected@, value@),
{
    let head = concat3("field '", field_name, "' expected ");
    let tail = concat3(expected, ", got ", value_type_name(value));
    let m = concat(head.as_str(), tail.as_str());
    assert(m@ =~= type_error_text(field_name@, expected@, value@));
    CoreError::SchemaValidation(m)
}

/// Checks that `value` has type `expected`; the error names `field_name`.
fn validate_field_type(field_name: &str, value: &JsonValue, expected: &FieldType) -> (r: Result<(), CoreError>)
    ensures
        r is Ok <==> conforms(value@, *expected),
        match r {
            Ok(_) => field_error(field_name@, value@, *expected) is None,
            Err(e) => e matches CoreError::SchemaValidation(m) && field_error(field_name@, value@, *expected) == Some(
                m@,
            ),
        },
    decreases expected,
{
    match expected {
        FieldType::String => {
            if let JsonValue::String(_) = value {
                Ok(())
            } else {
                Err(type_error(field_name, "string", value))
            }
        },
        FieldType::Integer | FieldType::Timestamp => {
            match value {
                JsonValue::Number(JsonNumber::PosInt(_)) => Ok(()),
                JsonValue::Number(JsonNumber::NegInt(_)) => Ok(()),
                _ => Err(type_error(field_name, "integer", value)),
            }
        },
        FieldType::Float => {
            if let JsonValue::Number(_) = value {
                Ok(())
            } else {
                Err(type_error(field_name, "number", value))
            }
        },
        FieldType::Boolean => {
            if let JsonValue::Bool(_) = value {
                Ok(())
            } else {
                Err(type_error(field_name, "boolean", value))
            }
        },
        FieldType::Blob => {
            if let JsonValue::String(_) = value {
                Ok(())
            } else {
                Err(type_error(field_name, "blob (string)", value))
            }
        },
        FieldType::Json => Ok(()),
        FieldType::Array(inner) => {
            match value {
                JsonValue::Array(items) => {
                    proof {
                        lemma_views_of(items@);
                    }
                    let mut i: usize = 0;
                    while i < items.len()
                        invariant
                            i <= items@.len(),
                            *value == JsonValue::Array(*items),
                            *expected == FieldType::Array(*inner),
                            views_of(items@).len() == items@.len(),
                            forall|j: int| 0 <= j < items@.len() ==> #[trigger] views_of(items@)[j] == items@[j]@,
                            forall|j: int| 0 <= j < i ==> conforms(#[trigger] views_of(items@)[j], **inner),
                            items_error(field_name@, views_of(items@).take(i as int), **inner) is None,
                        decreases items@.len() - i,
                    {
                        let name = concat3(field_name, "[", u64_to_string(i as u64).as_str());
                        let entry_name = concat(name.as_str(), "]");
                        proof {
                            assert(decreases_to!(*expected => (*expected)->Array_0));
                        }
                        let ghost vs = views_of(items@);
                        proof {
                            assert(entry_name@ =~= item_name(field_name@, i as nat));
                            assert(vs.take(i + 1).drop_last() =~= vs.take(i as int));
                            assert(vs.take(i + 1).last() == vs[i as int]);
                        }
                        match validate_field_type(entry_name.as_str(), &items[i], &**inner) {
                            Ok(()) => {},
                            Err(e) => {
                                if i + 1 < items.len() {
                                    proof {
                                        lemma_items_error_prefix(field_name@, vs, **inner, i + 1);
                                    }
                                } else {
                                    assert(vs.take(i + 1) =~= vs);
                                }
                                assert(!conforms(views_of(items@)[i as int], **inner));
                                assert(value@ == JsonView::Array(views_of(items@)));
                                proof {
                                    lemma_all_conform(views_of(items@), **inner);
                                }
                                assert(!conforms(value@, *expected));
                                return Err(e);
                            },
                        }
                        i += 1;
                    }
                    proof {
                        lemma_all_conform(views_of(items@), **inner);
                        assert(views_of(items@).take(i as int) =~= views_of(items@));
                    }
                    Ok(())
                },
                _ => Err(type_error(field_name, "array", value)),
            }
        },
        FieldType::Optional(inner) => {
            if let JsonValue::Null = value {
                Ok(())
            } else {
                validate_field_type(field_name, value, &**inner)
            }
        },
    }
}

// ---------------------------------------------------------------------------
// Registry
// ---------------------------------------------------------------------------

/// The registry content of a list of schemas: each ID maps to the schema
/// registered under it.
pub open spec fn schemas_by_id(s: Seq<Schema>) -> Map<Seq<char>, Schema> {
    Map::new(
        |k: Seq<char>| exists|i: int| 0 <= i < s.len() && s[i].id@ == k,
        |k: Seq<char>| s[choose|i: int| 0 <= i < s.len() && s[i].id@ == k],
    )
}

/// Whether no two schemas in `s` share an ID.
pub open spec fn ids_distinct(s: Seq<Schema>) -> bool {
    forall|i: int, j: int| 0 <= i < j < s.len() ==> (#[trigger] s[i]).id@ != (#[trigger] s[j]).id@
}

proof fn lemma_by_id_at(s: Seq<Schema>, i: int)
    requires
        ids_distinct(s),
        0 <= i < s.len(),
    ensures
        schemas_by_id(s).dom().contains(s[i].id@),
        schemas_by_id(s)[s[i].id@] == s[i],
{
    let k = s[i].id@;
    assert(exists|j: int| 0 <= j < s.len() && s[j].id@ == k);
    let c = choose|j: int| 0 <= j < s.len() && s[j].id@ == k;
    if c != i {
        if c < i {
            assert(s[c].id@ != s[i].id@);
        } else {
            assert(s[i].id@ != s[c].id@);
        }
    }
}

proof fn lemma_by_id_push(s: Seq<Schema>, x: Schema)
    requires
        ids_distinct(s),
        !schemas_by_id(s).dom().contains(x.id@),
    ensures
        ids_distinct(s.push(x)),
        schemas_by_id(s.push(x)) == schemas_by_id(s).insert(x.id@, x),
{
    let t = s.push(x);
    assert forall|i: int, j: int| 0 <= i < j < t.len() implies (#[trigger] t[i]).id@ != (#[trigger] t[j]).id@ by {
        if j == s.len() {
            if t[i].id@ == x.id@ {
                assert(s[i].id@ == x.id@);
                assert(schemas_by_id(s).dom().contains(x.id@));
            }
        } else {
            assert(s[i].id@ != s[j].id@);
        }
    }
    let m = schemas_by_id(s).insert(x.id@, x);
    assert forall|k: Seq<char>| #[trigger] schemas_by_id(t).dom().contains(k) <==> m.dom().contains(k) by {
        if schemas_by_id(t).dom().contains(k) {
            let c = choose|j: int| 0 <= j < t.len() && t[j].id@ == k;
            if c < s.len() {
                assert(s[c].id@ == k);
            }
        }
        if schemas_by_id(s).dom().contains(k) {
            let c = choose|j: int| 0 <= j < s.len() && s[j].id@ == k;
            assert(t[c].id@ == k);
        }
        if k == x.id@ {
            assert(t[s.len() as int].id@ == k);
        }
    }
    assert forall|k: Seq<char>| #[trigger] m.dom().contains(k) implies schemas_by_id(t)[k] == m[k] by {
        if k == x.id@ {
            lemma_by_id_at(t, s.len() as int);
        } else {
            let c = choose|j: int| 0 <= j < s.len() && s[j].id@ == k;
            lemma_by_id_at(s, c);
            lemma_by_id_at(t, c);
        }
    }
    assert(schemas_by_id(t) =~= m);
}

/// The schema registry: schema IDs mapped to their definitions.
pub struct SchemaRegistry {
    schemas: Vec<Schema>,
}

impl View for SchemaRegistry {
    type V = Map<Seq<char>, Schema>;

    closed spec fn view(&self) -> Map<Seq<char>, Schema> {
        schemas_by_id(self.schemas@)
    }
}

/// Whether registering `schema` into `m` fails: its ID is registered with
/// another version.
pub open spec fn refuses(m: Map<Seq<char>, Schema>, schema: Schema) -> bool {
    m.dom().contains(schema.id@) && m[schema.id@].version@ != schema.version@
}

/// The registry `m` after registering `schema`: unchanged when the ID is
/// already registered, else with the schema added.
pub open spec fn registered(m: Map<Seq<char>, Schema>, schema: Schema) -> Map<Seq<char>, Schema> {
    if m.dom().contains(schema.id@) {
        m
    } else {
        m.insert(schema.id@, schema)
    }
}

/// Registering a schema again succeeds and changes nothing: registration
/// is idempotent.
pub proof fn register_idempotent(m: Map<Seq<char>, Schema>, schema: Schema)
    requires
        !refuses(m, schema),
    ensures
        !refuses(registered(m, schema), schema),
        registered(registered(m, schema), schema) == registered(m, schema),
{
}

impl SchemaRegistry {
    #[verifier::type_invariant]
    closed spec fn wf(self) -> bool {
        ids_distinct(self.schemas@)
    }

    /// An empty registry.
    pub fn new() -> (r: SchemaRegistry)
        ensures
            r@ == Map::<Seq<char>, Schema>::empty(),
    {
        let r = SchemaRegistry { schemas: Vec::new() };
        assert(r@ =~= Map::<Seq<char>, Schema>::empty());
        r
    }

    /// The position of the schema registered under `schema_id`.
    fn position(&self, schema_id: &str) -> (r: Option<usize>)
        ensures
            r matches Some(i) ==> i < self.schemas@.len() && self.schemas@[i as int].id@ == schema_id@,
            r is None ==> forall|i: int| 0 <= i < self.schemas@.len() ==> self.schemas@[i].id@ != schema_id@,
    {
        let mut i: usize = 0;
        while i < self.schemas.len()
            invariant
                i <= self.schemas@.len(),
                forall|j: int| 0 <= j < i ==> self.schemas@[j].id@ != schema_id@,
            decreases self.schemas@.len() - i,
        {
            if str_equal(self.schemas[i].id.as_str(), schema_id) {
                return Some(i);
            }
            i += 1;
        }
        None
    }

    /// Registers a schema. Registering an ID again with the same version
    /// changes nothing; with another version it fails with
    /// `DuplicateSchema` and changes nothing.
    pub fn register(&mut self, schema: Schema) -> (r: Result<(), CoreError>)
        ensures
            r is Err <==> refuses(old(self)@, schema),
            r matches Err(e) ==> e is DuplicateSchema,
            final(self)@ == registered(old(self)@, schema),
    {
        proof {
            use_type_invariant(&*self);
        }
        match self.position(schema.id.as_str()) {
            Some(i) => {
                proof {
                    lemma_by_id_at(self.schemas@, i as int);
                }
                let existing = &self.schemas[i];
                if !str_equal(existing.version.as_str(), schema.version.as_str()) {
                    let a = concat(schema.id.as_str(), " already registered with version ");
                    let b = concat3(existing.version.as_str(), ", cannot register version ", schema.version.as_str());
                    return Err(CoreError::DuplicateSchema(concat(a.as_str(), b.as_str())));
                }
                Ok(())
            },
            None => {
                proof {
                    if schemas_by_id(self.schemas@).dom().contains(schema.id@) {
                        let c = choose|j: int| 0 <= j < self.schemas@.len() && self.schemas@[j].id@ == schema.id@;
                        assert(self.schemas@[c].id@ != schema.id@);
                    }
                    lemma_by_id_push(self.schemas@, schema);
                }
                let mut schemas = Vec::new();
                std::mem::swap(&mut schemas, &mut self.schemas);
                schemas.push(schema);
                self.schemas = schemas;
                Ok(())
            },
        }
    }

    /// The schema registered under `schema_id`.
    pub fn get(&self, schema_id: &str) -> (r: Option<&Schema>)
        ensures
            r is Some <==> self@.dom().contains(schema_id@),
            r matches Some(s) ==> *s == self@[schema_id@],
    {
        proof {
            use_type_invariant(self);
        }
        match self.position(schema_id) {
            Some(i) => {
                proof {
                    lemma_by_id_at(self.schemas@, i as int);
                }
                Some(&self.schemas[i])
            },
            None => {
                proof {
                    if self@.dom().contains(schema_id@) {
                        let c = choose|j: int| 0 <= j < self.schemas@.len() && self.schemas@[j].id@ == schema_id@;
                        assert(self.schemas@[c].id@ != schema_id@);
                    }
                }
                None
            },
        }
    }

    /// All schemas of a namespace, each once, in no particular order.
    pub fn list_by_namespace(&self, namespace: &str) -> (r: Vec<&Schema>)
        ensures
            forall|i: int| 0 <= i < r@.len() ==> {
                &&& self@.dom().contains((#[trigger] r@[i]).id@)
                &&& self@[r@[i].id@] == *r@[i]
                &&& r@[i].namespace@ == namespace@
            },
            forall|k: Seq<char>| #[trigger] self@.dom().contains(k) && self@[k].namespace@ == namespace@
                ==> exists|i: int| 0 <= i < r@.len() && r@[i].id@ == k,
            forall|i: int, j: int| 0 <= i < j < r@.len() ==> (#[trigger] r@[i]).id@ != (#[trigger] r@[j]).id@,
    {
        proof {
            use_type_invariant(self);
        }
        let ghost s = self.schemas@;
        let mut out: Vec<&Schema> = Vec::new();
        let ghost mut idx: Seq<int> = Seq::empty();
        let mut i: usize = 0;
        while i < self.schemas.len()
            invariant
                s == self.schemas@,
                ids_distinct(s),
                i <= s.len(),
                idx.len() == out@.len(),
                forall|a: int| 0 <= a < out@.len() ==> 0 <= #[trigger] idx[a] < i && *out@[a] == s[idx[a]],
                forall|a: int, b: int| 0 <= a < b < out@.len() ==> #[trigger] idx[a] < #[trigger] idx[b],
                forall|a: int| 0 <= a < out@.len() ==> (#[trigger] out@[a]).namespace@ == namespace@,
                forall|j: int| 0 <= j < i && (#[trigger] s[j]).namespace@ == namespace@
                    ==> exists|a: int| 0 <= a < out@.len() && idx[a] == j,
            decreases s.len() - i,
        {
            if str_equal(self.schemas[i].namespace.as_str(), namespace) {
                let ghost old_idx = idx;
                let ghost old_len = out@.len();
                out.push(&self.schemas[i]);
                proof {
                    idx = idx.push(i as int);
                    assert forall|j: int| 0 <= j < i + 1 && (#[trigger] s[j]).namespace@ == namespace@
                        implies exists|a: int| 0 <= a < out@.len() && idx[a] == j by {
                        if j == i {
                            assert(idx[out@.len() - 1] == j);
                        } else {
                            assert(exists|a: int| 0 <= a < old_len && old_idx[a] == j);
                            let a = choose|a: int| 0 <= a < old_len && old_idx[a] == j;
                            assert(idx[a] == j);
                        }
                    }
                }
            }
            i += 1;
        }
        proof {
            assert forall|a: int| 0 <= a < out@.len() implies {
                &&& self@.dom().contains((#[trigger] out@[a]).id@)
                &&& self@[out@[a].id@] == *out@[a]
            } by {
                lemma_by_id_at(s, idx[a]);
            }
            assert forall|k: Seq<char>| #[trigger] self@.dom().contains(k) && self@[k].namespace@ == namespace@
                implies exists|a: int| 0 <= a < out@.len() && out@[a].id@ == k by {
                let c = choose|j: int| 0 <= j < s.len() && s[j].id@ == k;
                lemma_by_id_at(s, c);
                assert(s[c].namespace@ == namespace@);
                let a = choose|a: int| 0 <= a < out@.len() && idx[a] == c;
                assert(out@[a].id@ == k);
            }
            assert forall|a: int, b: int| 0 <= a < b < out@.len() implies (#[trigger] out@[a]).id@ != (#[trigger] out@[b]).id@ by {
                assert(idx[a] < idx[b]);
                assert(s[idx[a]].id@ != s[idx[b]].id@);
            }
        }
        out
    }

    /// Checks that `data` conforms to the schema registered under `schema_id`.
    pub fn validate_data(&self, schema_id: &str, data: &JsonValue) -> (r: Result<(), CoreError>)
        ensures
            !self@.dom().contains(schema_id@) ==> (r matches Err(CoreError::SchemaNotFound(m)) && m@ == schema_id@),
            self@.dom().contains(schema_id@) ==> {
                &&& r is Ok <==> data_conforms(self@[schema_id@], data@)
                &&& match r {
                    Ok(_) => data_error(self@[schema_id@], data@) is None,
                    Err(e) => e matches CoreError::SchemaValidation(m) && data_error(self@[schema_id@], data@)
                        == Some(m@),
                }
            },
    {
        let schema = match self.get(schema_id) {
            Some(s) => s,
            None => {
                return Err(CoreError::SchemaNotFound(String::from_str(schema_id)));
            },
        };
        if !matches!(data, JsonValue::Object(_)) {
            return Err(CoreError::SchemaValidation(String::from_str("data must be a JSON object")));
        }
        let mut i: usize = 0;
        while i < schema.fields.len()
            invariant
                i <= schema.fields@.len(),
                self@.dom().contains(schema_id@),
                *schema == self@[schema_id@],
                data@ is Object,
                forall|j: int| 0 <= j < i ==> field_satisfied(#[trigger] schema.fields@[j], data@),
                fields_error(schema.fields@.take(i as int), data@) is None,
            decreases schema.fields@.len() - i,
        {
            let field = &schema.fields[i];
            let ghost fs = schema.fields@;
            proof {
                assert(fs.take(i + 1).drop_last() =~= fs.take(i as int));
                assert(fs.take(i + 1).last() == fs[i as int]);
                if i + 1 < fs.len() {
                    if fields_error(fs.take(i + 1), data@) is Some {
                        lemma_fields_error_prefix(fs, data@, i + 1);
                    }
                } else {
                    assert(fs.take(i + 1) =~= fs);
                }
            }
            let value = get_field(data, field.name.as_str());
            if field.required && value.is_none() {
                return Err(CoreError::SchemaValidation(
                    concat("missing required field: ", field.name.as_str()),
                ));
            }
            if let Some(v) = value {
                if let Err(e) = validate_field_type(field.name.as_str(), v, &field.field_type) {
                    return Err(e);
                }
            }
            i += 1;
        }
        assert(schema.fields@.take(i as int) =~= schema.fields@);
        Ok(())
    }

    /// Whether a schema is registered under `schema_id`.
    pub fn has_schema(&self, schema_id: &str) -> (r: bool)
        ensures
            r == self@.dom().contains(schema_id@),
    {
        self.get(schema_id).is_some()
    }
}

impl Default for SchemaRegistry {
    fn default() -> (r: Self)
        ensures
            r@ == Map::<Seq<char>, Schema>::empty(),
    {
        SchemaRegistry::new()
    }
}

} // verus!
