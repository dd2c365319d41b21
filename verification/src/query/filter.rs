//! Typed filter predicates for querying records.
//!
//! Filters form a tree: leaf predicates match field values or record-level
//! properties, and combinators (`And`, `Or`, `Not`) compose them.

use vstd::prelude::*;
use vstd::string::*;
use vstd::utf8::encode_utf8;
use std::cmp::Ordering;
use crate::crypto::identity::VerifyingKey;
use crate::json::{JsonValue, JsonView, compare_json, field_of, get_field, json_equal, value_order, values_equal};
use crate::order::Order;
use crate::record::{Record, opt_str_view};
use crate::sync::conflict::same_record;

verus! {

broadcast use vstd::std_specs::vec::group_vec_axioms, vstd::seq::group_seq_axioms;

/// A typed predicate tree for filtering records.
#[derive(Debug)]
pub enum Filter {
    /// field == value
    Eq(String, JsonValue),
    /// field != value (also true when the field is missing)
    Ne(String, JsonValue),
    /// field > value
    Gt(String, JsonValue),
    /// field < value
    Lt(String, JsonValue),
    /// field >= value
    Gte(String, JsonValue),
    /// field <= value
    Lte(String, JsonValue),
    /// String field contains the substring (case-sensitive).
    Contains(String, String),
    /// String field starts with the prefix (case-sensitive).
    StartsWith(String, String),
    /// record.created_by == key
    CreatedBy(VerifyingKey),
    /// record.created_at_ms > timestamp
    CreatedAfter(u64),
    /// record.created_at_ms < timestamp
    CreatedBefore(u64),
    /// The record has a previous version.
    HasPreviousVersion,
    /// All sub-filters match.
    And(Vec<Filter>),
    /// At least one sub-filter matches.
    Or(Vec<Filter>),
    /// The sub-filter does not match.
    Not(Box<Filter>),
}

/// Whether `sub` occurs in `s` at position `i`.
pub open spec fn occurs_at(s: Seq<u8>, sub: Seq<u8>, i: int) -> bool {
    0 <= i && i + sub.len() <= s.len() && s.subrange(i, i + sub.len()) == sub
}

/// Whether `sub` occurs in `s`.
pub open spec fn bytes_contain(s: Seq<u8>, sub: Seq<u8>) -> bool {
    exists|i: int| occurs_at(s, sub, i)
}

/// Whether the text `s` contains the text `sub` (on their UTF-8 encodings,
/// as `str::contains` does).
pub open spec fn text_contains(s: Seq<char>, sub: Seq<char>) -> bool {
    bytes_contain(encode_utf8(s), encode_utf8(sub))
}

/// Whether the text `s` starts with the text `prefix`.
pub open spec fn text_starts_with(s: Seq<char>, prefix: Seq<char>) -> bool {
    occurs_at(encode_utf8(s), encode_utf8(prefix), 0)
}

/// The string held by a JSON value, if it is a string.
pub open spec fn as_text(v: Option<JsonView>) -> Option<Seq<char>> {
    match v {
        Some(JsonView::Str(s)) => Some(s),
        _ => None,
    }
}

/// Whether a field value compares to `val` with one of the accepted outcomes.
pub open spec fn field_compares(data: JsonView, field: Seq<char>, val: JsonView, lt: bool, eq: bool, gt: bool) -> bool {
    match field_of(data, field) {
        Some(v) => match value_order(v, val) {
            Some(Order::Less) => lt,
            Some(Order::Equal) => eq,
            Some(Order::Greater) => gt,
            None => false,
        },
        None => false,
    }
}

/// Whether a filter matches a record.
pub open spec fn filter_matches(f: Filter, r: Record) -> bool
    decreases f,
{
    match f {
        Filter::Eq(field, val) => match field_of(r.data@, field@) {
            Some(v) => values_equal(v, val@),
            None => false,
        },
        Filter::Ne(field, val) => match field_of(r.data@, field@) {
            Some(v) => !values_equal(v, val@),
            None => true,
        },
        Filter::Gt(field, val) => field_compares(r.data@, field@, val@, false, false, true),
        Filter::Lt(field, val) => field_compares(r.data@, field@, val@, true, false, false),
        Filter::Gte(field, val) => field_compares(r.data@, field@, val@, false, true, true),
        Filter::Lte(field, val) => field_compares(r.data@, field@, val@, true, true, false),
        Filter::Contains(field, sub) => match as_text(field_of(r.data@, field@)) {
            Some(s) => text_contains(s, sub@),
            None => false,
        },
        Filter::StartsWith(field, prefix) => match as_text(field_of(r.data@, field@)) {
            Some(s) => text_starts_with(s, prefix@),
            None => false,
        },
        Filter::CreatedBy(key) => r.created_by@ == key@,
        Filter::CreatedAfter(ts) => r.created_at_ms > ts,
        Filter::CreatedBefore(ts) => r.created_at_ms < ts,
        Filter::HasPreviousVersion => r.previous_version is Some,
        Filter::And(fs) => forall|i: int| 0 <= i < fs.len() ==> filter_matches(#[trigger] fs[i], r),
        Filter::Or(fs) => exists|i: int| 0 <= i < fs.len() && filter_matches(#[trigger] fs[i], r),
        Filter::Not(g) => !filter_matches(*g, r),
    }
}

/// A filter gives the same answer on two records with the same content.
pub proof fn lemma_filter_same_record(f: Filter, a: Record, b: Record)
    requires
        same_record(a, b),
    ensures
        filter_matches(f, a) == filter_matches(f, b),
    decreases f,
{
    match f {
        Filter::And(fs) => {
            assert forall|i: int| 0 <= i < fs.len() implies filter_matches(#[trigger] fs[i], a) == filter_matches(
                fs[i], b) by {
                assert(decreases_to!(f => fs));
                assert(decreases_to!(fs => fs[i]));
                lemma_filter_same_record(fs[i], a, b);
            }
        },
        Filter::Or(fs) => {
            assert forall|i: int| 0 <= i < fs.len() implies filter_matches(#[trigger] fs[i], a) == filter_matches(
                fs[i], b) by {
                assert(decreases_to!(f => fs));
                assert(decreases_to!(fs => fs[i]));
                lemma_filter_same_record(fs[i], a, b);
            }
        },
        Filter::Not(g) => {
            lemma_filter_same_record(*g, a, b);
        },
        Filter::HasPreviousVersion => {
            assert(a.previous_version is Some <==> opt_str_view(a.previous_version) is Some);
            assert(b.previous_version is Some <==> opt_str_view(b.previous_version) is Some);
        },
        _ => {},
    }
}

/// Whether `sub` occurs in `s` at position `i`.
fn occurs_at_exec(s: &[u8], sub: &[u8], i: usize) -> (r: bool)
    requires
        i + sub@.len() <= s@.len(),
    ensures
        r == occurs_at(s@, sub@, i as int),
{
    let n = s.len();
    let mut j: usize = 0;
    while j < sub.len()
        invariant
            n == s@.len(),
            j <= sub@.len(),
            i + sub@.len() <= s@.len(),
            forall|k: int| 0 <= k < j ==> s@[i + k] == sub@[k],
        decreases sub@.len() - j,
    {
        assert(i + j < s@.len());
        if s[i + j] != sub[j] {
            assert(s@.subrange(i as int, i + sub@.len())[j as int] != sub@[j as int]);
            return false;
        }
        j += 1;
    }
    assert(s@.subrange(i as int, i + sub@.len()) =~= sub@);
    true
}

/// Whether `sub` occurs in `s`.
pub fn contains_bytes(s: &[u8], sub: &[u8]) -> (r: bool)
    ensures
        r == bytes_contain(s@, sub@),
{
    if sub.len() > s.len() {
        return false;
    }
    if sub.len() == 0 {
        assert(s@.subrange(0, 0) =~= sub@);
        assert(occurs_at(s@, sub@, 0));
        return true;
    }
    let n = s.len();
    let last = n - sub.len();
    let mut i: usize = 0;
    while i <= last
        invariant
            n == s@.len(),
            last + sub@.len() == s@.len(),
            sub@.len() >= 1,
            i <= last + 1,
            forall|k: int| 0 <= k < i ==> !occurs_at(s@, sub@, k),
        decreases last + 1 - i,
    {
        if occurs_at_exec(s, sub, i) {
            return true;
        }
        i += 1;
    }
    assert forall|k: int| !occurs_at(s@, sub@, k) by {
        if 0 <= k && k + sub@.len() <= s@.len() {
            assert(k <= last);
        }
    }
    false
}

/// Whether the string value of field `field` satisfies a text predicate.
fn text_of<'a>(data: &'a JsonValue, field: &str) -> (r: Option<&'a String>)
    ensures
        r is Some <==> as_text(field_of(data@, field@)) is Some,
        r matches Some(s) ==> as_text(field_of(data@, field@)) == Some(s@),
{
    match get_field(data, field) {
        Some(JsonValue::String(s)) => Some(s),
        _ => None,
    }
}

/// Whether a field value compares to `val` with one of the accepted outcomes.
fn field_compares_exec(data: &JsonValue, field: &str, val: &JsonValue, lt: bool, eq: bool, gt: bool) -> (r: bool)
    ensures
        r == field_compares(data@, field@, val@, lt, eq, gt),
{
    match get_field(data, field) {
        Some(v) => match compare_json(v, val) {
            Some(Order::Less) => lt,
            Some(Order::Equal) => eq,
            Some(Order::Greater) => gt,
            None => false,
        },
        None => false,
    }
}

impl Filter {
    /// Evaluates this filter against a record.
    pub fn matches(&self, record: &Record) -> (r: bool)
        ensures
            r == filter_matches(*self, *record),
        decreases self,
    {
        match self {
            Filter::Eq(field, val) => match get_field(&record.data, field.as_str()) {
                Some(v) => json_equal(v, val),
                None => false,
            },
            Filter::Ne(field, val) => match get_field(&record.data, field.as_str()) {
                Some(v) => !json_equal(v, val),
                None => true,
            },
            Filter::Gt(field, val) => field_compares_exec(&record.data, field.as_str(), val, false, false, true),
            Filter::Lt(field, val) => field_compares_exec(&record.data, field.as_str(), val, true, false, false),
            Filter::Gte(field, val) => field_compares_exec(&record.data, field.as_str(), val, false, true, true),
            Filter::Lte(field, val) => field_compares_exec(&record.data, field.as_str(), val, true, true, false),
            Filter::Contains(field, sub) => match text_of(&record.data, field.as_str()) {
                Some(s) => contains_bytes(s.as_str().as_bytes(), sub.as_str().as_bytes()),
                None => false,
            },
            Filter::StartsWith(field, prefix) => match text_of(&record.data, field.as_str()) {
                Some(s) => {
                    let sb = s.as_str().as_bytes();
                    let pb = prefix.as_str().as_bytes();
                    if pb.len() > sb.len() {
                        false
                    } else {
                        occurs_at_exec(sb, pb, 0)
                    }
                },
                None => false,
            },
            Filter::CreatedBy(key) => record.created_by.same_as(key),
            Filter::CreatedAfter(ts) => record.created_at_ms > *ts,
            Filter::CreatedBefore(ts) => record.created_at_ms < *ts,
            Filter::HasPreviousVersion => record.previous_version.is_some(),
            Filter::And(fs) => {
                let mut i: usize = 0;
                while i < fs.len()
                    invariant
                        i <= fs@.len(),
                        *self == Filter::And(*fs),
                        forall|j: int| 0 <= j < i ==> filter_matches(#[trigger] fs@[j], *record),
                    decreases fs@.len() - i,
                {
                    proof {
                        assert(decreases_to!(*self => (*self)->And_0));
                        assert(decreases_to!(*fs => fs[i as int]));
                    }
                    if !fs[i].matches(record) {
                        return false;
                    }
                    i += 1;
                }
                true
            },
            Filter::Or(fs) => {
                let mut i: usize = 0;
                while i < fs.len()
                    invariant
                        i <= fs@.len(),
                        *self == Filter::Or(*fs),
                        forall|j: int| 0 <= j < i ==> !filter_matches(#[trigger] fs@[j], *record),
                    decreases fs@.len() - i,
                {
                    proof {
                        assert(decreases_to!(*self => (*self)->Or_0));
                        assert(decreases_to!(*fs => fs[i as int]));
                    }
                    if fs[i].matches(record) {
                        return true;
                    }
                    i += 1;
                }
                false
            },
            Filter::Not(g) => {
                proof {
                    assert(decreases_to!(*self => (*self)->Not_0));
                }
                !g.matches(record)
            },
        }
    }
}

/// The standard ordering of an [`Order`].
pub open spec fn std_order(o: Option<Order>) -> Option<Ordering> {
    match o {
        Some(Order::Less) => Some(Ordering::Less),
        Some(Order::Equal) => Some(Ordering::Equal),
        Some(Order::Greater) => Some(Ordering::Greater),
        None => None,
    }
}

/// Type-aware comparison of two JSON values: numbers by value, strings
/// lexicographically, `false < true`, `null == null`; `None` for
/// incompatible types (and for arrays and objects).
pub fn compare_values(a: &JsonValue, b: &JsonValue) -> (r: Option<Ordering>)
    ensures
        r == std_order(value_order(a@, b@)),
{
    match compare_json(a, b) {
        Some(Order::Less) => Some(Ordering::Less),
        Some(Order::Equal) => Some(Ordering::Equal),
        Some(Order::Greater) => Some(Ordering::Greater),
        None => None,
    }
}

} // verus!
