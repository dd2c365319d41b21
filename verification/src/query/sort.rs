//! Multi-field stable sorting of query results.

use vstd::prelude::*;
use vstd::string::*;
use crate::json::{JsonValue, JsonView, compare_json, field_of, get_field, value_order};
use crate::order::{Order, compare_u64, reverse_order, u64_order};
use crate::record::Record;
use crate::sync::conflict::same_record;

verus! {

broadcast use vstd::std_specs::vec::group_vec_axioms, vstd::seq::group_seq_axioms;

/// Sort direction.
#[derive(Debug, Clone, Copy, PartialEq, Eq, Structural)]
pub enum SortOrder {
    Asc,
    Desc,
}

/// A field to sort by, with its direction. The field `created_at_ms` sorts
/// by the record's creation time; any other name sorts by that field of the
/// record's data.
#[derive(Debug)]
pub struct SortField {
    pub field: String,
    pub order: SortOrder,
}

impl SortField {
    /// Ascending order of `field`.
    pub fn asc(field: &str) -> (r: SortField)
        ensures
            r.field@ == field@,
            r.order == SortOrder::Asc,
    {
        SortField { field: String::from_str(field), order: SortOrder::Asc }
    }

    /// Descending order of `field`.
    pub fn desc(field: &str) -> (r: SortField)
        ensures
            r.field@ == field@,
            r.order == SortOrder::Desc,
    {
        SortField { field: String::from_str(field), order: SortOrder::Desc }
    }
}

impl Clone for SortField {
    fn clone(&self) -> (r: Self)
        ensures
            r.field@ == self.field@,
            r.order == self.order,
    {
        SortField { field: self.field.clone(), order: self.order }
    }
}

/// The ascending order of two records by one field: by creation time for
/// `created_at_ms`; else records holding the field come before those
/// lacking it, and two held values compare by [`value_order`] (values of
/// incomparable kinds count as equal).
pub open spec fn raw_field_order(a: Record, b: Record, field: Seq<char>) -> Order {
    if field == "created_at_ms"@ {
        u64_order(a.created_at_ms, b.created_at_ms)
    } else {
        match (field_of(a.data@, field), field_of(b.data@, field)) {
            (Some(x), Some(y)) => match value_order(x, y) {
                Some(o) => o,
                None => Order::Equal,
            },
            (Some(_), None) => Order::Less,
            (None, Some(_)) => Order::Greater,
            (None, None) => Order::Equal,
        }
    }
}

/// The order of two records by one sort field, in its direction.
pub open spec fn field_order(a: Record, b: Record, sf: SortField) -> Order {
    match sf.order {
        SortOrder::Asc => raw_field_order(a, b, sf.field@),
        SortOrder::Desc => reverse_order(raw_field_order(a, b, sf.field@)),
    }
}

/// The order of two records by a list of sort fields: the first field that
/// tells them apart decides.
pub open spec fn records_order(a: Record, b: Record, fields: Seq<SortField>) -> Order
    decreases fields.len(),
{
    if fields.len() == 0 {
        Order::Equal
    } else {
        let o = field_order(a, b, fields[0]);
        if o != Order::Equal {
            o
        } else {
            records_order(a, b, fields.drop_first())
        }
    }
}

/// Where `x` goes in `s`: before the first record that sorts after it.
pub open spec fn insert_slot(s: Seq<Record>, x: Record, fields: Seq<SortField>) -> int
    decreases s.len(),
{
    if s.len() == 0 {
        0
    } else if records_order(s[0], x, fields) == Order::Greater {
        0
    } else {
        1 + insert_slot(s.drop_first(), x, fields)
    }
}

/// Stable insertion sort by the sort fields.
pub open spec fn insertion_sorted(s: Seq<Record>, fields: Seq<SortField>) -> Seq<Record>
    decreases s.len(),
{
    if s.len() == 0 {
        s
    } else {
        let t = insertion_sorted(s.drop_last(), fields);
        t.insert(insert_slot(t, s.last(), fields), s.last())
    }
}

/// The records sorted by the sort fields; unchanged when there are none.
pub open spec fn sorted_records(s: Seq<Record>, fields: Seq<SortField>) -> Seq<Record> {
    if fields.len() == 0 {
        s
    } else {
        insertion_sorted(s, fields)
    }
}

proof fn lemma_insert_slot_bound(s: Seq<Record>, x: Record, fields: Seq<SortField>)
    ensures
        0 <= insert_slot(s, x, fields) <= s.len(),
    decreases s.len(),
{
    if s.len() > 0 {
        lemma_insert_slot_bound(s.drop_first(), x, fields);
    }
}

pub proof fn lemma_insertion_sorted_len(s: Seq<Record>, fields: Seq<SortField>)
    ensures
        insertion_sorted(s, fields).len() == s.len(),
    decreases s.len(),
{
    if s.len() > 0 {
        lemma_insertion_sorted_len(s.drop_last(), fields);
        lemma_insert_slot_bound(insertion_sorted(s.drop_last(), fields), s.last(), fields);
    }
}

/// Records with the same content compare alike.
pub(crate) proof fn lemma_order_same_content(a: Record, a2: Record, b: Record, b2: Record, fields: Seq<SortField>)
    requires
        same_record(a, a2),
        same_record(b, b2),
    ensures
        records_order(a, b, fields) == records_order(a2, b2, fields),
    decreases fields.len(),
{
    if fields.len() > 0 {
        lemma_order_same_content(a, a2, b, b2, fields.drop_first());
    }
}

/// Whether `out` is `s` rearranged: `out[k]` is `s[p[k]]`, and no index of
/// `s` is used twice.
pub open spec fn rearranges(out: Seq<Record>, s: Seq<Record>, p: Seq<int>) -> bool {
    &&& out.len() == s.len()
    &&& p.len() == s.len()
    &&& forall|k: int| 0 <= k < p.len() ==> 0 <= #[trigger] p[k] < s.len() && out[k] == s[p[k]]
    &&& forall|k: int, l: int| 0 <= k < l < p.len() ==> #[trigger] p[k] != #[trigger] p[l]
}

/// The order of records by the sort fields, as a function.
pub open spec fn by_fields(fields: Seq<SortField>) -> spec_fn(Record, Record) -> Order {
    |a: Record, b: Record| records_order(a, b, fields)
}

/// Whether `ord` orders the records of `s` consistently: two records
/// compare oppositely in the two directions, and "not after" is transitive.
pub open spec fn consistent_by(ord: spec_fn(Record, Record) -> Order, s: Seq<Record>) -> bool {
    &&& forall|i: int, j: int| 0 <= i < s.len() && 0 <= j < s.len() ==> #[trigger] ord(s[i], s[j])
        == reverse_order(ord(s[j], s[i]))
    &&& forall|i: int, j: int, l: int| 0 <= i < s.len() && 0 <= j < s.len() && 0 <= l < s.len()
        && #[trigger] ord(s[i], s[j]) != Order::Greater && #[trigger] ord(s[j], s[l]) != Order::Greater
        ==> ord(s[i], s[l]) != Order::Greater
}

/// Whether `out` is in order by `ord`, records that compare equal keeping
/// their original order (`p` gives each one's original position).
pub open spec fn sorted_by(ord: spec_fn(Record, Record) -> Order, out: Seq<Record>, p: Seq<int>) -> bool {
    forall|a: int, b: int| #![trigger ord(out[a], out[b])] 0 <= a < b < out.len() ==> {
        &&& ord(out[a], out[b]) != Order::Greater
        &&& ord(out[a], out[b]) == Order::Equal ==> p[a] < p[b]
    }
}

/// Whether the sort fields order the records of `s` consistently.
pub open spec fn order_consistent(s: Seq<Record>, fields: Seq<SortField>) -> bool {
    consistent_by(by_fields(fields), s)
}

/// Whether `out` is in order by the sort fields and stable (see [`sorted_by`]).
pub open spec fn sorted_stably(out: Seq<Record>, fields: Seq<SortField>, p: Seq<int>) -> bool {
    sorted_by(by_fields(fields), out, p)
}

proof fn lemma_insert_slot_props(t: Seq<Record>, x: Record, fields: Seq<SortField>)
    ensures
        0 <= insert_slot(t, x, fields) <= t.len(),
        forall|j: int| 0 <= j < insert_slot(t, x, fields) ==> records_order(#[trigger] t[j], x, fields) != Order::Greater,
        insert_slot(t, x, fields) < t.len() ==> records_order(t[insert_slot(t, x, fields)], x, fields) == Order::Greater,
    decreases t.len(),
{
    if t.len() > 0 && records_order(t[0], x, fields) != Order::Greater {
        lemma_insert_slot_props(t.drop_first(), x, fields);
        assert forall|j: int| 0 <= j < insert_slot(t, x, fields) implies records_order(#[trigger] t[j], x, fields)
            != Order::Greater by {
            if j > 0 {
                assert(t[j] == t.drop_first()[j - 1]);
            }
        }
        if insert_slot(t, x, fields) < t.len() {
            assert(t[insert_slot(t, x, fields)] == t.drop_first()[insert_slot(t.drop_first(), x, fields)]);
        }
    }
}

proof fn lemma_consistent_drop_last(ord: spec_fn(Record, Record) -> Order, s: Seq<Record>)
    requires
        s.len() > 0,
        consistent_by(ord, s),
    ensures
        consistent_by(ord, s.drop_last()),
{
    let s0 = s.drop_last();
    assert forall|i: int, j: int| 0 <= i < s0.len() && 0 <= j < s0.len() implies #[trigger] ord(s0[i], s0[j])
        == reverse_order(ord(s0[j], s0[i])) by {
        assert(s0[i] == s[i] && s0[j] == s[j]);
        assert(ord(s[i], s[j]) == reverse_order(ord(s[j], s[i])));
    }
    assert forall|i: int, j: int, l: int| 0 <= i < s0.len() && 0 <= j < s0.len() && 0 <= l < s0.len()
        && #[trigger] ord(s0[i], s0[j]) != Order::Greater && #[trigger] ord(s0[j], s0[l]) != Order::Greater
        implies ord(s0[i], s0[l]) != Order::Greater by {
        assert(s0[i] == s[i] && s0[j] == s[j] && s0[l] == s[l]);
        assert(ord(s[i], s[j]) != Order::Greater);
        assert(ord(s[j], s[l]) != Order::Greater);
    }
}

proof fn lemma_insert_rearranges(s: Seq<Record>, t: Seq<Record>, p0: Seq<int>, k: int)
    requires
        s.len() > 0,
        rearranges(t, s.drop_last(), p0),
        0 <= k <= t.len(),
    ensures
        rearranges(t.insert(k, s.last()), s, p0.insert(k, s.len() - 1)),
{
    let s0 = s.drop_last();
    let n = s.len() - 1;
    let out = t.insert(k, s.last());
    let p = p0.insert(k, n);
    assert forall|j: int| 0 <= j < p.len() implies 0 <= #[trigger] p[j] < s.len() && out[j] == s[p[j]] by {
        if j < k {
            assert(p[j] == p0[j] && out[j] == t[j] && s0[p0[j]] == s[p0[j]]);
        } else if j > k {
            assert(p[j] == p0[j - 1] && out[j] == t[j - 1] && s0[p0[j - 1]] == s[p0[j - 1]]);
        }
    }
    assert forall|a: int, b: int| 0 <= a < b < p.len() implies #[trigger] p[a] != #[trigger] p[b] by {
        let a0 = if a < k { a } else { a - 1 };
        let b0 = if b < k { b } else { b - 1 };
        if a != k && b != k {
            assert(p[a] == p0[a0] && p[b] == p0[b0]);
        } else if a == k {
            assert(p[b] == p0[b0]);
        } else {
            assert(p[a] == p0[a0]);
        }
    }
}

/// Inserting `s.last()` into the sorted `t` at the slot before the first
/// record that sorts after it keeps `t` sorted and stable, for any
/// consistent order `ord`.
proof fn lemma_insert_sorted_by(ord: spec_fn(Record, Record) -> Order, s: Seq<Record>, t: Seq<Record>, p0: Seq<int>, k: int)
    requires
        s.len() > 0,
        consistent_by(ord, s),
        rearranges(t, s.drop_last(), p0),
        sorted_by(ord, t, p0),
        0 <= k <= t.len(),
        forall|j: int| 0 <= j < k ==> ord(#[trigger] t[j], s.last()) != Order::Greater,
        k < t.len() ==> ord(t[k], s.last()) == Order::Greater,
    ensures
        sorted_by(ord, t.insert(k, s.last()), p0.insert(k, s.len() - 1)),
{
    let x = s.last();
    let n = s.len() - 1;
    let out = t.insert(k, x);
    let p = p0.insert(k, n);
    assert(x == s[n]);
    assert forall|a: int, b: int| #![trigger ord(out[a], out[b])] 0 <= a < b < out.len() implies {
        &&& ord(out[a], out[b]) != Order::Greater
        &&& ord(out[a], out[b]) == Order::Equal ==> p[a] < p[b]
    } by {
        let a0 = if a < k { a } else { a - 1 };
        let b0 = if b < k { b } else { b - 1 };
        if a != k && b != k {
            assert(out[a] == t[a0] && out[b] == t[b0] && p[a] == p0[a0] && p[b] == p0[b0]);
            assert(a0 < b0);
            assert(ord(t[a0], t[b0]) != Order::Greater);
        } else if b == k {
            assert(out[a] == t[a] && out[b] == x && p[a] == p0[a]);
            assert(ord(t[a], x) != Order::Greater);
            assert(p0[a] < n);
        } else {
            // x goes before a record that sorts after it
            assert(out[a] == x && out[b] == t[b0] && b0 >= k);
            let ik = p0[k];
            let ib = p0[b0];
            assert(s.drop_last()[ik] == s[ik] && s.drop_last()[ib] == s[ib]);
            assert(t[k] == s[ik] && t[b0] == s[ib]);
            assert(ord(s[ik], s[n]) == Order::Greater);
            assert(ord(s[n], s[ik]) == reverse_order(ord(s[ik], s[n])));
            assert(ord(s[n], s[ib]) == reverse_order(ord(s[ib], s[n])));
            if b0 > k {
                assert(ord(t[k], t[b0]) != Order::Greater);
                if ord(s[n], s[ib]) != Order::Less {
                    assert(ord(s[ib], s[n]) != Order::Greater);
                    assert(ord(s[ik], s[ib]) != Order::Greater);
                    assert(ord(s[ik], s[n]) != Order::Greater);
                }
            }
            assert(p[a] == n && p[b] == ib && ib < n);
        }
    }
    assert(sorted_by(ord, out, p));
}

proof fn lemma_insert_sorted(s: Seq<Record>, fields: Seq<SortField>, t: Seq<Record>, p0: Seq<int>)
    requires
        s.len() > 0,
        order_consistent(s, fields),
        rearranges(t, s.drop_last(), p0),
        sorted_stably(t, fields, p0),
    ensures
        sorted_stably(t.insert(insert_slot(t, s.last(), fields), s.last()), fields,
            p0.insert(insert_slot(t, s.last(), fields), s.len() - 1)),
{
    lemma_insert_slot_props(t, s.last(), fields);
    let k = insert_slot(t, s.last(), fields);
    let ord = by_fields(fields);
    assert forall|j: int| 0 <= j < k implies ord(#[trigger] t[j], s.last()) != Order::Greater by {
        assert(records_order(t[j], s.last(), fields) != Order::Greater);
    }
    lemma_insert_sorted_by(ord, s, t, p0, k);
}

proof fn lemma_insertion_sorted_props(s: Seq<Record>, fields: Seq<SortField>) -> (p: Seq<int>)
    ensures
        rearranges(insertion_sorted(s, fields), s, p),
        order_consistent(s, fields) ==> sorted_stably(insertion_sorted(s, fields), fields, p),
    decreases s.len(),
{
    if s.len() == 0 {
        return Seq::<int>::empty();
    }
    let p0 = lemma_insertion_sorted_props(s.drop_last(), fields);
    let t = insertion_sorted(s.drop_last(), fields);
    lemma_insert_slot_bound(t, s.last(), fields);
    let k = insert_slot(t, s.last(), fields);
    assert(insertion_sorted(s, fields) == t.insert(k, s.last()));
    lemma_insert_rearranges(s, t, p0, k);
    if order_consistent(s, fields) {
        lemma_consistent_drop_last(by_fields(fields), s);
        lemma_insert_sorted(s, fields, t, p0);
    }
    p0.insert(k, s.len() - 1)
}

/// Sorting rearranges the records, no more; where the sort fields order
/// the records consistently, the result is in order and stable: records
/// that compare equal keep the order they came in.
pub proof fn sort_is_stable_rearrangement(s: Seq<Record>, fields: Seq<SortField>) -> (p: Seq<int>)
    ensures
        rearranges(sorted_records(s, fields), s, p),
        order_consistent(s, fields) ==> sorted_stably(sorted_records(s, fields), fields, p),
{
    if fields.len() == 0 {
        let p = Seq::new(s.len(), |i: int| i);
        assert(sorted_stably(s, fields, p));
        p
    } else {
        lemma_insertion_sorted_props(s, fields)
    }
}

/// Compares two records by one sort field.
fn compare_by_field(a: &Record, b: &Record, sf: &SortField) -> (r: Order)
    ensures
        r == field_order(*a, *b, *sf),
{
    let raw = if crate::json::str_equal(sf.field.as_str(), "created_at_ms") {
        compare_u64(a.created_at_ms, b.created_at_ms)
    } else {
        let av = get_field(&a.data, sf.field.as_str());
        let bv = get_field(&b.data, sf.field.as_str());
        match (av, bv) {
            (Some(x), Some(y)) => match compare_json(x, y) {
                Some(o) => o,
                None => Order::Equal,
            },
            (Some(_), None) => Order::Less,
            (None, Some(_)) => Order::Greater,
            (None, None) => Order::Equal,
        }
    };
    match sf.order {
        SortOrder::Asc => raw,
        SortOrder::Desc => match raw {
            Order::Less => Order::Greater,
            Order::Equal => Order::Equal,
            Order::Greater => Order::Less,
        },
    }
}

/// Compares two records by a list of sort fields; the first field that
/// tells them apart decides.
fn compare_records(a: &Record, b: &Record, sort_fields: &[SortField]) -> (r: Order)
    ensures
        r == records_order(*a, *b, sort_fields@),
{
    let mut i: usize = 0;
    assert(sort_fields@.skip(0) =~= sort_fields@);
    while i < sort_fields.len()
        invariant
            i <= sort_fields@.len(),
            records_order(*a, *b, sort_fields@) == records_order(*a, *b, sort_fields@.skip(i as int)),
        decreases sort_fields@.len() - i,
    {
        assert(sort_fields@.skip(i as int).drop_first() =~= sort_fields@.skip(i + 1));
        let o = compare_by_field(a, b, &sort_fields[i]);
        match o {
            Order::Equal => {},
            _ => {
                return o;
            },
        }
        i += 1;
    }
    Order::Equal
}

/// Sorts records by a list of sort fields (stable; the first field that
/// tells two records apart decides). No sort fields: the order is kept.
pub fn apply_sort(records: &mut Vec<Record>, sort_fields: &[SortField])
    ensures
        final(records)@ == sorted_records(old(records)@, sort_fields@),
        exists|p: Seq<int>| #[trigger] rearranges(final(records)@, old(records)@, p) && (order_consistent(old(records)@,
            sort_fields@) ==> sorted_stably(final(records)@, sort_fields@, p)),
{
    proof {
        let p = sort_is_stable_rearrangement(records@, sort_fields@);
    }
    if sort_fields.len() == 0 {
        return;
    }
    let ghost orig = records@;
    let mut input: Vec<Record> = Vec::new();
    std::mem::swap(records, &mut input);
    let mut out: Vec<Record> = Vec::new();
    let ghost n = orig.len();
    assert(orig.take(0) =~= Seq::<Record>::empty());
    assert(orig.skip(0) =~= orig);
    while input.len() > 0
        invariant
            n == orig.len(),
            input@.len() <= n,
            input@ == orig.skip(n - input@.len()),
            out@ == insertion_sorted(orig.take(n - input@.len()), sort_fields@),
        decreases input@.len(),
    {
        let ghost k = n - input@.len();
        let x = input.remove(0);
        assert(input@ =~= orig.skip(k + 1));
        proof {
            lemma_insertion_sorted_len(orig.take(k), sort_fields@);
        }
        let mut p: usize = 0;
        assert(out@.skip(0) =~= out@);
        while p < out.len()
            invariant
                p <= out@.len(),
                insert_slot(out@, x, sort_fields@) == insert_slot(out@.skip(p as int), x, sort_fields@) + p,
            ensures
                insert_slot(out@, x, sort_fields@) == p,
            decreases out@.len() - p,
        {
            assert(out@.skip(p as int).drop_first() =~= out@.skip(p + 1));
            match compare_records(&out[p], &x, sort_fields) {
                Order::Greater => {
                    break;
                },
                _ => {},
            }
            p += 1;
        }
        proof {
            lemma_insert_slot_bound(out@, x, sort_fields@);
            assert(orig.take(k + 1).drop_last() =~= orig.take(k));
            assert(orig.take(k + 1).last() == x);
        }
        out.insert(p, x);
    }
    assert(orig.take(n as int) =~= orig);
    *records = out;
}

/// The sort key of a record for a field: its creation time for
/// `created_at_ms`, else the field's value in its data (`null` when missing).
pub fn extract_sort_value(record: &Record, field: &str) -> (r: JsonValue)
    ensures
        field@ == "created_at_ms"@ ==> r@ == JsonView::Number(crate::json::JsonNumber::PosInt(record.created_at_ms)),
        field@ != "created_at_ms"@ ==> r@ == (match field_of(record.data@, field@) {
            Some(v) => v,
            None => JsonView::Null,
        }),
{
    if crate::json::str_equal(field, "created_at_ms") {
        JsonValue::uint(record.created_at_ms)
    } else {
        match get_field(&record.data, field) {
            Some(v) => v.deep_copy(),
            None => JsonValue::Null,
        }
    }
}

} // verus!
