//! The JSON value model used for record data, schema validation, filters,
//! sorting and canonical encoding.
//!
//! Numbers are exact: integers are kept as integers, and non-integral
//! numbers as decimals `mantissa / 10^scale`. Objects built with
//! [`object_insert`] keep one entry per key, in byte-wise key order, as
//! an ordered map does.

use vstd::prelude::*;
use vstd::string::*;
use vstd::utf8::encode_utf8;
use crate::order::{Order, byte_order, lemma_byte_order_antisym, lemma_byte_order_trans_less,
    lemma_byte_order_equal, compare_strs};

verus! {

broadcast use vstd::std_specs::vec::group_vec_axioms, vstd::seq::group_seq_axioms;

/// A JSON number.
#[derive(Debug, Clone, Copy, PartialEq, Eq, Structural)]
pub enum JsonNumber {
    /// A non-negative integer.
    PosInt(u64),
    /// A negative integer.
    NegInt(i64),
    /// A decimal number `mantissa / 10^scale`.
    Float(i64, u32),
}

/// A JSON value.
#[derive(Debug)]
pub enum JsonValue {
    Null,
    Bool(bool),
    Number(JsonNumber),
    String(String),
    Array(Vec<JsonValue>),
    /// Entries of an object, as (key, value) pairs.
    Object(Vec<(String, JsonValue)>),
}

/// The mathematical content of a [`JsonValue`].
pub enum JsonView {
    Null,
    Bool(bool),
    Number(JsonNumber),
    Str(Seq<char>),
    Array(Seq<JsonView>),
    Object(Seq<(Seq<char>, JsonView)>),
}

pub open spec fn json_view(v: JsonValue) -> JsonView
    decreases v,
{
    match v {
        JsonValue::Null => JsonView::Null,
        JsonValue::Bool(b) => JsonView::Bool(b),
        JsonValue::Number(n) => JsonView::Number(n),
        JsonValue::String(s) => JsonView::Str(s@),
        JsonValue::Array(a) => JsonView::Array(views_of(a@)),
        JsonValue::Object(o) => JsonView::Object(entry_views(o@)),
    }
}

/// The views of a sequence of values.
pub open spec fn views_of(s: Seq<JsonValue>) -> Seq<JsonView>
    decreases s,
{
    if s.len() == 0 {
        Seq::empty()
    } else {
        views_of(s.drop_last()).push(json_view(s.last()))
    }
}

/// The views of a sequence of object entries.
pub open spec fn entry_views(s: Seq<(String, JsonValue)>) -> Seq<(Seq<char>, JsonView)>
    decreases s,
{
    if s.len() == 0 {
        Seq::empty()
    } else {
        entry_views(s.drop_last()).push((s.last().0@, json_view(s.last().1)))
    }
}

impl View for JsonValue {
    type V = JsonView;

    open spec fn view(&self) -> JsonView {
        json_view(*self)
    }
}

pub proof fn lemma_views_of(s: Seq<JsonValue>)
    ensures
        views_of(s).len() == s.len(),
        forall|i: int| 0 <= i < s.len() ==> #[trigger] views_of(s)[i] == json_view(s[i]),
    decreases s.len(),
{
    if s.len() > 0 {
        lemma_views_of(s.drop_last());
    }
}

pub proof fn lemma_entry_views(s: Seq<(String, JsonValue)>)
    ensures
        entry_views(s).len() == s.len(),
        forall|i: int| 0 <= i < s.len() ==> #[trigger] entry_views(s)[i] == (s[i].0@, json_view(s[i].1)),
    decreases s.len(),
{
    if s.len() > 0 {
        lemma_entry_views(s.drop_last());
    }
}

pub proof fn lemma_views_push(s: Seq<JsonValue>, x: JsonValue)
    ensures
        views_of(s.push(x)) == views_of(s).push(json_view(x)),
{
    assert(s.push(x).drop_last() =~= s);
}

pub proof fn lemma_entry_views_push(s: Seq<(String, JsonValue)>, x: (String, JsonValue))
    ensures
        entry_views(s.push(x)) == entry_views(s).push((x.0@, json_view(x.1))),
{
    assert(s.push(x).drop_last() =~= s);
}

// ---------------------------------------------------------------------------
// Copying
// ---------------------------------------------------------------------------

impl JsonValue {
    /// A copy of this value, with the same content.
    pub fn deep_copy(&self) -> (r: JsonValue)
        ensures
            r@ == self@,
        decreases self,
    {
        match self {
            JsonValue::Null => JsonValue::Null,
            JsonValue::Bool(b) => JsonValue::Bool(*b),
            JsonValue::Number(n) => JsonValue::Number(*n),
            JsonValue::String(s) => JsonValue::String(s.clone()),
            JsonValue::Array(a) => {
                let mut out: Vec<JsonValue> = Vec::new();
                let mut i: usize = 0;
                while i < a.len()
                    invariant
                        i <= a@.len(),
                        *self == JsonValue::Array(*a),
                        views_of(out@) == views_of(a@.take(i as int)),
                    decreases a@.len() - i,
                {
                    proof {
                        assert(*self == JsonValue::Array(*a));
                        assert(decreases_to!(*self => (*self)->Array_0));
                        assert(decreases_to!(*a => a[i as int]));
                    }
                    let c = a[i].deep_copy();
                    proof {
                        lemma_views_push(out@, c);
                        lemma_views_push(a@.take(i as int), a@[i as int]);
                        assert(a@.take(i + 1) =~= a@.take(i as int).push(a@[i as int]));
                    }
                    out.push(c);
                    i += 1;
                }
                assert(a@.take(a@.len() as int) =~= a@);
                JsonValue::Array(out)
            },
            JsonValue::Object(o) => {
                let mut out: Vec<(String, JsonValue)> = Vec::new();
                let mut i: usize = 0;
                while i < o.len()
                    invariant
                        i <= o@.len(),
                        *self == JsonValue::Object(*o),
                        entry_views(out@) == entry_views(o@.take(i as int)),
                    decreases o@.len() - i,
                {
                    let k = o[i].0.clone();
                    proof {
                        assert(*self == JsonValue::Object(*o));
                        assert(decreases_to!(*self => (*self)->Object_0));
                        assert(decreases_to!(*o => o[i as int]));
                        assert(decreases_to!(o[i as int] => o[i as int].1));
                    }
                    let c = o[i].1.deep_copy();
                    proof {
                        lemma_entry_views_push(out@, (k, c));
                        lemma_entry_views_push(o@.take(i as int), o@[i as int]);
                        assert(o@.take(i + 1) =~= o@.take(i as int).push(o@[i as int]));
                    }
                    out.push((k, c));
                    i += 1;
                }
                assert(o@.take(o@.len() as int) =~= o@);
                JsonValue::Object(out)
            },
        }
    }
}

impl Clone for JsonValue {
    fn clone(&self) -> (r: Self)
        ensures
            r@ == self@,
    {
        self.deep_copy()
    }
}

// ---------------------------------------------------------------------------
// Numbers
// ---------------------------------------------------------------------------

/// `10^n`.
pub open spec fn pow10(n: nat) -> nat
    decreases n,
{
    if n == 0 {
        1
    } else {
        10 * pow10((n - 1) as nat)
    }
}

/// The numerator of a number over `10^scale`.
pub open spec fn number_numerator(n: JsonNumber) -> int {
    match n {
        JsonNumber::PosInt(u) => u as int,
        JsonNumber::NegInt(i) => i as int,
        JsonNumber::Float(m, _) => m as int,
    }
}

/// The decimal scale of a number (0 for integers).
pub open spec fn number_scale(n: JsonNumber) -> nat {
    match n {
        JsonNumber::Float(_, s) => s as nat,
        _ => 0,
    }
}

/// Whether a number is an integer (as opposed to a decimal).
pub open spec fn is_integer(n: JsonNumber) -> bool {
    !(n is Float)
}

/// -1, 0 or 1.
pub open spec fn int_sign(x: int) -> int {
    if x < 0 {
        -1
    } else if x == 0 {
        0
    } else {
        1
    }
}

/// The sign of `a - b` for the values of two numbers.
pub open spec fn number_sign(a: JsonNumber, b: JsonNumber) -> int {
    int_sign(number_numerator(a) * pow10(number_scale(b)) - number_numerator(b) * pow10(number_scale(a)))
}

/// The order of the values of two numbers.
pub open spec fn number_order(a: JsonNumber, b: JsonNumber) -> Order {
    sign_order(number_sign(a, b))
}

/// The order a sign stands for.
pub open spec fn sign_order(s: int) -> Order {
    if s < 0 {
        Order::Less
    } else if s == 0 {
        Order::Equal
    } else {
        Order::Greater
    }
}

/// Two numbers are equal when both are integers or both are decimals, and
/// their values are equal.
pub open spec fn numbers_equal(a: JsonNumber, b: JsonNumber) -> bool {
    is_integer(a) == is_integer(b) && number_sign(a, b) == 0
}

pub proof fn lemma_pow10_positive(n: nat)
    ensures
        pow10(n) >= 1,
    decreases n,
{
    if n > 0 {
        lemma_pow10_positive((n - 1) as nat);
    }
}

pub proof fn lemma_pow10_add(a: nat, b: nat)
    ensures
        pow10(a + b) == pow10(a) * pow10(b),
    decreases a,
{
    if a > 0 {
        let a1 = (a - 1) as nat;
        lemma_pow10_add(a1, b);
        assert((a + b) as nat - 1 == a1 + b);
        assert(pow10(a + b) == 10 * pow10(a1 + b));
        assert(pow10(a) == 10 * pow10(a1));
        let x = pow10(a1);
        let y = pow10(b);
        assert(10 * (x * y) == (10 * x) * y) by (nonlinear_arith);
        assert(pow10(a + b) == pow10(a) * pow10(b));
    } else {
        assert(pow10(a) == 1);
        assert(a + b == b);
    }
}

pub proof fn lemma_pow10_mono(a: nat, b: nat)
    requires
        a <= b,
    ensures
        pow10(a) <= pow10(b),
    decreases b,
{
    if a < b {
        lemma_pow10_mono(a, (b - 1) as nat);
        lemma_pow10_positive((b - 1) as nat);
    }
}

proof fn lemma_pow10_20()
    ensures
        pow10(20) == 100000000000000000000,
{
    reveal_with_fuel(pow10, 21);
}

/// `10^k` for `k <= 19`.
fn pow10_u128(k: u32) -> (r: u128)
    requires
        k <= 19,
    ensures
        r as int == pow10(k as nat),
        r <= 10000000000000000000,
{
    let mut r: u128 = 1;
    let mut i: u32 = 0;
    proof {
        lemma_pow10_mono(0, 19);
    }
    while i < k
        invariant
            i <= k <= 19,
            r as int == pow10(i as nat),
            r <= pow10(i as nat),
            pow10(i as nat) <= pow10(19),
        decreases k - i,
    {
        proof {
            lemma_pow10_mono((i + 1) as nat, 19);
            reveal_with_fuel(pow10, 20);
        }
        r = r * 10;
        i += 1;
    }
    proof {
        reveal_with_fuel(pow10, 20);
    }
    r
}

/// The sign of `m1 * 10^k - m2`.
fn scaled_sign(m1: u64, k: u32, m2: u64) -> (r: i8)
    ensures
        r as int == int_sign(m1 as int * pow10(k as nat) - m2 as int),
{
    if m1 == 0 {
        assert(m1 as int * pow10(k as nat) == 0);
        if m2 == 0 { 0 } else { -1 }
    } else if k >= 20 {
        proof {
            lemma_pow10_mono(20, k as nat);
            lemma_pow10_20();
            let p = pow10(k as nat);
            assert(m1 as int * p >= p) by (nonlinear_arith)
                requires m1 >= 1, p >= 0;
        }
        1
    } else {
        let p = pow10_u128(k);
        proof {
            let pp = p as int;
            assert(m1 as int * pp <= 18446744073709551615 * 10000000000000000000) by (nonlinear_arith)
                requires m1 <= 18446744073709551615, pp <= 10000000000000000000, pp >= 0;
        }
        let x: u128 = (m1 as u128) * p;
        let y: u128 = m2 as u128;
        if x < y {
            -1
        } else if x == y {
            0
        } else {
            1
        }
    }
}

proof fn lemma_sign_scale(x: int, c: int)
    requires
        c > 0,
    ensures
        int_sign(c * x) == int_sign(x),
{
    if x < 0 {
        assert(c * x < 0) by (nonlinear_arith)
            requires c > 0, x < 0;
    } else if x > 0 {
        assert(c * x > 0) by (nonlinear_arith)
            requires c > 0, x > 0;
    } else {
        assert(c * x == 0) by (nonlinear_arith)
            requires x == 0;
    }
}

/// The sign of `m1 / 10^s1 - m2 / 10^s2`.
fn magnitude_sign(m1: u64, s1: u32, m2: u64, s2: u32) -> (r: i8)
    ensures
        r as int == int_sign(m1 as int * pow10(s2 as nat) - m2 as int * pow10(s1 as nat)),
{
    if s1 <= s2 {
        let k = s2 - s1;
        let r = scaled_sign(m1, k, m2);
        proof {
            lemma_pow10_add(s1 as nat, k as nat);
            lemma_pow10_positive(s1 as nat);
            let p1 = pow10(s1 as nat);
            let pk = pow10(k as nat);
            assert(m1 as int * (p1 * pk) - m2 as int * p1 == p1 * (m1 as int * pk - m2 as int))
                by (nonlinear_arith);
            lemma_sign_scale(m1 as int * pk - m2 as int, p1 as int);
        }
        r
    } else {
        let k = s1 - s2;
        let r = scaled_sign(m2, k, m1);
        proof {
            lemma_pow10_add(s2 as nat, k as nat);
            lemma_pow10_positive(s2 as nat);
            let p2 = pow10(s2 as nat);
            let pk = pow10(k as nat);
            assert(m1 as int * p2 - m2 as int * (p2 * pk) == -(p2 * (m2 as int * pk - m1 as int)))
                by (nonlinear_arith);
            lemma_sign_scale(m2 as int * pk - m1 as int, p2 as int);
        }
        -r
    }
}

/// Sign, magnitude and scale of a number: its value is `±magnitude / 10^scale`.
fn number_parts(n: &JsonNumber) -> (r: (bool, u64, u32))
    ensures
        number_numerator(*n) == (if r.0 { -(r.1 as int) } else { r.1 as int }),
        number_scale(*n) == r.2 as nat,
        r.0 ==> r.1 > 0,
{
    match n {
        JsonNumber::PosInt(u) => (false, *u, 0),
        JsonNumber::NegInt(i) => {
            if *i < 0 {
                (true, (-(*i as i128)) as u64, 0)
            } else {
                (false, *i as u64, 0)
            }
        },
        JsonNumber::Float(m, s) => {
            if *m < 0 {
                (true, (-(*m as i128)) as u64, *s)
            } else {
                (false, *m as u64, *s)
            }
        },
    }
}

/// The sign of the difference of the values of two numbers.
pub fn number_sign_of(a: &JsonNumber, b: &JsonNumber) -> (r: i8)
    ensures
        r as int == number_sign(*a, *b),
{
    let (n1, m1, s1) = number_parts(a);
    let (n2, m2, s2) = number_parts(b);
    let ghost p1 = pow10(s1 as nat);
    let ghost p2 = pow10(s2 as nat);
    proof {
        lemma_pow10_positive(s1 as nat);
        lemma_pow10_positive(s2 as nat);
    }
    if !n1 && !n2 {
        magnitude_sign(m1, s1, m2, s2)
    } else if n1 && n2 {
        let r = magnitude_sign(m1, s1, m2, s2);
        proof {
            assert((-(m1 as int)) * p2 - (-(m2 as int)) * p1 == -(m1 as int * p2 - m2 as int * p1))
                by (nonlinear_arith);
        }
        -r
    } else if n1 {
        proof {
            assert((-(m1 as int)) * p2 < 0) by (nonlinear_arith)
                requires m1 > 0, p2 >= 1;
            assert(m2 as int * p1 >= 0) by (nonlinear_arith)
                requires m2 >= 0, p1 >= 1;
        }
        -1
    } else {
        proof {
            assert((-(m2 as int)) * p1 < 0) by (nonlinear_arith)
                requires m2 > 0, p1 >= 1;
            assert(m1 as int * p2 >= 0) by (nonlinear_arith)
                requires m1 >= 0, p2 >= 1;
        }
        1
    }
}

/// Compares the values of two numbers.
pub fn compare_numbers(a: &JsonNumber, b: &JsonNumber) -> (r: Order)
    ensures
        r == number_order(*a, *b),
{
    let s = number_sign_of(a, b);
    if s < 0 {
        Order::Less
    } else if s == 0 {
        Order::Equal
    } else {
        Order::Greater
    }
}

/// Whether two numbers are equal (see [`numbers_equal`]).
pub fn numbers_eq(a: &JsonNumber, b: &JsonNumber) -> (r: bool)
    ensures
        r == numbers_equal(*a, *b),
{
    let ia = !matches!(a, JsonNumber::Float(_, _));
    let ib = !matches!(b, JsonNumber::Float(_, _));
    ia == ib && number_sign_of(a, b) == 0
}


// ---------------------------------------------------------------------------
// Equality, field access and comparison
// ---------------------------------------------------------------------------

/// Equality of JSON values: numbers by [`numbers_equal`], strings by their
/// characters, arrays element-wise, objects entry-wise in order.
pub open spec fn values_equal(a: JsonView, b: JsonView) -> bool
    decreases a,
{
    match (a, b) {
        (JsonView::Null, JsonView::Null) => true,
        (JsonView::Bool(x), JsonView::Bool(y)) => x == y,
        (JsonView::Number(x), JsonView::Number(y)) => numbers_equal(x, y),
        (JsonView::Str(x), JsonView::Str(y)) => x == y,
        (JsonView::Array(xs), JsonView::Array(ys)) => {
            &&& xs.len() == ys.len()
            &&& forall|i: int| 0 <= i < xs.len() ==> values_equal(#[trigger] xs[i], ys[i])
        },
        (JsonView::Object(xs), JsonView::Object(ys)) => {
            &&& xs.len() == ys.len()
            &&& forall|i: int|
                0 <= i < xs.len() ==> (#[trigger] xs[i]).0 == ys[i].0 && values_equal(xs[i].1, ys[i].1)
        },
        _ => false,
    }
}

/// Whether two JSON values are equal (see [`values_equal`]).
pub fn json_equal(a: &JsonValue, b: &JsonValue) -> (r: bool)
    ensures
        r == values_equal(a@, b@),
    decreases a,
{
    match (a, b) {
        (JsonValue::Null, JsonValue::Null) => true,
        (JsonValue::Bool(x), JsonValue::Bool(y)) => *x == *y,
        (JsonValue::Number(x), JsonValue::Number(y)) => numbers_eq(x, y),
        (JsonValue::String(x), JsonValue::String(y)) => *x == *y,
        (JsonValue::Array(xs), JsonValue::Array(ys)) => {
            proof {
                lemma_views_of(xs@);
                lemma_views_of(ys@);
            }
            if xs.len() != ys.len() {
                return false;
            }
            let mut i: usize = 0;
            while i < xs.len()
                invariant
                    i <= xs@.len() == ys@.len(),
                    *a == JsonValue::Array(*xs),
                    *b == JsonValue::Array(*ys),
                    views_of(xs@).len() == xs@.len(),
                    views_of(ys@).len() == ys@.len(),
                    forall|j: int| 0 <= j < xs@.len() ==> #[trigger] views_of(xs@)[j] == json_view(xs@[j]),
                    forall|j: int| 0 <= j < ys@.len() ==> #[trigger] views_of(ys@)[j] == json_view(ys@[j]),
                    forall|j: int| 0 <= j < i ==> values_equal(#[trigger] views_of(xs@)[j], views_of(ys@)[j]),
                decreases xs@.len() - i,
            {
                proof {
                    assert(decreases_to!(*a => (*a)->Array_0));
                    assert(decreases_to!(*xs => xs[i as int]));
                }
                if !json_equal(&xs[i], &ys[i]) {
                    assert(!values_equal(views_of(xs@)[i as int], views_of(ys@)[i as int]));
                    return false;
                }
                i += 1;
            }
            true
        },
        (JsonValue::Object(xs), JsonValue::Object(ys)) => {
            proof {
                lemma_entry_views(xs@);
                lemma_entry_views(ys@);
            }
            if xs.len() != ys.len() {
                return false;
            }
            let mut i: usize = 0;
            while i < xs.len()
                invariant
                    i <= xs@.len() == ys@.len(),
                    *a == JsonValue::Object(*xs),
                    *b == JsonValue::Object(*ys),
                    entry_views(xs@).len() == xs@.len(),
                    entry_views(ys@).len() == ys@.len(),
                    forall|j: int| 0 <= j < xs@.len() ==> #[trigger] entry_views(xs@)[j] == (xs@[j].0@, json_view(xs@[j].1)),
                    forall|j: int| 0 <= j < ys@.len() ==> #[trigger] entry_views(ys@)[j] == (ys@[j].0@, json_view(ys@[j].1)),
                    forall|j: int| 0 <= j < i ==> (#[trigger] entry_views(xs@)[j]).0 == entry_views(ys@)[j].0
                        && values_equal(entry_views(xs@)[j].1, entry_views(ys@)[j].1),
                decreases xs@.len() - i,
            {
                proof {
                    assert(decreases_to!(*a => (*a)->Object_0));
                    assert(decreases_to!(*xs => xs[i as int]));
                    assert(decreases_to!(xs[i as int] => xs[i as int].1));
                }
                let ghost xv = entry_views(xs@)[i as int];
                let ghost yv = entry_views(ys@)[i as int];
                if xs[i].0 != ys[i].0 {
                    assert(xv.0 != yv.0);
                    return false;
                }
                if !json_equal(&xs[i].1, &ys[i].1) {
                    assert(!values_equal(xv.1, yv.1));
                    return false;
                }
                i += 1;
            }
            true
        },
        _ => false,
    }
}

/// The value of the first entry with key `k`.
pub open spec fn view_lookup(entries: Seq<(Seq<char>, JsonView)>, k: Seq<char>) -> Option<JsonView>
    decreases entries.len(),
{
    if entries.len() == 0 {
        None
    } else if entries[0].0 == k {
        Some(entries[0].1)
    } else {
        view_lookup(entries.drop_first(), k)
    }
}

/// The value of field `k` of an object; `None` for a missing field or a non-object.
pub open spec fn field_of(v: JsonView, k: Seq<char>) -> Option<JsonView> {
    match v {
        JsonView::Object(es) => view_lookup(es, k),
        _ => None,
    }
}

/// The value of field `field` of `data`, when `data` is an object holding it.
pub fn get_field<'a>(data: &'a JsonValue, field: &str) -> (r: Option<&'a JsonValue>)
    ensures
        r is Some <==> field_of(data@, field@) is Some,
        r matches Some(v) ==> field_of(data@, field@) == Some(v@),
{
    match data {
        JsonValue::Object(es) => {
            proof {
                lemma_entry_views(es@);
            }
            let mut i: usize = 0;
            assert(entry_views(es@).skip(0) =~= entry_views(es@));
            while i < es.len()
                invariant
                    i <= es@.len(),
                    *data == JsonValue::Object(*es),
                    entry_views(es@).len() == es@.len(),
                    forall|j: int| 0 <= j < es@.len() ==> #[trigger] entry_views(es@)[j] == (es@[j].0@, json_view(es@[j].1)),
                    field_of(data@, field@) == view_lookup(entry_views(es@).skip(i as int), field@),
                decreases es@.len() - i,
            {
                assert(entry_views(es@).skip(i as int).drop_first() =~= entry_views(es@).skip(i + 1));
                if str_equal(es[i].0.as_str(), field) {
                    return Some(&es[i].1);
                }
                i += 1;
            }
            None
        },
        _ => None,
    }
}

/// The order of two JSON values of the same kind; `None` for values of
/// different kinds, arrays and objects. Numbers are ordered by value,
/// strings by their UTF-8 bytes, `false` before `true`, and `null` equals `null`.
pub open spec fn value_order(a: JsonView, b: JsonView) -> Option<Order> {
    match (a, b) {
        (JsonView::Number(x), JsonView::Number(y)) => Some(number_order(x, y)),
        (JsonView::Str(x), JsonView::Str(y)) => Some(byte_order(encode_utf8(x), encode_utf8(y))),
        (JsonView::Bool(x), JsonView::Bool(y)) => Some(
            if x == y { Order::Equal } else if !x { Order::Less } else { Order::Greater },
        ),
        (JsonView::Null, JsonView::Null) => Some(Order::Equal),
        _ => None,
    }
}

/// Compares two JSON values (see [`value_order`]).
pub fn compare_json(a: &JsonValue, b: &JsonValue) -> (r: Option<Order>)
    ensures
        r == value_order(a@, b@),
{
    match (a, b) {
        (JsonValue::Number(x), JsonValue::Number(y)) => Some(compare_numbers(x, y)),
        (JsonValue::String(x), JsonValue::String(y)) => Some(compare_strs(x.as_str(), y.as_str())),
        (JsonValue::Bool(x), JsonValue::Bool(y)) => Some(
            if *x == *y { Order::Equal } else if !*x { Order::Less } else { Order::Greater },
        ),
        (JsonValue::Null, JsonValue::Null) => Some(Order::Equal),
        _ => None,
    }
}

/// Whether two strings are equal.
pub fn str_equal(a: &str, b: &str) -> (r: bool)
    ensures
        r == (a@ == b@),
{
    let o = compare_strs(a, b);
    proof {
        lemma_byte_order_equal(a.spec_bytes(), b.spec_bytes());
        vstd::utf8::encode_utf8_decode_utf8(a@);
        vstd::utf8::encode_utf8_decode_utf8(b@);
    }
    match o {
        Order::Equal => true,
        _ => false,
    }
}


// ---------------------------------------------------------------------------
// Objects as ordered maps
// ---------------------------------------------------------------------------

/// The UTF-8 bytes of a key.
pub open spec fn key_bytes(k: Seq<char>) -> Seq<u8> {
    encode_utf8(k)
}

/// Keys strictly increase along the entries.
pub open spec fn keys_sorted(es: Seq<(Seq<char>, JsonView)>) -> bool {
    forall|i: int, j: int|
        0 <= i < j < es.len() ==> byte_order(#[trigger] key_bytes(es[i].0), #[trigger] key_bytes(es[j].0))
            == Order::Less
}

/// The index of the first entry with key `k`, or -1.
pub open spec fn key_index(es: Seq<(Seq<char>, JsonView)>, k: Seq<char>) -> int
    decreases es.len(),
{
    if es.len() == 0 {
        -1
    } else if es[0].0 == k {
        0
    } else {
        let r = key_index(es.drop_first(), k);
        if r < 0 { -1 } else { r + 1 }
    }
}

/// Where a new key `k` goes: just before the first entry whose key is greater.
pub open spec fn insert_position(es: Seq<(Seq<char>, JsonView)>, k: Seq<char>) -> int
    decreases es.len(),
{
    if es.len() == 0 {
        0
    } else if byte_order(key_bytes(es[0].0), key_bytes(k)) == Order::Greater {
        0
    } else {
        1 + insert_position(es.drop_first(), k)
    }
}

/// The entries after setting key `k` to `v`: an existing entry of `k` gets
/// the new value, else a new entry goes in at its place in key order.
pub open spec fn insert_entry(es: Seq<(Seq<char>, JsonView)>, k: Seq<char>, v: JsonView) -> Seq<(Seq<char>, JsonView)> {
    let i = key_index(es, k);
    if i >= 0 {
        es.update(i, (k, v))
    } else {
        es.insert(insert_position(es, k), (k, v))
    }
}

/// The entries after setting each pair in turn.
pub open spec fn insert_all(acc: Seq<(Seq<char>, JsonView)>, ps: Seq<(Seq<char>, JsonView)>) -> Seq<(Seq<char>, JsonView)>
    decreases ps.len(),
{
    if ps.len() == 0 {
        acc
    } else {
        insert_all(insert_entry(acc, ps[0].0, ps[0].1), ps.drop_first())
    }
}

proof fn lemma_key_index_bounds(es: Seq<(Seq<char>, JsonView)>, k: Seq<char>)
    ensures
        -1 <= key_index(es, k) < es.len(),
        key_index(es, k) >= 0 ==> es[key_index(es, k)].0 == k,
        key_index(es, k) == -1 ==> forall|j: int| 0 <= j < es.len() ==> es[j].0 != k,
    decreases es.len(),
{
    if es.len() > 0 {
        lemma_key_index_bounds(es.drop_first(), k);
        if es[0].0 != k {
            assert forall|j: int| 0 < j < es.len() implies es[j] == es.drop_first()[j - 1] by {}
        }
    }
}

proof fn lemma_insert_position_props(es: Seq<(Seq<char>, JsonView)>, k: Seq<char>)
    ensures
        0 <= insert_position(es, k) <= es.len(),
        forall|j: int| 0 <= j < insert_position(es, k) ==>
            byte_order(#[trigger] key_bytes(es[j].0), key_bytes(k)) != Order::Greater,
        insert_position(es, k) < es.len() ==> byte_order(
            key_bytes(es[insert_position(es, k)].0),
            key_bytes(k),
        ) == Order::Greater,
    decreases es.len(),
{
    if es.len() > 0 {
        lemma_insert_position_props(es.drop_first(), k);
        assert forall|j: int| 0 < j < es.len() implies es[j] == es.drop_first()[j - 1] by {}
    }
}

proof fn lemma_insert_keeps_sorted(es: Seq<(Seq<char>, JsonView)>, k: Seq<char>, v: JsonView)
    requires
        keys_sorted(es),
    ensures
        keys_sorted(insert_entry(es, k, v)),
{
    lemma_key_index_bounds(es, k);
    lemma_insert_position_props(es, k);
    let i = key_index(es, k);
    if i >= 0 {
        let n = es.update(i, (k, v));
        assert forall|a: int, b: int| 0 <= a < b < n.len() implies byte_order(
            #[trigger] key_bytes(n[a].0),
            #[trigger] key_bytes(n[b].0),
        ) == Order::Less by {
            assert(n[a].0 == es[a].0);
            assert(n[b].0 == es[b].0);
        }
    } else {
        let pos = insert_position(es, k);
        let n = es.insert(pos, (k, v));
        let kb = key_bytes(k);
        assert forall|j: int| 0 <= j < pos implies byte_order(#[trigger] key_bytes(es[j].0), kb) == Order::Less by {
            lemma_byte_order_equal(key_bytes(es[j].0), kb);
            vstd::utf8::encode_utf8_decode_utf8(es[j].0);
            vstd::utf8::encode_utf8_decode_utf8(k);
        }
        assert forall|j: int| pos <= j < es.len() implies byte_order(kb, #[trigger] key_bytes(es[j].0)) == Order::Less by {
            lemma_byte_order_antisym(key_bytes(es[pos].0), kb);
            if j > pos {
                lemma_byte_order_trans_less(kb, key_bytes(es[pos].0), key_bytes(es[j].0));
            }
        }
        assert forall|a: int, b: int| 0 <= a < b < n.len() implies byte_order(
            #[trigger] key_bytes(n[a].0),
            #[trigger] key_bytes(n[b].0),
        ) == Order::Less by {
            if b < pos {
            } else if b == pos {
            } else if a < pos {
                assert(byte_order(key_bytes(n[a].0), kb) == Order::Less);
                assert(byte_order(kb, key_bytes(n[b].0)) == Order::Less);
                lemma_byte_order_trans_less(key_bytes(n[a].0), kb, key_bytes(n[b].0));
            } else if a == pos {
            } else {
                assert(n[a] == es[a - 1]);
                assert(n[b] == es[b - 1]);
            }
        }
    }
}

proof fn lemma_entry_views_update(s: Seq<(String, JsonValue)>, i: int, x: (String, JsonValue))
    requires
        0 <= i < s.len(),
    ensures
        entry_views(s.update(i, x)) == entry_views(s).update(i, (x.0@, json_view(x.1))),
{
    lemma_entry_views(s);
    lemma_entry_views(s.update(i, x));
    assert(entry_views(s.update(i, x)) =~= entry_views(s).update(i, (x.0@, json_view(x.1))));
}

proof fn lemma_entry_views_insert(s: Seq<(String, JsonValue)>, i: int, x: (String, JsonValue))
    requires
        0 <= i <= s.len(),
    ensures
        entry_views(s.insert(i, x)) == entry_views(s).insert(i, (x.0@, json_view(x.1))),
{
    lemma_entry_views(s);
    lemma_entry_views(s.insert(i, x));
    assert(entry_views(s.insert(i, x)) =~= entry_views(s).insert(i, (x.0@, json_view(x.1))));
}

fn find_key(entries: &Vec<(String, JsonValue)>, key: &str) -> (r: Option<usize>)
    ensures
        r is None <==> key_index(entry_views(entries@), key@) == -1,
        r matches Some(i) ==> i as int == key_index(entry_views(entries@), key@) && i < entries@.len(),
{
    proof {
        lemma_entry_views(entries@);
        lemma_key_index_bounds(entry_views(entries@), key@);
    }
    let ghost ev = entry_views(entries@);
    let mut i: usize = 0;
    assert(ev.skip(0) =~= ev);
    while i < entries.len()
        invariant
            i <= entries@.len(),
            ev == entry_views(entries@),
            ev.len() == entries@.len(),
            forall|j: int| 0 <= j < entries@.len() ==> #[trigger] ev[j] == (entries@[j].0@, json_view(entries@[j].1)),
            key_index(ev, key@) == (if key_index(ev.skip(i as int), key@) < 0 { -1 } else {
                key_index(ev.skip(i as int), key@) + i
            }),
        decreases entries@.len() - i,
    {
        assert(ev.skip(i as int).drop_first() =~= ev.skip(i + 1));
        if str_equal(entries[i].0.as_str(), key) {
            return Some(i);
        }
        i += 1;
    }
    proof {
        assert(ev.skip(i as int).len() == 0);
    }
    None
}

fn find_insert_position(entries: &Vec<(String, JsonValue)>, key: &str) -> (r: usize)
    ensures
        r as int == insert_position(entry_views(entries@), key@),
{
    proof {
        lemma_entry_views(entries@);
    }
    let ghost ev = entry_views(entries@);
    let mut i: usize = 0;
    assert(ev.skip(0) =~= ev);
    while i < entries.len()
        invariant
            i <= entries@.len(),
            ev == entry_views(entries@),
            ev.len() == entries@.len(),
            forall|j: int| 0 <= j < entries@.len() ==> #[trigger] ev[j] == (entries@[j].0@, json_view(entries@[j].1)),
            insert_position(ev, key@) == insert_position(ev.skip(i as int), key@) + i,
        decreases entries@.len() - i,
    {
        assert(ev.skip(i as int).drop_first() =~= ev.skip(i + 1));
        let o = compare_strs(entries[i].0.as_str(), key);
        match o {
            Order::Greater => {
                return i;
            },
            _ => {},
        }
        i += 1;
    }
    i
}

/// Sets `key` to `value` in the entries of an object: an existing entry of
/// `key` gets the new value, else a new entry goes in at its place in key order.
pub fn object_insert(entries: &mut Vec<(String, JsonValue)>, key: String, value: JsonValue)
    ensures
        entry_views(final(entries)@) == insert_entry(entry_views(old(entries)@), key@, value@),
        keys_sorted(entry_views(old(entries)@)) ==> keys_sorted(entry_views(final(entries)@)),
{
    let ghost kv = key@;
    let ghost vv = value@;
    let idx = find_key(entries, key.as_str());
    match idx {
        Some(i) => {
            proof {
                lemma_entry_views_update(entries@, i as int, (key, value));
            }
            entries.set(i, (key, value));
        },
        None => {
            let pos = find_insert_position(entries, key.as_str());
            proof {
                lemma_insert_position_props(entry_views(entries@), kv);
                lemma_entry_views(entries@);
                lemma_entry_views_insert(entries@, pos as int, (key, value));
            }
            entries.insert(pos, (key, value));
        },
    }
    proof {
        if keys_sorted(entry_views(old(entries)@)) {
            lemma_insert_keeps_sorted(entry_views(old(entries)@), kv, vv);
        }
    }
}

// ---------------------------------------------------------------------------
// Construction
// ---------------------------------------------------------------------------

impl JsonValue {
    /// `null`.
    pub fn null() -> (r: JsonValue)
        ensures
            r@ == JsonView::Null,
    {
        JsonValue::Null
    }

    /// A boolean.
    pub fn boolean(b: bool) -> (r: JsonValue)
        ensures
            r@ == JsonView::Bool(b),
    {
        JsonValue::Bool(b)
    }

    /// An integer (non-negative integers are kept as `PosInt`).
    pub fn integer(i: i64) -> (r: JsonValue)
        ensures
            r@ == JsonView::Number(if i >= 0 { JsonNumber::PosInt(i as u64) } else { JsonNumber::NegInt(i) }),
    {
        if i >= 0 {
            JsonValue::Number(JsonNumber::PosInt(i as u64))
        } else {
            JsonValue::Number(JsonNumber::NegInt(i))
        }
    }

    /// A non-negative integer.
    pub fn uint(u: u64) -> (r: JsonValue)
        ensures
            r@ == JsonView::Number(JsonNumber::PosInt(u)),
    {
        JsonValue::Number(JsonNumber::PosInt(u))
    }

    /// The decimal `mantissa / 10^scale`.
    pub fn decimal(mantissa: i64, scale: u32) -> (r: JsonValue)
        ensures
            r@ == JsonView::Number(JsonNumber::Float(mantissa, scale)),
    {
        JsonValue::Number(JsonNumber::Float(mantissa, scale))
    }

    /// A string.
    pub fn string(s: &str) -> (r: JsonValue)
        ensures
            r@ == JsonView::Str(s@),
    {
        JsonValue::String(String::from_str(s))
    }

    /// An array.
    pub fn array(items: Vec<JsonValue>) -> (r: JsonValue)
        ensures
            r@ == JsonView::Array(views_of(items@)),
    {
        JsonValue::Array(items)
    }

    /// An object holding the given pairs, set in turn: a later pair replaces
    /// an earlier one with the same key, and entries are kept in key order.
    pub fn object(pairs: Vec<(String, JsonValue)>) -> (r: JsonValue)
        ensures
            r@ == JsonView::Object(insert_all(Seq::empty(), entry_views(pairs@))),
            keys_sorted(insert_all(Seq::empty(), entry_views(pairs@))),
    {
        let ghost pv = entry_views(pairs@);
        proof {
            lemma_entry_views(pairs@);
        }
        let mut out: Vec<(String, JsonValue)> = Vec::new();
        let mut rest = pairs;
        let ghost n = pv.len();
        assert(pv.skip(0) =~= pv);
        assert(entry_views(out@) =~= Seq::<(Seq<char>, JsonView)>::empty());
        while rest.len() > 0
            invariant
                n == pv.len(),
                rest@.len() <= n,
                forall|j: int| 0 <= j < rest@.len() ==>
                    (#[trigger] rest@[j]).0@ == pv[n - rest@.len() + j].0 && json_view(rest@[j].1) == pv[n - rest@.len() + j].1,
                insert_all(Seq::empty(), pv) == insert_all(entry_views(out@), pv.skip(n - rest@.len())),
                keys_sorted(entry_views(out@)),
            decreases rest@.len(),
        {
            let ghost k = n - rest@.len();
            let (key, value) = rest.remove(0);
            assert(pv.skip(k).drop_first() =~= pv.skip(k + 1));
            object_insert(&mut out, key, value);
        }
        assert(pv.skip(n as int) =~= Seq::<(Seq<char>, JsonView)>::empty());
        JsonValue::Object(out)
    }

    /// The value of field `field`, when this is an object holding it.
    pub fn get(&self, field: &str) -> (r: Option<&JsonValue>)
        ensures
            r is Some <==> field_of(self@, field@) is Some,
            r matches Some(v) ==> field_of(self@, field@) == Some(v@),
    {
        get_field(self, field)
    }
}

} // verus!
