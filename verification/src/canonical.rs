//! Deterministic JSON encoding for signing and content addressing.
//!
//! - object keys sorted lexicographically (by their UTF-8 bytes) at every level,
//! - no whitespace,
//! - integers without a decimal point, decimals in their shortest form,
//! - strings escaped as JSON requires.
//!
//! Identical content always produces identical bytes.

use vstd::prelude::*;
use vstd::string::*;
use vstd::utf8::encode_utf8;
use crate::error::CoreError;
use crate::json::{JsonNumber, JsonValue, JsonView, number_numerator, number_scale, views_of, entry_views, lemma_views_of, lemma_entry_views, key_bytes};
use crate::order::{Order, byte_order, compare_strs, lemma_byte_order_antisym, lemma_byte_order_equal,
    lemma_byte_order_trans_le, lemma_byte_order_trans_less};

verus! {

broadcast use vstd::std_specs::vec::group_vec_axioms, vstd::seq::group_seq_axioms;

// ---------------------------------------------------------------------------
// Numbers
// ---------------------------------------------------------------------------

/// The ASCII digit of `d < 10`.
pub open spec fn digit(d: nat) -> u8 {
    (48 + d) as u8
}

/// Decimal digits of `n`, most significant first, without leading zeros ("0" for zero).
pub open spec fn nat_digits(n: nat) -> Seq<u8>
    decreases n,
{
    if n < 10 {
        seq![digit(n)]
    } else {
        nat_digits(n / 10).push(digit(n % 10))
    }
}

/// A decimal `magnitude / 10^scale` with trailing zeros of the fraction removed.
pub open spec fn strip_zeros(magnitude: nat, scale: nat) -> (nat, nat)
    decreases scale,
{
    if scale > 0 && magnitude % 10 == 0 {
        strip_zeros(magnitude / 10, (scale - 1) as nat)
    } else {
        (magnitude, scale)
    }
}

/// `n` zero digits.
pub open spec fn zeros(n: nat) -> Seq<u8> {
    Seq::new(n, |i: int| 48u8)
}

/// The text of `digits / 10^scale`, with a fraction only when `scale > 0`.
pub open spec fn place_point(digits: Seq<u8>, scale: nat) -> Seq<u8> {
    if scale == 0 {
        digits
    } else if digits.len() <= scale {
        seq![48u8, 46u8] + zeros((scale - digits.len()) as nat) + digits
    } else {
        digits.take(digits.len() - scale) + seq![46u8] + digits.skip(digits.len() - scale)
    }
}

/// The text of a number: integers as decimal integers, decimals in shortest
/// form (no trailing zeros, no point for integral values), `-` for negatives.
pub open spec fn number_text(n: JsonNumber) -> Seq<u8> {
    let num = number_numerator(n);
    let mag: nat = if num < 0 { (-num) as nat } else { num as nat };
    let ms = strip_zeros(mag, number_scale(n));
    let body = place_point(nat_digits(ms.0), ms.1);
    if num < 0 { seq![45u8] + body } else { body }
}

/// The decimal digits of `n`.
fn u64_digits(n: u64) -> (r: Vec<u8>)
    ensures
        r@ == nat_digits(n as nat),
{
    let mut out: Vec<u8> = Vec::new();
    let mut q = n;
    while q >= 10
        invariant
            nat_digits(n as nat) == nat_digits(q as nat) + out@,
        decreases q,
    {
        let d = (q % 10) as u8;
        let ghost prev = out@;
        assert(nat_digits(q as nat) == nat_digits((q / 10) as nat).push(digit((q % 10) as nat)));
        out.insert(0, 48 + d);
        assert(out@ =~= seq![digit((q % 10) as nat)] + prev);
        assert(nat_digits(n as nat) =~= nat_digits((q / 10) as nat) + out@);
        q = q / 10;
    }
    let ghost prev = out@;
    out.insert(0, 48 + (q as u8));
    assert(out@ =~= seq![digit(q as nat)] + prev);
    assert(nat_digits(n as nat) =~= out@);
    out
}

/// Appends `bs` to `buf`.
fn append_bytes(buf: &mut Vec<u8>, bs: &[u8])
    ensures
        final(buf)@ == old(buf)@ + bs@,
{
    let mut i: usize = 0;
    while i < bs.len()
        invariant
            i <= bs@.len(),
            buf@ == old(buf)@ + bs@.take(i as int),
        decreases bs@.len() - i,
    {
        buf.push(bs[i]);
        assert(bs@.take(i + 1) =~= bs@.take(i as int).push(bs@[i as int]));
        i += 1;
    }
    assert(bs@.take(bs@.len() as int) =~= bs@);
}

/// Appends `n` zero digits.
fn append_zeros(buf: &mut Vec<u8>, n: u64)
    ensures
        final(buf)@ == old(buf)@ + zeros(n as nat),
{
    let mut i: u64 = 0;
    while i < n
        invariant
            i <= n,
            buf@ == old(buf)@ + zeros(i as nat),
        decreases n - i,
    {
        buf.push(48);
        assert(zeros((i + 1) as nat) =~= zeros(i as nat).push(48u8));
        i += 1;
    }
}

/// Removes trailing zeros of the fraction of `magnitude / 10^scale`.
fn strip_zeros_exec(magnitude: u64, scale: u32) -> (r: (u64, u32))
    ensures
        (r.0 as nat, r.1 as nat) == strip_zeros(magnitude as nat, scale as nat),
{
    let mut m = magnitude;
    let mut s = scale;
    while s > 0 && m % 10 == 0
        invariant
            strip_zeros(magnitude as nat, scale as nat) == strip_zeros(m as nat, s as nat),
        decreases s,
    {
        m = m / 10;
        s = s - 1;
    }
    (m, s)
}

/// Sign and magnitude of the numerator of a number.
fn numerator_parts(n: &JsonNumber) -> (r: (bool, u64))
    ensures
        r.0 == (number_numerator(*n) < 0),
        r.1 as int == (if number_numerator(*n) < 0 { -number_numerator(*n) } else { number_numerator(*n) }),
{
    match n {
        JsonNumber::PosInt(u) => (false, *u),
        JsonNumber::NegInt(i) => {
            if *i < 0 {
                (true, (-(*i as i128)) as u64)
            } else {
                (false, *i as u64)
            }
        },
        JsonNumber::Float(m, _) => {
            if *m < 0 {
                (true, (-(*m as i128)) as u64)
            } else {
                (false, *m as u64)
            }
        },
    }
}

/// Appends the text of a number (see [`number_text`]).
pub fn write_number(n: &JsonNumber, buf: &mut Vec<u8>)
    ensures
        final(buf)@ == old(buf)@ + number_text(*n),
{
    let (neg, mag) = numerator_parts(n);
    let scale: u32 = match n {
        JsonNumber::Float(_, s) => *s,
        _ => 0,
    };
    let (m, s) = strip_zeros_exec(mag, scale);
    let digits = u64_digits(m);
    let ghost body = place_point(nat_digits(m as nat), s as nat);
    let ghost start = old(buf)@;
    if neg {
        buf.push(45);
    }
    let ghost mid = buf@;
    if s == 0 {
        append_bytes(buf, digits.as_slice());
    } else if (digits.len() as u64) <= (s as u64) {
        buf.push(48);
        buf.push(46);
        append_zeros(buf, (s as u64) - (digits.len() as u64));
        append_bytes(buf, digits.as_slice());
        assert(body =~= seq![48u8, 46u8] + zeros((s - digits@.len()) as nat) + digits@);
    } else {
        let cut = digits.len() - (s as usize);
        let mut i: usize = 0;
        while i < cut
            invariant
                i <= cut < digits@.len(),
                buf@ == mid + digits@.take(i as int),
            decreases cut - i,
        {
            buf.push(digits[i]);
            assert(digits@.take(i + 1) =~= digits@.take(i as int).push(digits@[i as int]));
            i += 1;
        }
        buf.push(46);
        let mut j: usize = cut;
        let ghost mid2 = buf@;
        while j < digits.len()
            invariant
                cut <= j <= digits@.len(),
                buf@ == mid2 + digits@.subrange(cut as int, j as int),
            decreases digits@.len() - j,
        {
            buf.push(digits[j]);
            assert(digits@.subrange(cut as int, j + 1) =~= digits@.subrange(cut as int, j as int).push(digits@[j as int]));
            j += 1;
        }
        assert(digits@.subrange(cut as int, digits@.len() as int) =~= digits@.skip(cut as int));
        assert(body =~= digits@.take(cut as int) + seq![46u8] + digits@.skip(cut as int));
    }
    assert(buf@ =~= start + number_text(*n));
}


// ---------------------------------------------------------------------------
// Strings
// ---------------------------------------------------------------------------

/// The lowercase hex digit of `d < 16`.
pub open spec fn hex_digit(d: u8) -> u8 {
    if d < 10 { (48 + d) as u8 } else { (87 + d) as u8 }
}

/// The escape of one byte of UTF-8 text: `"` and `\` and control
/// characters are escaped, other bytes are kept. Multi-byte characters
/// consist of bytes >= 0x80 only, so they pass through unchanged.
pub open spec fn escape_byte(b: u8) -> Seq<u8> {
    if b == 34 {
        seq![92u8, 34u8]
    } else if b == 92 {
        seq![92u8, 92u8]
    } else if b == 8 {
        seq![92u8, 98u8]
    } else if b == 12 {
        seq![92u8, 102u8]
    } else if b == 10 {
        seq![92u8, 110u8]
    } else if b == 13 {
        seq![92u8, 114u8]
    } else if b == 9 {
        seq![92u8, 116u8]
    } else if b < 32 {
        seq![92u8, 117u8, 48u8, 48u8, hex_digit(b / 16), hex_digit(b % 16)]
    } else {
        seq![b]
    }
}

/// The escape of UTF-8 text.
pub open spec fn escape_bytes(bs: Seq<u8>) -> Seq<u8>
    decreases bs.len(),
{
    if bs.len() == 0 {
        Seq::empty()
    } else {
        escape_bytes(bs.drop_last()) + escape_byte(bs.last())
    }
}

/// A JSON string literal of UTF-8 text.
pub open spec fn quoted(bs: Seq<u8>) -> Seq<u8> {
    seq![34u8] + escape_bytes(bs) + seq![34u8]
}

/// Appends the escape of one byte.
fn write_escaped_byte(b: u8, buf: &mut Vec<u8>)
    ensures
        final(buf)@ == old(buf)@ + escape_byte(b),
{
    let ghost start = buf@;
    if b == 34 {
        buf.push(92);
        buf.push(34);
    } else if b == 92 {
        buf.push(92);
        buf.push(92);
    } else if b == 8 {
        buf.push(92);
        buf.push(98);
    } else if b == 12 {
        buf.push(92);
        buf.push(102);
    } else if b == 10 {
        buf.push(92);
        buf.push(110);
    } else if b == 13 {
        buf.push(92);
        buf.push(114);
    } else if b == 9 {
        buf.push(92);
        buf.push(116);
    } else if b < 32 {
        let hi = b / 16;
        let lo = b % 16;
        buf.push(92);
        buf.push(117);
        buf.push(48);
        buf.push(48);
        buf.push(if hi < 10 { 48 + hi } else { 87 + hi });
        buf.push(if lo < 10 { 48 + lo } else { 87 + lo });
    } else {
        buf.push(b);
    }
    assert(buf@ =~= start + escape_byte(b));
}

/// Appends `s` as a JSON string literal: `"`, the escaped UTF-8 bytes of `s`, `"`.
pub fn write_canonical_string(s: &str, buf: &mut Vec<u8>)
    ensures
        final(buf)@ == old(buf)@ + quoted(s.spec_bytes()),
{
    let bytes = s.as_bytes();
    let ghost start = buf@;
    buf.push(34);
    let mut i: usize = 0;
    while i < bytes.len()
        invariant
            i <= bytes@.len(),
            bytes@ == s.spec_bytes(),
            buf@ == start + seq![34u8] + escape_bytes(bytes@.take(i as int)),
        decreases bytes@.len() - i,
    {
        write_escaped_byte(bytes[i], buf);
        assert(bytes@.take(i + 1).drop_last() =~= bytes@.take(i as int));
        i += 1;
    }
    assert(bytes@.take(bytes@.len() as int) =~= bytes@);
    buf.push(34);
    assert(buf@ =~= start + quoted(s.spec_bytes()));
}

// ---------------------------------------------------------------------------
// Values
// ---------------------------------------------------------------------------

/// Where index `i` goes among `sorted` indices: before the first index whose key is greater.
pub open spec fn key_slot(es: Seq<(Seq<char>, JsonView)>, sorted: Seq<int>, i: int) -> int
    decreases sorted.len(),
{
    if sorted.len() == 0 {
        0
    } else if byte_order(key_bytes(es[sorted[0]].0), key_bytes(es[i].0)) == Order::Greater {
        0
    } else {
        1 + key_slot(es, sorted.drop_first(), i)
    }
}

/// The indices `0..m` of the entries, in stable key order.
pub open spec fn sorted_key_indices_upto(es: Seq<(Seq<char>, JsonView)>, m: nat) -> Seq<int>
    decreases m,
{
    if m == 0 {
        Seq::empty()
    } else {
        let s = sorted_key_indices_upto(es, (m - 1) as nat);
        s.insert(key_slot(es, s, m - 1), m - 1)
    }
}

/// All indices of the entries, in stable key order.
pub open spec fn sorted_key_indices(es: Seq<(Seq<char>, JsonView)>) -> Seq<int> {
    sorted_key_indices_upto(es, es.len())
}

/// The canonical bytes of a JSON value.
pub open spec fn canonical_bytes(v: JsonView) -> Seq<u8>
    decreases v, 0nat,
{
    match v {
        JsonView::Null => seq![110u8, 117u8, 108u8, 108u8],
        JsonView::Bool(b) => if b {
            seq![116u8, 114u8, 117u8, 101u8]
        } else {
            seq![102u8, 97u8, 108u8, 115u8, 101u8]
        },
        JsonView::Number(n) => number_text(n),
        JsonView::Str(s) => quoted(encode_utf8(s)),
        JsonView::Array(xs) => seq![91u8] + join_values(xs) + seq![93u8],
        JsonView::Object(es) => seq![123u8] + join_entries(es, sorted_key_indices(es)) + seq![125u8],
    }
}

/// The canonical bytes of values, separated by commas.
pub open spec fn join_values(xs: Seq<JsonView>) -> Seq<u8>
    decreases xs, 1nat,
{
    if xs.len() == 0 {
        Seq::empty()
    } else if xs.len() == 1 {
        canonical_bytes(xs[0])
    } else {
        join_values(xs.drop_last()) + seq![44u8] + canonical_bytes(xs.last())
    }
}

/// The canonical bytes of the entries at the given indices, as `"key":value`
/// separated by commas.
pub open spec fn join_entries(es: Seq<(Seq<char>, JsonView)>, idx: Seq<int>) -> Seq<u8>
    decreases es, idx.len(),
{
    if idx.len() == 0 {
        Seq::empty()
    } else {
        let j = idx.last();
        let item = if 0 <= j < es.len() {
            quoted(encode_utf8(es[j].0)) + seq![58u8] + canonical_bytes(es[j].1)
        } else {
            Seq::empty()
        };
        if idx.len() == 1 {
            item
        } else {
            join_entries(es, idx.drop_last()) + seq![44u8] + item
        }
    }
}

proof fn lemma_key_slot_bound(es: Seq<(Seq<char>, JsonView)>, sorted: Seq<int>, i: int)
    ensures
        0 <= key_slot(es, sorted, i) <= sorted.len(),
    decreases sorted.len(),
{
    if sorted.len() > 0 {
        lemma_key_slot_bound(es, sorted.drop_first(), i);
    }
}

proof fn lemma_sorted_indices_range(es: Seq<(Seq<char>, JsonView)>, m: nat)
    ensures
        sorted_key_indices_upto(es, m).len() == m,
        forall|k: int| 0 <= k < m ==> 0 <= #[trigger] sorted_key_indices_upto(es, m)[k] < m,
    decreases m,
{
    if m > 0 {
        let s = sorted_key_indices_upto(es, (m - 1) as nat);
        lemma_sorted_indices_range(es, (m - 1) as nat);
        lemma_key_slot_bound(es, s, m - 1);
    }
}

/// Whether index `j` occurs in `s`.
pub open spec fn index_listed(s: Seq<int>, j: int) -> bool {
    exists|k: int| 0 <= k < s.len() && s[k] == j
}

/// Whether key `a` does not come after key `b`.
pub open spec fn key_le(a: Seq<char>, b: Seq<char>) -> bool {
    byte_order(key_bytes(a), key_bytes(b)) != Order::Greater
}

/// The entries before the slot of `i` have keys not after it; the one at
/// the slot, if any, has a key after it.
proof fn lemma_key_slot_props(es: Seq<(Seq<char>, JsonView)>, sorted: Seq<int>, i: int)
    ensures
        forall|k: int| 0 <= k < key_slot(es, sorted, i) ==> key_le(es[#[trigger] sorted[k]].0, es[i].0),
        key_slot(es, sorted, i) < sorted.len() ==> byte_order(key_bytes(es[sorted[key_slot(es, sorted, i)]].0),
            key_bytes(es[i].0)) == Order::Greater,
    decreases sorted.len(),
{
    if sorted.len() > 0 {
        let rest = sorted.drop_first();
        lemma_key_slot_props(es, rest, i);
        lemma_key_slot_bound(es, rest, i);
        if byte_order(key_bytes(es[sorted[0]].0), key_bytes(es[i].0)) != Order::Greater {
            assert(key_slot(es, sorted, i) == 1 + key_slot(es, rest, i));
            assert forall|k: int| 0 <= k < key_slot(es, sorted, i) implies key_le(es[#[trigger] sorted[k]].0, es[i].0) by {
                if k > 0 {
                    assert(sorted[k] == rest[k - 1]);
                }
            }
            if key_slot(es, sorted, i) < sorted.len() {
                assert(sorted[key_slot(es, sorted, i)] == rest[key_slot(es, rest, i)]);
            }
        }
    }
}

/// The sorted indices `0..m` list each index once, with keys in order.
proof fn lemma_sorted_indices_sorted(es: Seq<(Seq<char>, JsonView)>, m: nat)
    ensures
        forall|a: int, b: int| 0 <= a < b < m ==> #[trigger] sorted_key_indices_upto(es, m)[a]
            != #[trigger] sorted_key_indices_upto(es, m)[b],
        forall|j: int| 0 <= j < m ==> #[trigger] index_listed(sorted_key_indices_upto(es, m), j),
        forall|a: int, b: int| 0 <= a < b < m ==> key_le(es[#[trigger] sorted_key_indices_upto(es, m)[a]].0,
            es[#[trigger] sorted_key_indices_upto(es, m)[b]].0),
    decreases m,
{
    lemma_sorted_indices_range(es, m);
    if m > 0 {
        let s = sorted_key_indices_upto(es, (m - 1) as nat);
        let i = m - 1;
        let p = key_slot(es, s, i);
        let nv = sorted_key_indices_upto(es, m);
        lemma_sorted_indices_sorted(es, (m - 1) as nat);
        lemma_sorted_indices_range(es, (m - 1) as nat);
        lemma_key_slot_bound(es, s, i);
        lemma_key_slot_props(es, s, i);
        assert(nv == s.insert(p, i));
        assert forall|a: int, b: int| 0 <= a < b < m implies #[trigger] nv[a] != #[trigger] nv[b] by {
            if a == p {
                assert(nv[b] == s[b - 1]);
            } else if b == p {
                assert(nv[a] == s[a]);
            } else {
                let a2 = if a < p { a } else { a - 1 };
                let b2 = if b < p { b } else { b - 1 };
                assert(nv[a] == s[a2]);
                assert(nv[b] == s[b2]);
            }
        }
        assert forall|j: int| 0 <= j < m implies #[trigger] index_listed(nv, j) by {
            if j == i {
                assert(nv[p] == j);
            } else {
                assert(index_listed(s, j));
                let k = choose|k: int| 0 <= k < s.len() && s[k] == j;
                if k < p {
                    assert(nv[k] == j);
                } else {
                    assert(nv[k + 1] == j);
                }
            }
        }
        assert forall|a: int, b: int| 0 <= a < b < m implies key_le(es[#[trigger] nv[a]].0, es[#[trigger] nv[b]].0) by {
            if b == p {
                assert(nv[a] == s[a]);
            } else if a == p {
                assert(nv[b] == s[b - 1]);
                let kp = key_bytes(es[s[p]].0);
                let ki = key_bytes(es[i].0);
                let kb = key_bytes(es[s[b - 1]].0);
                lemma_byte_order_antisym(kp, ki);
                if b - 1 > p {
                    assert(key_le(es[s[p]].0, es[s[b - 1]].0));
                } else {
                    lemma_byte_order_equal(kp, kb);
                }
                lemma_byte_order_trans_le(ki, kp, kb);
            } else {
                let a2 = if a < p { a } else { a - 1 };
                let b2 = if b < p { b } else { b - 1 };
                assert(nv[a] == s[a2]);
                assert(nv[b] == s[b2]);
            }
        }
    }
}

/// The entries an index list picks.
pub open spec fn picked(es: Seq<(Seq<char>, JsonView)>, idx: Seq<int>) -> Seq<(Seq<char>, JsonView)> {
    Seq::new(idx.len(), |k: int| es[idx[k]])
}

/// The joined entries depend only on the entries picked, in order.
proof fn lemma_join_entries_picked(
    es1: Seq<(Seq<char>, JsonView)>,
    idx1: Seq<int>,
    es2: Seq<(Seq<char>, JsonView)>,
    idx2: Seq<int>,
)
    requires
        idx1.len() == idx2.len(),
        forall|k: int| 0 <= k < idx1.len() ==> 0 <= #[trigger] idx1[k] < es1.len(),
        forall|k: int| 0 <= k < idx2.len() ==> 0 <= #[trigger] idx2[k] < es2.len(),
        picked(es1, idx1) == picked(es2, idx2),
    ensures
        join_entries(es1, idx1) == join_entries(es2, idx2),
    decreases idx1.len(),
{
    if idx1.len() > 0 {
        let n = idx1.len() - 1;
        assert(picked(es1, idx1)[n] == es1[idx1[n]]);
        assert(picked(es2, idx2)[n] == es2[idx2[n]]);
        assert(picked(es1, idx1.drop_last()) =~= picked(es1, idx1).drop_last());
        assert(picked(es2, idx2.drop_last()) =~= picked(es2, idx2).drop_last());
        lemma_join_entries_picked(es1, idx1.drop_last(), es2, idx2.drop_last());
    }
}

/// Entries with keys in strictly increasing order and the same entries
/// are the same list.
proof fn lemma_strictly_sorted_unique(l1: Seq<(Seq<char>, JsonView)>, l2: Seq<(Seq<char>, JsonView)>)
    requires
        l1.len() == l2.len(),
        forall|a: int, b: int| 0 <= a < b < l1.len() ==> byte_order(key_bytes((#[trigger] l1[a]).0),
            key_bytes((#[trigger] l1[b]).0)) == Order::Less,
        forall|a: int, b: int| 0 <= a < b < l2.len() ==> byte_order(key_bytes((#[trigger] l2[a]).0),
            key_bytes((#[trigger] l2[b]).0)) == Order::Less,
        forall|i: int| 0 <= i < l1.len() ==> l2.contains(#[trigger] l1[i]),
        forall|j: int| 0 <= j < l2.len() ==> l1.contains(#[trigger] l2[j]),
    ensures
        l1 == l2,
{
    assert forall|k: int| 0 <= k < l1.len() implies l1[k] == l2[k] by {
        lemma_sorted_pointwise(l1, l2, k);
    }
    assert(l1 =~= l2);
}

proof fn lemma_sorted_pointwise(l1: Seq<(Seq<char>, JsonView)>, l2: Seq<(Seq<char>, JsonView)>, k: int)
    requires
        0 <= k < l1.len(),
        l1.len() == l2.len(),
        forall|a: int, b: int| 0 <= a < b < l1.len() ==> byte_order(key_bytes((#[trigger] l1[a]).0),
            key_bytes((#[trigger] l1[b]).0)) == Order::Less,
        forall|a: int, b: int| 0 <= a < b < l2.len() ==> byte_order(key_bytes((#[trigger] l2[a]).0),
            key_bytes((#[trigger] l2[b]).0)) == Order::Less,
        forall|i: int| 0 <= i < l1.len() ==> l2.contains(#[trigger] l1[i]),
        forall|j: int| 0 <= j < l2.len() ==> l1.contains(#[trigger] l2[j]),
    ensures
        l1[k] == l2[k],
    decreases k,
{
    if k > 0 {
        lemma_sorted_pointwise(l1, l2, k - 1);
    }
    if l1[k] != l2[k] {
        assert(l2.contains(l1[k]));
        let t = choose|t: int| 0 <= t < l2.len() && l2[t] == l1[k];
        assert(l1.contains(l2[k]));
        let u = choose|u: int| 0 <= u < l1.len() && l1[u] == l2[k];
        // Both lists are strictly sorted, so positions follow keys.
        let x = key_bytes(l1[k].0);
        let y = key_bytes(l2[k].0);
        if t < k {
            assert forall|q: int| 0 <= q < k implies l1[q] == l2[q] by {
                lemma_sorted_pointwise(l1, l2, q);
            }
            assert(l1[t] == l2[t]);
            assert(byte_order(key_bytes(l1[t].0), key_bytes(l1[k].0)) == Order::Less);
            lemma_byte_order_equal(key_bytes(l1[t].0), key_bytes(l1[k].0));
        } else if t > k {
            if u < k {
                assert forall|q: int| 0 <= q < k implies l1[q] == l2[q] by {
                    lemma_sorted_pointwise(l1, l2, q);
                }
                assert(l2[u] == l1[u]);
                assert(byte_order(key_bytes(l2[u].0), key_bytes(l2[k].0)) == Order::Less);
                lemma_byte_order_equal(key_bytes(l2[u].0), key_bytes(l2[k].0));
            } else if u > k {
                // l1[k] < l1[u] = l2[k] < l2[t] = l1[k]
                assert(byte_order(key_bytes(l1[k].0), key_bytes(l1[u].0)) == Order::Less);
                assert(byte_order(key_bytes(l2[k].0), key_bytes(l2[t].0)) == Order::Less);
                lemma_byte_order_trans_less(x, y, x);
                lemma_byte_order_equal(x, x);
            }
        }
    }
}

/// An object with distinct keys is written with each entry once, in
/// strictly increasing byte order of the keys.
pub proof fn canonical_entry_order(es: Seq<(Seq<char>, JsonView)>)
    requires
        forall|a: int, b: int| 0 <= a < b < es.len() ==> (#[trigger] es[a]).0 != (#[trigger] es[b]).0,
    ensures
        picked(es, sorted_key_indices(es)).len() == es.len(),
        forall|a: int, b: int| 0 <= a < b < es.len() ==> byte_order(
            key_bytes((#[trigger] picked(es, sorted_key_indices(es))[a]).0),
            key_bytes((#[trigger] picked(es, sorted_key_indices(es))[b]).0),
        ) == Order::Less,
        forall|i: int| 0 <= i < es.len() ==> picked(es, sorted_key_indices(es)).contains(#[trigger] es[i]),
        forall|k: int| 0 <= k < es.len() ==> es.contains(#[trigger] picked(es, sorted_key_indices(es))[k]),
{
    let m = es.len();
    let s = sorted_key_indices(es);
    let l = picked(es, s);
    lemma_sorted_indices_range(es, m);
    lemma_sorted_indices_sorted(es, m);
    assert forall|a: int, b: int| 0 <= a < b < m implies byte_order(key_bytes((#[trigger] l[a]).0),
        key_bytes((#[trigger] l[b]).0)) == Order::Less by {
        assert(s[a] != s[b]);
        assert(key_le(es[s[a]].0, es[s[b]].0));
        if s[a] < s[b] {
            assert(es[s[a]].0 != es[s[b]].0);
        } else {
            assert(es[s[b]].0 != es[s[a]].0);
        }
        lemma_byte_order_equal(key_bytes(es[s[a]].0), key_bytes(es[s[b]].0));
        vstd::utf8::encode_utf8_decode_utf8(es[s[a]].0);
        vstd::utf8::encode_utf8_decode_utf8(es[s[b]].0);
    }
    assert forall|i: int| 0 <= i < m implies l.contains(#[trigger] es[i]) by {
        assert(index_listed(s, i));
        let k = choose|k: int| 0 <= k < s.len() && s[k] == i;
        assert(l[k] == es[i]);
    }
    assert forall|k: int| 0 <= k < m implies es.contains(#[trigger] l[k]) by {
        assert(l[k] == es[s[k]]);
    }
}

/// Canonical bytes do not depend on the order of an object's entries: two
/// objects holding the same entries, each key once, encode the same.
pub proof fn canonical_object_order_free(es1: Seq<(Seq<char>, JsonView)>, es2: Seq<(Seq<char>, JsonView)>)
    requires
        es1.len() == es2.len(),
        forall|a: int, b: int| 0 <= a < b < es1.len() ==> (#[trigger] es1[a]).0 != (#[trigger] es1[b]).0,
        forall|a: int, b: int| 0 <= a < b < es2.len() ==> (#[trigger] es2[a]).0 != (#[trigger] es2[b]).0,
        forall|i: int| 0 <= i < es1.len() ==> es2.contains(#[trigger] es1[i]),
        forall|j: int| 0 <= j < es2.len() ==> es1.contains(#[trigger] es2[j]),
    ensures
        canonical_bytes(JsonView::Object(es1)) == canonical_bytes(JsonView::Object(es2)),
{
    let s1 = sorted_key_indices(es1);
    let s2 = sorted_key_indices(es2);
    let l1 = picked(es1, s1);
    let l2 = picked(es2, s2);
    canonical_entry_order(es1);
    canonical_entry_order(es2);
    lemma_sorted_indices_range(es1, es1.len());
    lemma_sorted_indices_range(es2, es2.len());
    assert forall|i: int| 0 <= i < l1.len() implies l2.contains(#[trigger] l1[i]) by {
        assert(es1.contains(l1[i]));
        let a = choose|a: int| 0 <= a < es1.len() && es1[a] == l1[i];
        assert(es2.contains(es1[a]));
        let b = choose|b: int| 0 <= b < es2.len() && es2[b] == es1[a];
        assert(l2.contains(es2[b]));
    }
    assert forall|j: int| 0 <= j < l2.len() implies l1.contains(#[trigger] l2[j]) by {
        assert(es2.contains(l2[j]));
        let b = choose|b: int| 0 <= b < es2.len() && es2[b] == l2[j];
        assert(es1.contains(es2[b]));
        let a = choose|a: int| 0 <= a < es1.len() && es1[a] == es2[b];
        assert(l1.contains(es1[a]));
    }
    lemma_strictly_sorted_unique(l1, l2);
    lemma_join_entries_picked(es1, s1, es2, s2);
}

/// Whether two JSON values are the same up to the order of object entries,
/// at every level: arrays hold the same values in the same order, and
/// objects, each with distinct keys, hold the same keys with the same
/// values.
pub open spec fn same_json(a: JsonView, b: JsonView) -> bool
    decreases a,
{
    match (a, b) {
        (JsonView::Array(xs), JsonView::Array(ys)) => xs.len() == ys.len() && forall|i: int|
            0 <= i < xs.len() ==> same_json(#[trigger] xs[i], ys[i]),
        (JsonView::Object(es1), JsonView::Object(es2)) => {
            &&& es1.len() == es2.len()
            &&& distinct_keys(es1)
            &&& distinct_keys(es2)
            &&& forall|i: int| 0 <= i < es1.len() ==> exists|j: int| 0 <= j < es2.len() && es2[j].0 == (#[trigger] es1[i]).0
                && same_json(es1[i].1, es2[j].1)
            &&& forall|j: int| 0 <= j < es2.len() ==> exists|i: int| 0 <= i < es1.len() && es1[i].0 == (#[trigger] es2[j]).0
        },
        _ => a == b,
    }
}

/// Whether no two entries share a key.
pub open spec fn distinct_keys(es: Seq<(Seq<char>, JsonView)>) -> bool {
    forall|a: int, b: int| 0 <= a < b < es.len() ==> (#[trigger] es[a]).0 != (#[trigger] es[b]).0
}

proof fn lemma_key_slot_keys_only(es1: Seq<(Seq<char>, JsonView)>, es2: Seq<(Seq<char>, JsonView)>, sorted: Seq<int>, i: int)
    requires
        es1.len() == es2.len(),
        forall|k: int| 0 <= k < es1.len() ==> (#[trigger] es1[k]).0 == es2[k].0,
        forall|k: int| 0 <= k < sorted.len() ==> 0 <= #[trigger] sorted[k] < es1.len(),
        0 <= i < es1.len(),
    ensures
        key_slot(es1, sorted, i) == key_slot(es2, sorted, i),
    decreases sorted.len(),
{
    if sorted.len() > 0 {
        assert(es1[sorted[0]].0 == es2[sorted[0]].0);
        assert forall|k: int| 0 <= k < sorted.drop_first().len() implies 0 <= #[trigger] sorted.drop_first()[k] < es1.len() by {
            assert(sorted.drop_first()[k] == sorted[k + 1]);
        }
        lemma_key_slot_keys_only(es1, es2, sorted.drop_first(), i);
    }
}

proof fn lemma_sorted_indices_keys_only(es1: Seq<(Seq<char>, JsonView)>, es2: Seq<(Seq<char>, JsonView)>, m: nat)
    requires
        es1.len() == es2.len(),
        m <= es1.len(),
        forall|k: int| 0 <= k < es1.len() ==> (#[trigger] es1[k]).0 == es2[k].0,
    ensures
        sorted_key_indices_upto(es1, m) == sorted_key_indices_upto(es2, m),
    decreases m,
{
    if m > 0 {
        lemma_sorted_indices_keys_only(es1, es2, (m - 1) as nat);
        let s = sorted_key_indices_upto(es1, (m - 1) as nat);
        lemma_sorted_indices_range(es1, (m - 1) as nat);
        lemma_key_slot_keys_only(es1, es2, s, m - 1);
    }
}

proof fn lemma_join_entries_values(es1: Seq<(Seq<char>, JsonView)>, es2: Seq<(Seq<char>, JsonView)>, idx: Seq<int>)
    requires
        es1.len() == es2.len(),
        forall|k: int| 0 <= k < es1.len() ==> (#[trigger] es1[k]).0 == es2[k].0 && canonical_bytes(es1[k].1)
            == canonical_bytes(es2[k].1),
    ensures
        join_entries(es1, idx) == join_entries(es2, idx),
    decreases idx.len(),
{
    if idx.len() > 0 {
        let j = idx.last();
        if 0 <= j < es1.len() {
            assert(es1[j].0 == es2[j].0);
        }
        lemma_join_entries_values(es1, es2, idx.drop_last());
    }
}

proof fn lemma_join_values_pointwise(xs: Seq<JsonView>, ys: Seq<JsonView>)
    requires
        xs.len() == ys.len(),
        forall|i: int| 0 <= i < xs.len() ==> canonical_bytes(#[trigger] xs[i]) == canonical_bytes(ys[i]),
    ensures
        join_values(xs) == join_values(ys),
    decreases xs.len(),
{
    if xs.len() > 1 {
        assert forall|i: int| 0 <= i < xs.drop_last().len() implies canonical_bytes(#[trigger] xs.drop_last()[i])
            == canonical_bytes(ys.drop_last()[i]) by {
            assert(xs.drop_last()[i] == xs[i] && ys.drop_last()[i] == ys[i]);
        }
        lemma_join_values_pointwise(xs.drop_last(), ys.drop_last());
        assert(canonical_bytes(xs[xs.len() - 1]) == canonical_bytes(ys[ys.len() - 1]));
    } else if xs.len() == 1 {
        assert(canonical_bytes(xs[0]) == canonical_bytes(ys[0]));
    }
}

/// Canonical bytes do not depend on the order in which object entries were
/// written, at any level: values that are the same up to that order encode
/// the same.
pub proof fn canonical_order_free(a: JsonView, b: JsonView)
    requires
        same_json(a, b),
    ensures
        canonical_bytes(a) == canonical_bytes(b),
    decreases a,
{
    match (a, b) {
        (JsonView::Array(xs), JsonView::Array(ys)) => {
            assert forall|i: int| 0 <= i < xs.len() implies canonical_bytes(#[trigger] xs[i]) == canonical_bytes(ys[i]) by {
                assert(decreases_to!(a => xs[i]));
                canonical_order_free(xs[i], ys[i]);
            }
            lemma_join_values_pointwise(xs, ys);
        },
        (JsonView::Object(es1), JsonView::Object(es2)) => {
            let val2 = |k: Seq<char>| es2[choose|j: int| 0 <= j < es2.len() && es2[j].0 == k].1;
            let mid = Seq::new(es1.len(), |i: int| (es1[i].0, val2(es1[i].0)));
            assert forall|i: int| 0 <= i < es1.len() implies es2.contains(#[trigger] mid[i])
                && canonical_bytes(es1[i].1) == canonical_bytes(mid[i].1) by {
                let j = choose|j: int| 0 <= j < es2.len() && es2[j].0 == es1[i].0 && same_json(es1[i].1, es2[j].1);
                let c = choose|c: int| 0 <= c < es2.len() && es2[c].0 == es1[i].0;
                if c != j {
                    if c < j {
                        assert(es2[c].0 != es2[j].0);
                    } else {
                        assert(es2[j].0 != es2[c].0);
                    }
                }
                assert(mid[i] == es2[j]);
                assert(decreases_to!(a => es1[i].1));
                canonical_order_free(es1[i].1, es2[j].1);
            }
            assert forall|j: int| 0 <= j < es2.len() implies mid.contains(#[trigger] es2[j]) by {
                let i = choose|i: int| 0 <= i < es1.len() && es1[i].0 == es2[j].0;
                let c = choose|c: int| 0 <= c < es2.len() && es2[c].0 == es1[i].0;
                if c != j {
                    if c < j {
                        assert(es2[c].0 != es2[j].0);
                    } else {
                        assert(es2[j].0 != es2[c].0);
                    }
                }
                assert(mid[i] == es2[j]);
            }
            assert forall|x: int, y: int| 0 <= x < y < mid.len() implies (#[trigger] mid[x]).0 != (#[trigger] mid[y]).0 by {
                assert(es1[x].0 != es1[y].0);
            }
            canonical_object_order_free(mid, es2);
            lemma_sorted_indices_keys_only(es1, mid, es1.len());
            lemma_join_entries_values(es1, mid, sorted_key_indices(es1));
        },
        _ => {},
    }
}

/// The entry indices of an object in stable key order.
fn sort_key_indices(es: &Vec<(String, JsonValue)>) -> (r: Vec<usize>)
    ensures
        r@.len() == es@.len(),
        forall|k: int| 0 <= k < r@.len() ==> (#[trigger] r@[k]) as int == sorted_key_indices(entry_views(es@))[k],
        forall|k: int| 0 <= k < r@.len() ==> (#[trigger] r@[k]) < es@.len(),
{
    let ghost ev = entry_views(es@);
    proof {
        lemma_entry_views(es@);
    }
    let mut out: Vec<usize> = Vec::new();
    let mut m: usize = 0;
    while m < es.len()
        invariant
            m <= es@.len(),
            ev == entry_views(es@),
            ev.len() == es@.len(),
            forall|j: int| 0 <= j < es@.len() ==> #[trigger] ev[j] == (es@[j].0@, json_view_of(es@[j].1)),
            out@.len() == m,
            forall|k: int| 0 <= k < m ==> (#[trigger] out@[k]) as int == sorted_key_indices_upto(ev, m as nat)[k],
            forall|k: int| 0 <= k < m ==> (#[trigger] out@[k]) < m,
        decreases es@.len() - m,
    {
        let ghost s = sorted_key_indices_upto(ev, m as nat);
        proof {
            lemma_sorted_indices_range(ev, m as nat);
        }
        // find the slot of index m
        let mut p: usize = 0;
        assert(s.skip(0) =~= s);
        while p < out.len()
            invariant
                p <= out@.len() == m < es@.len(),
                s == sorted_key_indices_upto(ev, m as nat),
                s.len() == m,
                forall|k: int| 0 <= k < m ==> (#[trigger] out@[k]) as int == s[k],
                forall|k: int| 0 <= k < m ==> (#[trigger] out@[k]) < m,
                ev.len() == es@.len(),
                forall|j: int| 0 <= j < es@.len() ==> #[trigger] ev[j] == (es@[j].0@, json_view_of(es@[j].1)),
                key_slot(ev, s, m as int) == key_slot(ev, s.skip(p as int), m as int) + p,
            ensures
                key_slot(ev, s, m as int) == p,
            decreases out@.len() - p,
        {
            assert(s.skip(p as int).drop_first() =~= s.skip(p + 1));
            let o = compare_strs(es[out[p]].0.as_str(), es[m].0.as_str());
            match o {
                Order::Greater => {
                    assert(s.skip(p as int)[0] == s[p as int]);
                    assert(ev[s[p as int]] == (es@[out@[p as int] as int].0@, json_view_of(es@[out@[p as int] as int].1)));
                    assert(ev[m as int] == (es@[m as int].0@, json_view_of(es@[m as int].1)));
                    assert(key_slot(ev, s.skip(p as int), m as int) == 0);
                    break;
                },
                _ => {},
            }
            p += 1;
        }
        proof {
            lemma_key_slot_bound(ev, s, m as int);
        }
        out.insert(p, m);
        assert(sorted_key_indices_upto(ev, (m + 1) as nat) == s.insert(p as int, m as int));
        m += 1;
    }
    out
}

/// The view of a value (a named function, for triggers).
spec fn json_view_of(v: JsonValue) -> JsonView {
    v@
}

/// Appends the canonical bytes of `value`.
pub fn write_canonical(value: &JsonValue, buf: &mut Vec<u8>)
    ensures
        final(buf)@ == old(buf)@ + canonical_bytes(value@),
    decreases value,
{
    let ghost start = buf@;
    match value {
        JsonValue::Null => {
            buf.push(110);
            buf.push(117);
            buf.push(108);
            buf.push(108);
        },
        JsonValue::Bool(b) => {
            if *b {
                buf.push(116);
                buf.push(114);
                buf.push(117);
                buf.push(101);
            } else {
                buf.push(102);
                buf.push(97);
                buf.push(108);
                buf.push(115);
                buf.push(101);
            }
        },
        JsonValue::Number(n) => {
            write_number(n, buf);
        },
        JsonValue::String(s) => {
            write_canonical_string(s.as_str(), buf);
        },
        JsonValue::Array(xs) => {
            proof {
                lemma_views_of(xs@);
            }
            let ghost xv = views_of(xs@);
            buf.push(91);
            let mut i: usize = 0;
            assert(xv.take(0) =~= Seq::<JsonView>::empty());
            while i < xs.len()
                invariant
                    i <= xs@.len(),
                    *value == JsonValue::Array(*xs),
                    xv == views_of(xs@),
                    xv.len() == xs@.len(),
                    forall|j: int| 0 <= j < xs@.len() ==> #[trigger] xv[j] == json_view_of(xs@[j]),
                    buf@ == start + seq![91u8] + join_values(xv.take(i as int)),
                decreases xs@.len() - i,
            {
                proof {
                    assert(decreases_to!(*value => (*value)->Array_0));
                    assert(decreases_to!(*xs => xs[i as int]));
                }
                let ghost before = buf@;
                if i > 0 {
                    buf.push(44);
                }
                write_canonical(&xs[i], buf);
                assert(xv.take(i + 1).drop_last() =~= xv.take(i as int));
                assert(xv.take(i + 1).last() == xv[i as int]);
                if i == 0 {
                    assert(xv.take(1) =~= seq![xv[0]]);
                }
                assert(buf@ =~= start + seq![91u8] + join_values(xv.take(i + 1)));
                i += 1;
            }
            assert(xv.take(xs@.len() as int) =~= xv);
            buf.push(93);
        },
        JsonValue::Object(es) => {
            proof {
                lemma_entry_views(es@);
            }
            let ghost ev = entry_views(es@);
            let order = sort_key_indices(es);
            let ghost idx = sorted_key_indices(ev);
            proof {
                lemma_sorted_indices_range(ev, ev.len());
            }
            buf.push(123);
            let mut k: usize = 0;
            assert(idx.take(0) =~= Seq::<int>::empty());
            while k < order.len()
                invariant
                    k <= order@.len() == es@.len(),
                    *value == JsonValue::Object(*es),
                    ev == entry_views(es@),
                    ev.len() == es@.len(),
                    forall|j: int| 0 <= j < es@.len() ==> #[trigger] ev[j] == (es@[j].0@, json_view_of(es@[j].1)),
                    idx == sorted_key_indices(ev),
                    idx.len() == es@.len(),
                    forall|q: int| 0 <= q < order@.len() ==> (#[trigger] order@[q]) as int == idx[q],
                    forall|q: int| 0 <= q < order@.len() ==> (#[trigger] order@[q]) < es@.len(),
                    buf@ == start + seq![123u8] + join_entries(ev, idx.take(k as int)),
                decreases order@.len() - k,
            {
                let j = order[k];
                proof {
                    assert(decreases_to!(*value => (*value)->Object_0));
                    assert(decreases_to!(*es => es[j as int]));
                    assert(decreases_to!(es[j as int] => es[j as int].1));
                }
                if k > 0 {
                    buf.push(44);
                }
                write_canonical_string(es[j].0.as_str(), buf);
                buf.push(58);
                write_canonical(&es[j].1, buf);
                assert(idx.take(k + 1).drop_last() =~= idx.take(k as int));
                assert(idx.take(k + 1).last() == idx[k as int]);
                if k == 0 {
                    assert(idx.take(1).len() == 1);
                }
                assert(buf@ =~= start + seq![123u8] + join_entries(ev, idx.take(k + 1)));
                k += 1;
            }
            assert(idx.take(es@.len() as int) =~= idx);
            buf.push(125);
        },
    }
    assert(buf@ =~= start + canonical_bytes(value@));
}

/// The canonical bytes of a JSON value (see [`canonical_bytes`]). Every value
/// can be encoded, so the result is always `Ok`.
pub fn canonicalize(value: &JsonValue) -> (r: Result<Vec<u8>, CoreError>)
    ensures
        r matches Ok(bytes) && bytes@ == canonical_bytes(value@),
{
    let mut buf: Vec<u8> = Vec::new();
    write_canonical(value, &mut buf);
    assert(buf@ =~= canonical_bytes(value@));
    Ok(buf)
}

} // verus!
