//! Opaque pagination cursors.
//!
//! A cursor marks a position in a result set by the last record's ID and
//! creation time. It is handed to API consumers as URL-safe base64 text
//! of `"<record_id>:<created_at_ms>"`.

use vstd::prelude::*;
use vstd::string::*;
use vstd::utf8::{decode_utf8, encode_utf8, valid_utf8};
use crate::crypto::encoding::lemma_base64_injective;
use crate::crypto::primitives::{base64_decode, base64_encode, base64_error_text, base64_text, utf8_to_string};
use crate::error::QueryError;
use crate::strings::{concat, concat3, decimal_text, u64_to_string};

verus! {

/// A pagination cursor.
#[derive(Debug)]
pub struct Cursor {
    /// The ID of the last record of the previous page.
    pub record_id: String,
    /// The creation time of that record.
    pub created_at_ms: u64,
}

/// Whether `c` is an ASCII decimal digit.
pub open spec fn is_digit(c: char) -> bool {
    '0' <= c && c <= '9'
}

/// The value of a string of decimal digits.
pub open spec fn digits_value(s: Seq<char>) -> nat
    decreases s.len(),
{
    if s.len() == 0 {
        0
    } else {
        digits_value(s.drop_last()) * 10 + (s.last() as nat - 48) as nat
    }
}

/// `s` without a leading `+`.
pub open spec fn unsigned_part(s: Seq<char>) -> Seq<char> {
    if s.len() > 0 && s[0] == '+' { s.drop_first() } else { s }
}

/// Whether every character of `d` is a decimal digit.
pub open spec fn all_digits(d: Seq<char>) -> bool {
    forall|i: int| 0 <= i < d.len() ==> is_digit(#[trigger] d[i])
}

/// What `u64::from_str` accepts: an optional `+` followed by one or more
/// decimal digits whose value fits in a `u64`.
pub open spec fn parsed_u64(s: Seq<char>) -> Option<u64> {
    let d = unsigned_part(s);
    if d.len() > 0 && all_digits(d) && digits_value(d) <= u64::MAX {
        Some(digits_value(d) as u64)
    } else {
        None
    }
}

/// Why a decimal number did not parse.
#[derive(Debug, Clone, Copy, PartialEq, Eq, Structural)]
pub enum ParseIntFailure {
    /// The text is empty.
    Empty,
    /// A character is not a decimal digit.
    InvalidDigit,
    /// The value does not fit in a `u64`.
    PosOverflow,
}

/// The message `std` gives for each parse failure.
pub open spec fn failure_text(f: ParseIntFailure) -> Seq<char> {
    match f {
        ParseIntFailure::Empty => "cannot parse integer from empty string"@,
        ParseIntFailure::InvalidDigit => "invalid digit found in string"@,
        ParseIntFailure::PosOverflow => "number too large to fit in target type"@,
    }
}

impl ParseIntFailure {
    /// The message `std` gives for this failure.
    pub fn message(&self) -> (r: &'static str)
        ensures
            r@ == failure_text(*self),
    {
        match self {
            ParseIntFailure::Empty => "cannot parse integer from empty string",
            ParseIntFailure::InvalidDigit => "invalid digit found in string",
            ParseIntFailure::PosOverflow => "number too large to fit in target type",
        }
    }
}

proof fn lemma_digits_value_push(d: Seq<char>, c: char)
    ensures
        digits_value(d.push(c)) == digits_value(d) * 10 + (c as nat - 48) as nat,
{
    assert(d.push(c).drop_last() =~= d);
}

/// Parses a `u64` the way `u64::from_str` does.
pub fn parse_u64(s: &str) -> (r: Result<u64, ParseIntFailure>)
    ensures
        r is Ok <==> parsed_u64(s@) is Some,
        r matches Ok(v) ==> parsed_u64(s@) == Some(v),
{
    let n = s.unicode_len();
    if n == 0 {
        return Err(ParseIntFailure::Empty);
    }
    let mut i: usize = 0;
    if s.get_char(0) == '+' {
        i = 1;
    }
    let ghost d = unsigned_part(s@);
    let ghost start = i as int;
    assert(d =~= s@.skip(start));
    if i == n {
        return Err(ParseIntFailure::InvalidDigit);
    }
    let mut value: u64 = 0;
    while i < n
        invariant
            n == s@.len(),
            d == s@.skip(start),
            d == unsigned_part(s@),
            start <= i <= n,
            start == 0 || start == 1,
            forall|j: int| start <= j < i ==> is_digit(#[trigger] s@[j]),
            value == digits_value(s@.subrange(start, i as int)),
        decreases n - i,
    {
        let c = s.get_char(i);
        if !('0' <= c && c <= '9') {
            proof {
                assert(d[i - start] == c);
                assert(!is_digit(d[i - start]));
                assert(!all_digits(d));
            }
            return Err(ParseIntFailure::InvalidDigit);
        }
        let digit = (c as u32 - 48) as u64;
        proof {
            lemma_digits_value_push(s@.subrange(start, i as int), c);
            assert(s@.subrange(start, i + 1) =~= s@.subrange(start, i as int).push(c));
        }
        if value > (u64::MAX - digit) / 10 {
            proof {
                assert(value * 10 + digit > u64::MAX) by (nonlinear_arith)
                    requires value > (u64::MAX - digit) / 10, digit <= 9;
                if all_digits(d) {
                    lemma_digits_value_prefix(d, i - start + 1, n - start);
                    assert(s@.subrange(start, i + 1) =~= d.subrange(0, i - start + 1));
                    assert(d.subrange(0, n - start) =~= d);
                }
            }
            return Err(ParseIntFailure::PosOverflow);
        }
        proof {
            assert(value * 10 + digit <= u64::MAX) by (nonlinear_arith)
                requires value <= (u64::MAX - digit) / 10, digit <= 9;
        }
        value = value * 10 + digit;
        i += 1;
    }
    proof {
        assert(s@.subrange(start, n as int) =~= d);
    }
    Ok(value)
}

/// The value of a longer digit string is at least that of its prefix.
proof fn lemma_digits_value_prefix(d: Seq<char>, i: int, j: int)
    requires
        0 <= i <= j <= d.len(),
        forall|k: int| 0 <= k < j ==> is_digit(#[trigger] d[k]),
    ensures
        digits_value(d.subrange(0, i)) <= digits_value(d.subrange(0, j)),
    decreases j - i,
{
    if i < j {
        lemma_digits_value_prefix(d, i, j - 1);
        assert(d.subrange(0, j).drop_last() =~= d.subrange(0, j - 1));
    }
}

/// The position of the last `':'` of `s`.
pub open spec fn last_colon(s: Seq<char>) -> Option<int>
    decreases s.len(),
{
    if s.len() == 0 {
        None
    } else if s.last() == ':' {
        Some(s.len() - 1)
    } else {
        last_colon(s.drop_last())
    }
}

/// The record ID and time of the cursor text `raw`: the text before the
/// last `':'`, and the number after it.
pub open spec fn cursor_fields(raw: Seq<char>) -> Option<(Seq<char>, u64)> {
    match last_colon(raw) {
        Some(p) => match parsed_u64(raw.subrange(p + 1, raw.len() as int)) {
            Some(t) => Some((raw.subrange(0, p), t)),
            None => None,
        },
        None => None,
    }
}

/// The cursor text of a record ID and time.
pub open spec fn cursor_text(record_id: Seq<char>, created_at_ms: u64) -> Seq<char> {
    record_id + ":"@ + decimal_text(created_at_ms as nat)
}

/// The encoded form of a cursor.
pub open spec fn encoded_cursor(record_id: Seq<char>, created_at_ms: u64) -> Seq<char> {
    base64_text(encode_utf8(cursor_text(record_id, created_at_ms)))
}

/// The record ID and time an encoded cursor holds: the fields of the
/// cursor text whose UTF-8 bytes have `encoded` as their base64 text.
pub open spec fn decoded_cursor(encoded: Seq<char>) -> Option<(Seq<char>, u64)> {
    if exists|b: Seq<u8>| base64_text(b) == encoded && valid_utf8(b) {
        cursor_fields(decode_utf8(choose|b: Seq<u8>| base64_text(b) == encoded && valid_utf8(b)))
    } else {
        None
    }
}

proof fn lemma_last_colon(s: Seq<char>)
    ensures
        match last_colon(s) {
            Some(p) => 0 <= p < s.len() && s[p] == ':' && forall|j: int| p < j < s.len() ==> s[j] != ':',
            None => forall|j: int| 0 <= j < s.len() ==> s[j] != ':',
        },
    decreases s.len(),
{
    if s.len() > 0 {
        let t = s.drop_last();
        lemma_last_colon(t);
        assert(forall|j: int| 0 <= j < t.len() ==> t[j] == s[j]);
    }
}

/// Reads the cursor text `raw`: the record ID before the last `':'` and
/// the time after it.
pub fn cursor_from_text(raw: &str) -> (r: Result<Cursor, QueryError>)
    ensures
        r is Ok <==> cursor_fields(raw@) is Some,
        r matches Ok(c) ==> cursor_fields(raw@) == Some((c.record_id@, c.created_at_ms)),
        r matches Err(e) ==> e is InvalidCursor,
        last_colon(raw@) is None ==> (r matches Err(QueryError::InvalidCursor(m)) && m@ == "missing separator"@),
        last_colon(raw@) is Some && cursor_fields(raw@) is None ==> (r matches Err(QueryError::InvalidCursor(m))
            && exists|f: ParseIntFailure| m@ == "timestamp parse: "@ + failure_text(f)),
{
    let n = raw.unicode_len();
    let mut i: usize = n;
    proof {
        lemma_last_colon(raw@);
    }
    while i > 0
        invariant
            n == raw@.len(),
            i <= n,
            forall|j: int| i <= j < n ==> raw@[j] != ':',
        ensures
            i == 0 || raw@[i - 1] == ':',
        decreases i,
    {
        if raw.get_char(i - 1) == ':' {
            break;
        }
        i -= 1;
    }
    if i == 0 {
        proof {
            lemma_last_colon(raw@);
            if last_colon(raw@) is Some {
                let p = last_colon(raw@)->0;
                assert(raw@[p] == ':');
            }
        }
        return Err(QueryError::InvalidCursor(String::from_str("missing separator")));
    }
    let p = i - 1;
    proof {
        lemma_last_colon(raw@);
        let q = last_colon(raw@)->0;
        if q < p {
            assert(raw@[p as int] == ':');
        }
        if q > p {
            assert(raw@[q] == ':');
        }
    }
    let record_id = raw.substring_char(0, p);
    let ts = raw.substring_char(p + 1, n);
    match parse_u64(ts) {
        Ok(created_at_ms) => Ok(Cursor { record_id: record_id.to_string(), created_at_ms }),
        Err(f) => {
            let m = concat("timestamp parse: ", f.message());
            assert(m@ == "timestamp parse: "@ + failure_text(f));
            Err(QueryError::InvalidCursor(m))
        },
    }
}

/// Text with no `':'` in it.
proof fn lemma_decimal_no_colon(n: nat)
    ensures
        forall|j: int| 0 <= j < decimal_text(n).len() ==> is_digit(#[trigger] decimal_text(n)[j]),
        decimal_text(n).len() > 0,
        digits_value(decimal_text(n)) == n,
        decimal_text(n)[0] != '+',
    decreases n,
{
    if n >= 10 {
        lemma_decimal_no_colon(n / 10);
        let t = decimal_text(n / 10);
        assert(decimal_text(n) == t.push((48 + n % 10) as char));
        lemma_digits_value_push(t, (48 + n % 10) as char);
        assert(((48 + n % 10) as char) as nat == 48 + n % 10);
        assert(n / 10 * 10 + n % 10 == n);
        assert(digits_value(t) == n / 10);
        assert(digits_value(decimal_text(n)) == digits_value(t) * 10 + n % 10);
        assert(forall|j: int| 0 <= j < t.len() ==> decimal_text(n)[j] == t[j]);
    } else {
        assert(decimal_text(n) == seq![(48 + n) as char]);
        assert(seq![(48 + n) as char].drop_last() =~= Seq::<char>::empty());
        assert(((48 + n) as char) as nat == 48 + n);
        assert(seq![(48 + n) as char].last() == (48 + n) as char);
        assert(digits_value(seq![(48 + n) as char]) == digits_value(Seq::<char>::empty()) * 10 + n);
    }
}

/// Reading the text of a record ID and time gives them back, whatever
/// the ID holds (`':'` included).
pub proof fn cursor_text_round_trip(record_id: Seq<char>, created_at_ms: u64)
    ensures
        cursor_fields(cursor_text(record_id, created_at_ms)) == Some((record_id, created_at_ms)),
{
    reveal_strlit(":");
    let t = decimal_text(created_at_ms as nat);
    let s = cursor_text(record_id, created_at_ms);
    assert(s =~= record_id.push(':') + t);
    lemma_decimal_no_colon(created_at_ms as nat);
    lemma_last_colon(s);
    let p = record_id.len() as int;
    assert(s[p] == ':');
    assert forall|j: int| p < j < s.len() implies s[j] != ':' by {
        assert(s[j] == t[j - p - 1]);
        assert(is_digit(t[j - p - 1]));
    }
    let q = last_colon(s)->0;
    if q != p {
        if q < p {
            assert(s[p] == ':');
        }
    }
    assert(s.subrange(p + 1, s.len() as int) =~= t);
    assert(s.subrange(0, p) =~= record_id);
}

/// Decoding an encoded cursor gives back its record ID and time, whatever
/// the ID holds (`':'` included).
pub proof fn cursor_round_trip(record_id: Seq<char>, created_at_ms: u64)
    ensures
        decoded_cursor(encoded_cursor(record_id, created_at_ms)) == Some((record_id, created_at_ms)),
{
    let t = cursor_text(record_id, created_at_ms);
    let b = encode_utf8(t);
    vstd::utf8::encode_utf8_valid_utf8(t);
    vstd::utf8::encode_utf8_decode_utf8(t);
    assert(base64_text(b) == encoded_cursor(record_id, created_at_ms) && valid_utf8(b));
    let c = choose|c: Seq<u8>| base64_text(c) == encoded_cursor(record_id, created_at_ms) && valid_utf8(c);
    lemma_base64_injective(c, b);
    cursor_text_round_trip(record_id, created_at_ms);
}

impl Cursor {
    /// A cursor at a record's position.
    pub fn new(record_id: String, created_at_ms: u64) -> (r: Cursor)
        ensures
            r.record_id@ == record_id@,
            r.created_at_ms == created_at_ms,
    {
        Cursor { record_id, created_at_ms }
    }

    /// The opaque text of this cursor: URL-safe base64 of
    /// `"<record_id>:<created_at_ms>"`.
    pub fn encode(&self) -> (r: String)
        ensures
            r@ == encoded_cursor(self.record_id@, self.created_at_ms),
    {
        let ts = u64_to_string(self.created_at_ms);
        let raw = concat3(self.record_id.as_str(), ":", ts.as_str());
        proof {
            reveal_strlit(":");
        }
        base64_encode(raw.as_str().as_bytes())
    }

    /// Reads a cursor from its opaque text. It fails with `InvalidCursor`
    /// on text that is not URL-safe base64 of UTF-8 cursor text.
    pub fn decode(encoded: &str) -> (r: Result<Cursor, QueryError>)
        ensures
            r is Ok <==> decoded_cursor(encoded@) is Some,
            r matches Ok(c) ==> decoded_cursor(encoded@) == Some((c.record_id@, c.created_at_ms)),
            r matches Err(e) ==> e is InvalidCursor,
            !(exists|b: Seq<u8>| base64_text(b) == encoded@) ==> (r matches Err(QueryError::InvalidCursor(m))
                && "base64 decode: "@.is_prefix_of(m@)),
            (exists|b: Seq<u8>| base64_text(b) == encoded@ && !valid_utf8(b)) ==> (r matches Err(
                QueryError::InvalidCursor(m)) && "utf8 decode: "@.is_prefix_of(m@)),
            (exists|b: Seq<u8>| base64_text(b) == encoded@ && valid_utf8(b) && last_colon(decode_utf8(b)) is None)
                ==> (r matches Err(QueryError::InvalidCursor(m)) && m@ == "missing separator"@),
            (exists|b: Seq<u8>| base64_text(b) == encoded@ && valid_utf8(b) && last_colon(decode_utf8(b)) is Some
                && cursor_fields(decode_utf8(b)) is None) ==> (r matches Err(QueryError::InvalidCursor(m))
                && exists|f: ParseIntFailure| m@ == "timestamp parse: "@ + failure_text(f)),
    {
        let bytes = match base64_decode(encoded) {
            Ok(b) => b,
            Err(e) => {
                let text = base64_error_text(&e);
                return Err(QueryError::InvalidCursor(concat("base64 decode: ", text.as_str())));
            },
        };
        let ghost b = bytes@;
        proof {
            assert forall|c: Seq<u8>| base64_text(c) == encoded@ implies c == b by {
                lemma_base64_injective(c, b);
            }
        }
        let raw = match utf8_to_string(bytes) {
            Ok(s) => s,
            Err(text) => {
                return Err(QueryError::InvalidCursor(concat("utf8 decode: ", text.as_str())));
            },
        };
        proof {
            assert(base64_text(b) == encoded@ && valid_utf8(b));
            let c = choose|c: Seq<u8>| base64_text(c) == encoded@ && valid_utf8(c);
            assert(c == b);
        }
        cursor_from_text(raw.as_str())
    }
}

impl Clone for Cursor {
    fn clone(&self) -> (r: Self)
        ensures
            r.record_id == self.record_id,
            r.created_at_ms == self.created_at_ms,
    {
        Cursor { record_id: self.record_id.clone(), created_at_ms: self.created_at_ms }
    }
}

} // verus!
