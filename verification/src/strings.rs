//! Building text: string concatenation and decimal numbers.

use vstd::prelude::*;
use vstd::string::*;

verus! {

/// The decimal text of `n`.
pub open spec fn decimal_text(n: nat) -> Seq<char>
    decreases n,
{
    if n < 10 {
        seq![(48 + n) as char]
    } else {
        decimal_text(n / 10).push((48 + n % 10) as char)
    }
}

/// The concatenation of two strings.
pub fn concat(a: &str, b: &str) -> (r: String)
    ensures
        r@ == a@ + b@,
{
    let mut s = String::from_str(a);
    s.append(b);
    s
}

/// The concatenation of three strings.
pub fn concat3(a: &str, b: &str, c: &str) -> (r: String)
    ensures
        r@ == a@ + b@ + c@,
{
    let mut s = String::from_str(a);
    s.append(b);
    s.append(c);
    s
}

/// The decimal text of `n`.
pub fn u64_to_string(n: u64) -> (r: String)
    ensures
        r@ == decimal_text(n as nat),
{
    let mut out = String::new();
    let mut digits: Vec<u8> = Vec::new();
    let mut q = n;
    while q >= 10
        invariant
            decimal_text(n as nat) == decimal_text(q as nat) + digit_chars(digits@),
            forall|i: int| 0 <= i < digits@.len() ==> digits@[i] < 10,
        decreases q,
    {
        let ghost prev = digits@;
        digits.insert(0, (q % 10) as u8);
        assert(digit_chars(digits@) =~= seq![(48 + q % 10) as char] + digit_chars(prev));
        q = q / 10;
    }
    let ghost prev = digits@;
    digits.insert(0, q as u8);
    assert(digit_chars(digits@) =~= seq![(48 + q) as char] + digit_chars(prev));
    assert(decimal_text(n as nat) =~= digit_chars(digits@));
    let mut i: usize = 0;
    while i < digits.len()
        invariant
            i <= digits@.len(),
            out@ == digit_chars(digits@.take(i as int)),
            forall|j: int| 0 <= j < digits@.len() ==> digits@[j] < 10,
        decreases digits@.len() - i,
    {
        let d = digits[i];
        let piece = digit_str(d);
        out.append(piece);
        assert(digit_chars(digits@.take(i + 1)) =~= digit_chars(digits@.take(i as int)).push((48 + d) as char));
        i += 1;
    }
    assert(digits@.take(digits@.len() as int) =~= digits@);
    out
}

/// The characters of decimal digit values.
pub open spec fn digit_chars(ds: Seq<u8>) -> Seq<char> {
    Seq::new(ds.len(), |i: int| (48 + ds[i]) as char)
}

/// The one-character text of a digit.
fn digit_str(d: u8) -> (r: &'static str)
    requires
        d < 10,
    ensures
        r@ == seq![(48 + d) as char],
{
    proof {
        reveal_strlit("0");
        reveal_strlit("1");
        reveal_strlit("2");
        reveal_strlit("3");
        reveal_strlit("4");
        reveal_strlit("5");
        reveal_strlit("6");
        reveal_strlit("7");
        reveal_strlit("8");
        reveal_strlit("9");
    }
    if d == 0 {
        "0"
    } else if d == 1 {
        "1"
    } else if d == 2 {
        "2"
    } else if d == 3 {
        "3"
    } else if d == 4 {
        "4"
    } else if d == 5 {
        "5"
    } else if d == 6 {
        "6"
    } else if d == 7 {
        "7"
    } else if d == 8 {
        "8"
    } else {
        "9"
    }
}

} // verus!
