//! Facts about the base64 text of bytes: its length, and that different
//! bytes never share a text, so decoding gives back what was encoded.

use vstd::prelude::*;
use crate::crypto::primitives::{b64_char, base64_text};

verus! {

/// The length of the base64 text of `n` bytes.
pub open spec fn base64_len(n: nat) -> nat {
    4 * (n / 3) + if n % 3 == 0 { 0nat } else if n % 3 == 1 { 2nat } else { 3nat }
}

/// The base64 text of `bs` has [`base64_len`] characters.
pub proof fn lemma_base64_len(bs: Seq<u8>)
    ensures
        base64_text(bs).len() == base64_len(bs.len()),
    decreases bs.len(),
{
    if bs.len() >= 3 {
        lemma_base64_len(bs.skip(3));
        assert(bs.skip(3).len() == bs.len() - 3);
        assert((bs.len() - 3) as nat / 3 == bs.len() / 3 - 1);
        assert((bs.len() - 3) as nat % 3 == bs.len() % 3);
    }
}

/// Different byte counts give texts of different lengths.
proof fn lemma_base64_len_injective(n: nat, m: nat)
    requires
        base64_len(n) == base64_len(m),
    ensures
        n == m,
{
    assert(n == 3 * (n / 3) + n % 3);
    assert(m == 3 * (m / 3) + m % 3);
    if n / 3 < m / 3 {
        assert(4 * (n / 3) + 3 < 4 * (m / 3));
    } else if m / 3 < n / 3 {
        assert(4 * (m / 3) + 3 < 4 * (n / 3));
    }
}

/// The character code of a 6-bit value.
proof fn lemma_b64_char_code(v: int)
    requires
        0 <= v < 64,
    ensures
        v < 26 ==> b64_char(v) as int == 65 + v,
        26 <= v < 52 ==> b64_char(v) as int == 97 + v - 26,
        52 <= v < 62 ==> b64_char(v) as int == 48 + v - 52,
        v == 62 ==> b64_char(v) as int == 45,
        v == 63 ==> b64_char(v) as int == 95,
{
    if v < 26 {
        assert(((65 + v) as char) as int == 65 + v);
    } else if v < 52 {
        assert(((97 + v - 26) as char) as int == 97 + v - 26);
    } else if v < 62 {
        assert(((48 + v - 52) as char) as int == 48 + v - 52);
    }
}

/// Each 6-bit value has its own character.
proof fn lemma_b64_char_injective(v: int, w: int)
    requires
        0 <= v < 64,
        0 <= w < 64,
        b64_char(v) == b64_char(w),
    ensures
        v == w,
{
    lemma_b64_char_code(v);
    lemma_b64_char_code(w);
}

/// Bytes are fixed by their base64 text.
pub proof fn lemma_base64_injective(a: Seq<u8>, b: Seq<u8>)
    requires
        base64_text(a) == base64_text(b),
    ensures
        a == b,
    decreases a.len(),
{
    lemma_base64_len(a);
    lemma_base64_len(b);
    lemma_base64_len_injective(a.len(), b.len());
    let ta = base64_text(a);
    let tb = base64_text(b);
    if a.len() == 0 {
        assert(a =~= b);
    } else if a.len() == 1 {
        let (x0, y0) = (a[0], b[0]);
        assert(ta[0] == tb[0] && ta[1] == tb[1]);
        lemma_b64_char_injective((x0 / 4) as int, (y0 / 4) as int);
        lemma_b64_char_injective(((x0 % 4) * 16) as int, ((y0 % 4) * 16) as int);
        assert(x0 == y0) by (bit_vector)
            requires x0 / 4 == y0 / 4, (x0 % 4) * 16 == (y0 % 4) * 16;
        assert(a =~= b);
    } else if a.len() == 2 {
        let (x0, x1, y0, y1) = (a[0], a[1], b[0], b[1]);
        assert(ta[0] == tb[0] && ta[1] == tb[1] && ta[2] == tb[2]);
        lemma_b64_char_injective((x0 / 4) as int, (y0 / 4) as int);
        lemma_b64_char_injective(((x0 % 4) * 16 + x1 / 16) as int, ((y0 % 4) * 16 + y1 / 16) as int);
        lemma_b64_char_injective(((x1 % 16) * 4) as int, ((y1 % 16) * 4) as int);
        assert(x0 == y0 && x1 == y1) by (bit_vector)
            requires
                x0 / 4 == y0 / 4,
                (x0 % 4) * 16 + x1 / 16 == (y0 % 4) * 16 + y1 / 16,
                (x1 % 16) * 4 == (y1 % 16) * 4;
        assert(a =~= b);
    } else {
        let (x0, x1, x2, y0, y1, y2) = (a[0], a[1], a[2], b[0], b[1], b[2]);
        assert(ta[0] == tb[0] && ta[1] == tb[1] && ta[2] == tb[2] && ta[3] == tb[3]);
        lemma_b64_char_injective((x0 / 4) as int, (y0 / 4) as int);
        lemma_b64_char_injective(((x0 % 4) * 16 + x1 / 16) as int, ((y0 % 4) * 16 + y1 / 16) as int);
        lemma_b64_char_injective(((x1 % 16) * 4 + x2 / 64) as int, ((y1 % 16) * 4 + y2 / 64) as int);
        lemma_b64_char_injective((x2 % 64) as int, (y2 % 64) as int);
        assert(x0 == y0 && x1 == y1 && x2 == y2) by (bit_vector)
            requires
                x0 / 4 == y0 / 4,
                (x0 % 4) * 16 + x1 / 16 == (y0 % 4) * 16 + y1 / 16,
                (x1 % 16) * 4 + x2 / 64 == (y1 % 16) * 4 + y2 / 64,
                x2 % 64 == y2 % 64;
        let ra = base64_text(a.skip(3));
        let rb = base64_text(b.skip(3));
        assert(ta.skip(4) =~= ra);
        assert(tb.skip(4) =~= rb);
        lemma_base64_injective(a.skip(3), b.skip(3));
        assert(a =~= seq![x0, x1, x2] + a.skip(3));
        assert(b =~= seq![y0, y1, y2] + b.skip(3));
    }
}

} // verus!
