//! Orders used throughout the library: lexicographic order of byte strings
//! (the order of Rust's `str`/`String` comparison) and the order of integers.
//! Comparisons return an [`Order`].

use vstd::prelude::*;
use vstd::string::*;

verus! {

/// The outcome of comparing two values.
#[derive(Debug, Clone, Copy, PartialEq, Eq, Structural)]
pub enum Order {
    Less,
    Equal,
    Greater,
}

/// The reverse of an ordering.
pub open spec fn reverse_order(o: Order) -> Order {
    match o {
        Order::Less => Order::Greater,
        Order::Equal => Order::Equal,
        Order::Greater => Order::Less,
    }
}

/// Lexicographic order of byte strings; a proper prefix comes first.
pub open spec fn byte_order(a: Seq<u8>, b: Seq<u8>) -> Order
    decreases a.len(),
{
    if a.len() == 0 && b.len() == 0 {
        Order::Equal
    } else if a.len() == 0 {
        Order::Less
    } else if b.len() == 0 {
        Order::Greater
    } else if a[0] < b[0] {
        Order::Less
    } else if a[0] > b[0] {
        Order::Greater
    } else {
        byte_order(a.drop_first(), b.drop_first())
    }
}

/// Equal strings compare equal, and only they do.
pub proof fn lemma_byte_order_equal(a: Seq<u8>, b: Seq<u8>)
    ensures
        (byte_order(a, b) == Order::Equal) <==> (a == b),
    decreases a.len(),
{
    if a.len() == 0 && b.len() == 0 {
        assert(a =~= b);
    } else if a.len() > 0 && b.len() > 0 && a[0] == b[0] {
        lemma_byte_order_equal(a.drop_first(), b.drop_first());
        if a.drop_first() == b.drop_first() {
            assert(a =~= b) by {
                assert forall|i: int| 0 <= i < a.len() implies a[i] == b[i] by {
                    if i > 0 {
                        assert(a[i] == a.drop_first()[i - 1]);
                        assert(b[i] == b.drop_first()[i - 1]);
                    }
                }
            }
        }
        if a == b {
            assert(a.drop_first() =~= b.drop_first());
        }
    } else {
        if a.len() > 0 && b.len() > 0 {
            assert(a[0] != b[0]);
        }
        assert(a != b);
    }
}

/// Swapping the arguments reverses the order.
pub proof fn lemma_byte_order_antisym(a: Seq<u8>, b: Seq<u8>)
    ensures
        byte_order(b, a) == reverse_order(byte_order(a, b)),
    decreases a.len(),
{
    if a.len() > 0 && b.len() > 0 && a[0] == b[0] {
        lemma_byte_order_antisym(a.drop_first(), b.drop_first());
    }
}

/// `Less` is transitive.
pub proof fn lemma_byte_order_trans_less(a: Seq<u8>, b: Seq<u8>, c: Seq<u8>)
    requires
        byte_order(a, b) == Order::Less,
        byte_order(b, c) == Order::Less,
    ensures
        byte_order(a, c) == Order::Less,
    decreases a.len(),
{
    if a.len() > 0 && b.len() > 0 && c.len() > 0 && a[0] == b[0] && b[0] == c[0] {
        lemma_byte_order_trans_less(a.drop_first(), b.drop_first(), c.drop_first());
    }
}

/// `Less or Equal` is transitive.
pub proof fn lemma_byte_order_trans_le(a: Seq<u8>, b: Seq<u8>, c: Seq<u8>)
    requires
        byte_order(a, b) != Order::Greater,
        byte_order(b, c) != Order::Greater,
    ensures
        byte_order(a, c) != Order::Greater,
    decreases a.len(),
{
    if a.len() > 0 && b.len() > 0 && c.len() > 0 && a[0] == b[0] && b[0] == c[0] {
        lemma_byte_order_trans_le(a.drop_first(), b.drop_first(), c.drop_first());
    }
}

/// Compares two byte strings lexicographically.
pub fn compare_byte_seqs(a: &[u8], b: &[u8]) -> (r: Order)
    ensures
        r == byte_order(a@, b@),
{
    let mut i: usize = 0;
    assert(a@.skip(0) =~= a@);
    assert(b@.skip(0) =~= b@);
    while i < a.len() && i < b.len()
        invariant
            i <= a@.len(),
            i <= b@.len(),
            byte_order(a@, b@) == byte_order(a@.skip(i as int), b@.skip(i as int)),
            forall|j: int| 0 <= j < i ==> a@[j] == b@[j],
        decreases a@.len() - i,
    {
        let x = a[i];
        let y = b[i];
        if x < y {
            return Order::Less;
        }
        if x > y {
            return Order::Greater;
        }
        assert(a@.skip(i as int).drop_first() =~= a@.skip(i + 1));
        assert(b@.skip(i as int).drop_first() =~= b@.skip(i + 1));
        i += 1;
    }
    if i < a.len() {
        Order::Greater
    } else if i < b.len() {
        Order::Less
    } else {
        Order::Equal
    }
}

/// Compares two strings the way `str::cmp` does: by their UTF-8 bytes.
pub fn compare_strs(a: &str, b: &str) -> (r: Order)
    ensures
        r == byte_order(a.spec_bytes(), b.spec_bytes()),
{
    compare_byte_seqs(a.as_bytes(), b.as_bytes())
}

/// The order of two `u64` values.
pub open spec fn u64_order(x: u64, y: u64) -> Order {
    if x < y {
        Order::Less
    } else if x == y {
        Order::Equal
    } else {
        Order::Greater
    }
}

/// Compares two `u64` values.
pub fn compare_u64(x: u64, y: u64) -> (r: Order)
    ensures
        r == u64_order(x, y),
{
    if x < y {
        Order::Less
    } else if x == y {
        Order::Equal
    } else {
        Order::Greater
    }
}

} // verus!
