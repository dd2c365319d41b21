//! An in-memory blob store, with keys listed in byte order as an ordered
//! map gives them.

use vstd::prelude::*;
use vstd::utf8::encode_utf8;
use crate::error::SyncError;
use crate::json::str_equal;
use crate::keyed::StrMap;
use crate::namespace::str_views;
use crate::order::{Order, byte_order, compare_strs, lemma_byte_order_antisym, lemma_byte_order_equal,
    lemma_byte_order_trans_less};
use crate::storage::memory::contains_str;
use crate::sync::backend::SyncBackend;

verus! {

broadcast use vstd::std_specs::vec::group_vec_axioms, vstd::seq::group_seq_axioms;

/// Whether key `a` comes before key `b`: byte-wise order of their UTF-8 text.
pub open spec fn key_less(a: Seq<char>, b: Seq<char>) -> bool {
    byte_order(encode_utf8(a), encode_utf8(b)) == Order::Less
}

/// Whether a list of keys is in strictly increasing order.
pub open spec fn strictly_sorted(ks: Seq<Seq<char>>) -> bool {
    forall|a: int, b: int| 0 <= a < b < ks.len() ==> key_less(#[trigger] ks[a], #[trigger] ks[b])
}

/// Whether `s` starts with `prefix`.
pub fn has_prefix(s: &str, prefix: &str) -> (r: bool)
    ensures
        r == prefix@.is_prefix_of(s@),
{
    let plen = prefix.unicode_len();
    let slen = s.unicode_len();
    if plen > slen {
        return false;
    }
    let head = s.substring_char(0, plen);
    str_equal(head, prefix)
}

/// Two keys with the same UTF-8 text are the same key.
proof fn lemma_key_equal(a: Seq<char>, b: Seq<char>)
    ensures
        byte_order(encode_utf8(a), encode_utf8(b)) == Order::Equal <==> a == b,
{
    lemma_byte_order_equal(encode_utf8(a), encode_utf8(b));
    vstd::utf8::encode_utf8_decode_utf8(a);
    vstd::utf8::encode_utf8_decode_utf8(b);
}

/// Inserts a new key into a strictly sorted list of keys, keeping it sorted.
fn insert_sorted(keys: &mut Vec<String>, key: String)
    requires
        strictly_sorted(str_views(old(keys)@)),
        !str_views(old(keys)@).contains(key@),
    ensures
        strictly_sorted(str_views(final(keys)@)),
        str_views(final(keys)@).len() == str_views(old(keys)@).len() + 1,
        forall|x: Seq<char>| #[trigger] str_views(final(keys)@).contains(x) <==> (str_views(old(keys)@).contains(x) || x == key@),
{
    let ghost old_views = str_views(keys@);
    let mut i: usize = 0;
    while i < keys.len()
        invariant_except_break
            i <= keys@.len(),
            str_views(keys@) == old_views,
            forall|j: int| 0 <= j < i ==> key_less(old_views[j], key@),
        invariant
            str_views(keys@) == old_views,
            i <= keys@.len(),
            !old_views.contains(key@),
        ensures
            forall|j: int| 0 <= j < i ==> key_less(old_views[j], key@),
            i < keys@.len() ==> key_less(key@, old_views[i as int]),
        decreases keys@.len() - i,
    {
        let o = compare_strs(key.as_str(), keys[i].as_str());
        proof {
            assert(old_views[i as int] == keys@[i as int]@);
            lemma_key_equal(key@, keys@[i as int]@);
            lemma_byte_order_antisym(encode_utf8(key@), encode_utf8(keys@[i as int]@));
            if o == Order::Equal {
                assert(old_views.contains(key@));
            }
        }
        match o {
            Order::Less => {
                break;
            },
            _ => {},
        }
        i += 1;
    }
    let ghost k = key@;
    keys.insert(i, key);
    proof {
        let nv = str_views(keys@);
        assert(nv =~= old_views.insert(i as int, k));
        assert forall|a: int, b: int| 0 <= a < b < nv.len() implies key_less(#[trigger] nv[a], #[trigger] nv[b]) by {
            if b < i {
                assert(key_less(old_views[a], old_views[b]));
            } else if b == i {
                assert(key_less(old_views[a], k));
            } else if a > i {
                assert(key_less(old_views[a - 1], old_views[b - 1]));
            } else if a == i {
                if b - 1 > i {
                    assert(key_less(old_views[i as int], old_views[b - 1]));
                    lemma_byte_order_trans_less(encode_utf8(k), encode_utf8(old_views[i as int]), encode_utf8(old_views[b - 1]));
                }
            } else {
                assert(key_less(old_views[a], k));
                if b - 1 > i {
                    assert(key_less(old_views[i as int], old_views[b - 1]));
                    lemma_byte_order_trans_less(encode_utf8(k), encode_utf8(old_views[i as int]), encode_utf8(old_views[b - 1]));
                }
                lemma_byte_order_trans_less(encode_utf8(old_views[a]), encode_utf8(k), encode_utf8(old_views[b - 1]));
            }
        }
        assert forall|x: Seq<char>| #[trigger] nv.contains(x) <==> (old_views.contains(x) || x == k) by {
            if nv.contains(x) {
                let j = choose|j: int| 0 <= j < nv.len() && nv[j] == x;
                if j < i {
                    assert(old_views[j] == x);
                } else if j > i {
                    assert(old_views[j - 1] == x);
                }
            }
            if old_views.contains(x) {
                let j = choose|j: int| 0 <= j < old_views.len() && old_views[j] == x;
                if j < i {
                    assert(nv[j] == x);
                } else {
                    assert(nv[j + 1] == x);
                }
            }
            if x == k {
                assert(nv[i as int] == x);
            }
        }
    }
}

/// The keys among `keys` that start with `prefix`, each once, in byte-wise
/// order of their UTF-8 text: how every backend lists its blobs.
pub fn keys_with_prefix(keys: &Vec<String>, prefix: &str) -> (r: Vec<String>)
    ensures
        strictly_sorted(str_views(r@)),
        forall|k: Seq<char>| #[trigger] str_views(r@).contains(k)
            <==> (str_views(keys@).contains(k) && prefix@.is_prefix_of(k)),
{
    let mut out: Vec<String> = Vec::new();
    let mut i: usize = 0;
    while i < keys.len()
        invariant
            i <= keys@.len(),
            strictly_sorted(str_views(out@)),
            forall|k: Seq<char>| #[trigger] str_views(out@).contains(k) <==> (exists|j: int| 0 <= j < i
                && keys@[j]@ == k && prefix@.is_prefix_of(k)),
        decreases keys@.len() - i,
    {
        let key = &keys[i];
        let ghost before = str_views(out@);
        if has_prefix(key.as_str(), prefix) && !contains_str(&out, key.as_str()) {
            insert_sorted(&mut out, key.clone());
        }
        proof {
            assert forall|k: Seq<char>| #[trigger] str_views(out@).contains(k) <==> (exists|j: int| 0 <= j < i + 1
                && keys@[j]@ == k && prefix@.is_prefix_of(k)) by {
                if k == key@ && prefix@.is_prefix_of(k) {
                    assert(keys@[i as int]@ == k);
                }
                if exists|j: int| 0 <= j < i + 1 && keys@[j]@ == k && prefix@.is_prefix_of(k) {
                    let j = choose|j: int| 0 <= j < i + 1 && keys@[j]@ == k && prefix@.is_prefix_of(k);
                    if j < i {
                        assert(before.contains(k));
                    }
                }
            }
        }
        i += 1;
    }
    proof {
        assert forall|k: Seq<char>| #[trigger] str_views(out@).contains(k)
            <==> (str_views(keys@).contains(k) && prefix@.is_prefix_of(k)) by {
            if str_views(keys@).contains(k) {
                let j = choose|j: int| 0 <= j < str_views(keys@).len() && str_views(keys@)[j] == k;
                assert(keys@[j]@ == k);
            }
            if exists|j: int| 0 <= j < keys@.len() && keys@[j]@ == k && prefix@.is_prefix_of(k) {
                let j = choose|j: int| 0 <= j < keys@.len() && keys@[j]@ == k && prefix@.is_prefix_of(k);
                assert(str_views(keys@)[j] == k);
            }
        }
    }
    out
}

/// An in-memory blob store.
#[derive(Debug)]
pub struct MemorySyncBackend {
    blobs: StrMap<Vec<u8>>,
}

impl View for MemorySyncBackend {
    type V = Map<Seq<char>, Seq<u8>>;

    closed spec fn view(&self) -> Map<Seq<char>, Seq<u8>> {
        self.blobs@.map_values(|v: Vec<u8>| v@)
    }
}

impl MemorySyncBackend {
    /// An empty store.
    pub fn new() -> (r: MemorySyncBackend)
        ensures
            r@ == Map::<Seq<char>, Seq<u8>>::empty(),
    {
        let r = MemorySyncBackend { blobs: StrMap::new() };
        assert(r@ =~= Map::<Seq<char>, Seq<u8>>::empty());
        r
    }

    /// How many blobs are stored.
    pub fn blob_count(&self) -> (r: usize)
        ensures
            self@.dom().finite(),
            r == self@.dom().len(),
    {
        let n = self.blobs.len();
        assert(self@.dom() =~= self.blobs@.dom());
        n
    }
}

impl Default for MemorySyncBackend {
    fn default() -> (r: Self)
        ensures
            r@ == Map::<Seq<char>, Seq<u8>>::empty(),
    {
        MemorySyncBackend::new()
    }
}

impl SyncBackend for MemorySyncBackend {
    fn put_blob(&mut self, key: &str, data: &[u8]) -> (r: Result<(), SyncError>)
        ensures
            r is Ok,
            final(self)@ == old(self)@.insert(key@, data@),
    {
        let v = vstd::slice::slice_to_vec(data);
        self.blobs.insert(key.to_string(), v);
        assert(self@ =~= old(self)@.insert(key@, data@));
        Ok(())
    }

    fn get_blob(&self, key: &str) -> (r: Result<Option<Vec<u8>>, SyncError>)
        ensures
            r matches Ok(o) && (o is Some <==> self@.dom().contains(key@))
                && (o matches Some(v) ==> v@ == self@[key@]),
    {
        match self.blobs.get(key) {
            Some(v) => Ok(Some(vstd::slice::slice_to_vec(v.as_slice()))),
            None => Ok(None),
        }
    }

    fn list_blobs(&self, prefix: &str) -> (r: Result<Vec<String>, SyncError>)
        ensures
            r matches Ok(ks) && {
                &&& strictly_sorted(str_views(ks@))
                &&& forall|k: Seq<char>| #[trigger] str_views(ks@).contains(k)
                    <==> (self@.dom().contains(k) && prefix@.is_prefix_of(k))
            },
    {
        let n = self.blobs.len();
        let mut out: Vec<String> = Vec::new();
        let mut i: usize = 0;
        while i < n
            invariant
                n == self.blobs.key_order().len(),
                self.blobs.key_order().no_duplicates(),
                forall|k: Seq<char>| #[trigger] self.blobs@.dom().contains(k) <==> self.blobs.key_order().contains(k),
                i <= n,
                strictly_sorted(str_views(out@)),
                forall|k: Seq<char>| #[trigger] str_views(out@).contains(k) <==> (exists|j: int| 0 <= j < i
                    && self.blobs.key_order()[j] == k && prefix@.is_prefix_of(k)),
            decreases n - i,
        {
            let (key, _) = self.blobs.entry_at(i);
            if has_prefix(key.as_str(), prefix) {
                proof {
                    if str_views(out@).contains(key@) {
                        let j = choose|j: int| 0 <= j < i && self.blobs.key_order()[j] == key@ && prefix@.is_prefix_of(key@);
                        assert(self.blobs.key_order()[j] == self.blobs.key_order()[i as int]);
                    }
                }
                let ghost before = str_views(out@);
                insert_sorted(&mut out, key.clone());
                proof {
                    assert forall|k: Seq<char>| #[trigger] str_views(out@).contains(k) <==> (exists|j: int| 0 <= j < i + 1
                        && self.blobs.key_order()[j] == k && prefix@.is_prefix_of(k)) by {
                        if k == key@ {
                            assert(self.blobs.key_order()[i as int] == k);
                        }
                        if exists|j: int| 0 <= j < i + 1 && self.blobs.key_order()[j] == k && prefix@.is_prefix_of(k) {
                            let j = choose|j: int| 0 <= j < i + 1 && self.blobs.key_order()[j] == k && prefix@.is_prefix_of(k);
                            if j < i {
                                assert(before.contains(k));
                            }
                        }
                    }
                }
            } else {
                proof {
                    assert forall|k: Seq<char>| #[trigger] str_views(out@).contains(k) <==> (exists|j: int| 0 <= j < i + 1
                        && self.blobs.key_order()[j] == k && prefix@.is_prefix_of(k)) by {
                        if exists|j: int| 0 <= j < i + 1 && self.blobs.key_order()[j] == k && prefix@.is_prefix_of(k) {
                            let j = choose|j: int| 0 <= j < i + 1 && self.blobs.key_order()[j] == k && prefix@.is_prefix_of(k);
                            if j == i {
                                assert(k == key@);
                            }
                            assert(j < i);
                        }
                    }
                }
            }
            i += 1;
        }
        proof {
            assert forall|k: Seq<char>| #[trigger] str_views(out@).contains(k)
                <==> (self@.dom().contains(k) && prefix@.is_prefix_of(k)) by {
                if self.blobs.key_order().contains(k) {
                    let j = choose|j: int| 0 <= j < n && self.blobs.key_order()[j] == k;
                    assert(self.blobs.key_order()[j] == k);
                }
                if exists|j: int| 0 <= j < n && self.blobs.key_order()[j] == k && prefix@.is_prefix_of(k) {
                    let j = choose|j: int| 0 <= j < n && self.blobs.key_order()[j] == k && prefix@.is_prefix_of(k);
                    assert(self.blobs.key_order().contains(k));
                }
            }
        }
        Ok(out)
    }

    fn delete_blob(&mut self, key: &str) -> (r: Result<(), SyncError>)
        ensures
            r is Ok,
            final(self)@ == old(self)@.remove(key@),
    {
        let _ = self.blobs.remove(key);
        assert(self@ =~= old(self)@.remove(key@));
        Ok(())
    }
}

} // verus!
