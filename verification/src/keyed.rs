//! A map keyed by strings, kept as a list of entries with distinct keys.

use vstd::prelude::*;
use crate::json::str_equal;

verus! {

broadcast use vstd::std_specs::vec::group_vec_axioms, vstd::seq::group_seq_axioms;

/// The keys of a list of entries, in order.
pub open spec fn key_seq<V>(es: Seq<(String, V)>) -> Seq<Seq<char>> {
    es.map_values(|e: (String, V)| e.0@)
}

/// The position of an entry with key `k`.
pub open spec fn key_position<V>(es: Seq<(String, V)>, k: Seq<char>) -> int {
    choose|i: int| 0 <= i < es.len() && es[i].0@ == k
}

/// The map denoted by a list of entries with distinct keys.
pub open spec fn entries_map<V>(es: Seq<(String, V)>) -> Map<Seq<char>, V> {
    Map::new(
        |k: Seq<char>| key_seq(es).contains(k),
        |k: Seq<char>| es[key_position(es, k)].1,
    )
}

proof fn lemma_contains<V>(es: Seq<(String, V)>, k: Seq<char>)
    ensures
        key_seq(es).contains(k) <==> exists|i: int| 0 <= i < es.len() && es[i].0@ == k,
{
    if key_seq(es).contains(k) {
        let i = choose|i: int| 0 <= i < key_seq(es).len() && key_seq(es)[i] == k;
        assert(es[i].0@ == k);
    }
    if exists|i: int| 0 <= i < es.len() && es[i].0@ == k {
        let i = key_position(es, k);
        assert(key_seq(es)[i] == k);
    }
}

proof fn lemma_at<V>(es: Seq<(String, V)>, i: int)
    requires
        key_seq(es).no_duplicates(),
        0 <= i < es.len(),
    ensures
        entries_map(es).dom().contains(es[i].0@),
        entries_map(es)[es[i].0@] == es[i].1,
{
    let k = es[i].0@;
    lemma_contains(es, k);
    let c = key_position(es, k);
    assert(key_seq(es)[c] == es[c].0@);
    assert(key_seq(es)[i] == es[i].0@);
    assert(c == i);
    assert(entries_map(es).dom().contains(k));
    assert(entries_map(es)[k] == es[c].1);
}

proof fn lemma_absent<V>(es: Seq<(String, V)>, k: Seq<char>)
    requires
        forall|j: int| 0 <= j < es.len() ==> es[j].0@ != k,
    ensures
        !entries_map(es).dom().contains(k),
{
    lemma_contains(es, k);
}

proof fn lemma_push<V>(es: Seq<(String, V)>, key: String, v: V)
    requires
        key_seq(es).no_duplicates(),
        !entries_map(es).dom().contains(key@),
    ensures
        key_seq(es.push((key, v))).no_duplicates(),
        entries_map(es.push((key, v))) == entries_map(es).insert(key@, v),
{
    let t = es.push((key, v));
    assert(key_seq(t) =~= key_seq(es).push(key@));
    lemma_contains(es, key@);
    assert forall|a: int, b: int| 0 <= a < key_seq(t).len() && 0 <= b < key_seq(t).len() && a != b
        implies key_seq(t)[a] != key_seq(t)[b] by {
        if a == es.len() {
            assert(key_seq(es)[b] == es[b].0@);
        } else if b == es.len() {
            assert(key_seq(es)[a] == es[a].0@);
        }
    }
    let m = entries_map(es).insert(key@, v);
    assert forall|k: Seq<char>| #[trigger] entries_map(t).dom().contains(k) <==> m.dom().contains(k) by {
        lemma_contains(t, k);
        lemma_contains(es, k);
        if exists|i: int| 0 <= i < t.len() && t[i].0@ == k {
            let i = choose|i: int| 0 <= i < t.len() && t[i].0@ == k;
            if i < es.len() {
                assert(es[i].0@ == k);
            }
        }
        if exists|i: int| 0 <= i < es.len() && es[i].0@ == k {
            let i = key_position(es, k);
            assert(t[i].0@ == k);
        }
        if k == key@ {
            assert(t[es.len() as int].0@ == k);
        }
    }
    assert forall|k: Seq<char>| #[trigger] m.dom().contains(k) implies entries_map(t)[k] == m[k] by {
        if k == key@ {
            lemma_at(t, es.len() as int);
        } else {
            lemma_contains(es, k);
            let i = key_position(es, k);
            lemma_at(es, i);
            lemma_at(t, i);
        }
    }
    assert(entries_map(t) =~= m);
}

proof fn lemma_update<V>(es: Seq<(String, V)>, i: int, key: String, v: V)
    requires
        key_seq(es).no_duplicates(),
        0 <= i < es.len(),
        es[i].0@ == key@,
    ensures
        key_seq(es.update(i, (key, v))).no_duplicates(),
        entries_map(es.update(i, (key, v))) == entries_map(es).insert(key@, v),
{
    let t = es.update(i, (key, v));
    assert(key_seq(t) =~= key_seq(es));
    let m = entries_map(es).insert(key@, v);
    assert forall|k: Seq<char>| #[trigger] entries_map(t).dom().contains(k) <==> m.dom().contains(k) by {
        lemma_at(es, i);
    }
    assert forall|k: Seq<char>| #[trigger] m.dom().contains(k) implies entries_map(t)[k] == m[k] by {
        if k == key@ {
            lemma_at(t, i);
        } else {
            lemma_contains(es, k);
            let j = key_position(es, k);
            lemma_at(es, j);
            lemma_at(t, j);
        }
    }
    assert(entries_map(t) =~= m);
}

proof fn lemma_remove<V>(es: Seq<(String, V)>, i: int)
    requires
        key_seq(es).no_duplicates(),
        0 <= i < es.len(),
    ensures
        key_seq(es.remove(i)).no_duplicates(),
        entries_map(es.remove(i)) == entries_map(es).remove(es[i].0@),
{
    let t = es.remove(i);
    let key = es[i].0@;
    assert(key_seq(t) =~= key_seq(es).remove(i));
    assert forall|a: int, b: int| 0 <= a < key_seq(t).len() && 0 <= b < key_seq(t).len() && a != b
        implies key_seq(t)[a] != key_seq(t)[b] by {
        let a2 = if a < i { a } else { a + 1 };
        let b2 = if b < i { b } else { b + 1 };
        assert(key_seq(t)[a] == key_seq(es)[a2]);
        assert(key_seq(t)[b] == key_seq(es)[b2]);
    }
    let m = entries_map(es).remove(key);
    assert forall|k: Seq<char>| #[trigger] entries_map(t).dom().contains(k) <==> m.dom().contains(k) by {
        lemma_contains(t, k);
        lemma_contains(es, k);
        if exists|j: int| 0 <= j < t.len() && t[j].0@ == k {
            let j = choose|j: int| 0 <= j < t.len() && t[j].0@ == k;
            let j2 = if j < i { j } else { j + 1 };
            assert(es[j2].0@ == k);
            assert(key_seq(es)[j2] == k);
            assert(key_seq(es)[i] == key);
            if k == key {
                assert(j2 != i);
            }
        }
        if exists|j: int| 0 <= j < es.len() && es[j].0@ == k {
            let j = key_position(es, k);
            if k != key {
                assert(j != i);
                let j2 = if j < i { j } else { j - 1 };
                assert(t[j2].0@ == k);
            }
        }
    }
    assert forall|k: Seq<char>| #[trigger] m.dom().contains(k) implies entries_map(t)[k] == m[k] by {
        lemma_contains(es, k);
        let j = key_position(es, k);
        assert(j != i);
        let j2 = if j < i { j } else { j - 1 };
        assert(t[j2] == es[j]);
        lemma_at(es, j);
        lemma_at(t, j2);
    }
    assert(entries_map(t) =~= m);
}

proof fn lemma_len<V>(es: Seq<(String, V)>)
    requires
        key_seq(es).no_duplicates(),
    ensures
        entries_map(es).dom().finite(),
        entries_map(es).dom().len() == es.len(),
{
    assert(entries_map(es).dom() =~= key_seq(es).to_set());
    key_seq(es).unique_seq_to_set();
    vstd::seq_lib::seq_to_set_is_finite(key_seq(es));
}

/// A map from strings to values.
#[derive(Debug)]
pub struct StrMap<V> {
    entries: Vec<(String, V)>,
}

impl<V> View for StrMap<V> {
    type V = Map<Seq<char>, V>;

    closed spec fn view(&self) -> Map<Seq<char>, V> {
        entries_map(self.entries@)
    }
}

impl<V> StrMap<V> {
    #[verifier::type_invariant]
    closed spec fn wf(self) -> bool {
        key_seq(self.entries@).no_duplicates()
    }

    /// The keys of the map, each once, in the order of the entries.
    pub closed spec fn key_order(self) -> Seq<Seq<char>> {
        key_seq(self.entries@)
    }

    /// The keys listed by [`StrMap::key_order`] are the keys of the map.
    pub proof fn lemma_key_order_keys(self)
        ensures
            forall|k: Seq<char>| #[trigger] self@.dom().contains(k) <==> self.key_order().contains(k),
    {
    }

    /// An empty map.
    pub fn new() -> (r: StrMap<V>)
        ensures
            r@ == Map::<Seq<char>, V>::empty(),
            r.key_order() == Seq::<Seq<char>>::empty(),
    {
        let r = StrMap { entries: Vec::new() };
        assert(r@ =~= Map::<Seq<char>, V>::empty());
        assert(r.key_order() =~= Seq::<Seq<char>>::empty());
        r
    }

    /// The number of entries.
    pub fn len(&self) -> (r: usize)
        ensures
            self@.dom().finite(),
            r == self@.dom().len(),
            r == self.key_order().len(),
            self.key_order().no_duplicates(),
            forall|k: Seq<char>| #[trigger] self@.dom().contains(k) <==> self.key_order().contains(k),
    {
        proof {
            use_type_invariant(self);
            lemma_len(self.entries@);
        }
        self.entries.len()
    }

    /// Whether the map has no entries.
    pub fn is_empty(&self) -> (r: bool)
        ensures
            r <==> self@.dom().len() == 0,
            self@.dom().finite(),
    {
        self.len() == 0
    }

    fn position(&self, key: &str) -> (r: Option<usize>)
        ensures
            r matches Some(i) ==> i < self.entries@.len() && self.entries@[i as int].0@ == key@,
            r is None ==> !self@.dom().contains(key@),
    {
        let mut i: usize = 0;
        while i < self.entries.len()
            invariant
                i <= self.entries@.len(),
                forall|j: int| 0 <= j < i ==> self.entries@[j].0@ != key@,
            decreases self.entries@.len() - i,
        {
            if str_equal(self.entries[i].0.as_str(), key) {
                return Some(i);
            }
            i += 1;
        }
        proof {
            lemma_absent(self.entries@, key@);
        }
        None
    }

    /// The value under `key`.
    pub fn get(&self, key: &str) -> (r: Option<&V>)
        ensures
            r is Some <==> self@.dom().contains(key@),
            r matches Some(v) ==> *v == self@[key@],
    {
        proof {
            use_type_invariant(self);
        }
        match self.position(key) {
            Some(i) => {
                proof {
                    lemma_at(self.entries@, i as int);
                }
                Some(&self.entries[i].1)
            },
            None => None,
        }
    }

    /// Whether `key` has a value.
    pub fn contains_key(&self, key: &str) -> (r: bool)
        ensures
            r == self@.dom().contains(key@),
    {
        self.get(key).is_some()
    }

    /// Sets the value under `key`, replacing any earlier one. A new key
    /// goes after the existing ones.
    pub fn insert(&mut self, key: String, value: V)
        ensures
            final(self)@ == old(self)@.insert(key@, value),
            old(self)@.dom().contains(key@) ==> final(self).key_order() == old(self).key_order(),
            !old(self)@.dom().contains(key@) ==> final(self).key_order() == old(self).key_order().push(key@),
    {
        proof {
            use_type_invariant(&*self);
        }
        let mut entries = Vec::new();
        std::mem::swap(&mut entries, &mut self.entries);
        let ghost es = entries@;
        let mut i: usize = 0;
        let mut found = false;
        while i < entries.len()
            invariant_except_break
                entries@ == es,
                i <= es.len(),
                forall|j: int| 0 <= j < i ==> es[j].0@ != key@,
                !found,
            ensures
                entries@ == es,
                found ==> i < es.len() && es[i as int].0@ == key@,
                !found ==> forall|j: int| 0 <= j < es.len() ==> es[j].0@ != key@,
            decreases es.len() - i,
        {
            if str_equal(entries[i].0.as_str(), key.as_str()) {
                found = true;
                break;
            }
            i += 1;
        }
        if found {
            proof {
                lemma_update(es, i as int, key, value);
                assert(key_seq(es.update(i as int, (key, value))) =~= key_seq(es));
            }
            entries.set(i, (key, value));
        } else {
            proof {
                lemma_absent(es, key@);
                lemma_push(es, key, value);
                assert(key_seq(es.push((key, value))) =~= key_seq(es).push(key@));
            }
            entries.push((key, value));
        }
        self.entries = entries;
    }

    /// Removes the value under `key`, returning it.
    pub fn remove(&mut self, key: &str) -> (r: Option<V>)
        ensures
            final(self)@ == old(self)@.remove(key@),
            r is Some <==> old(self)@.dom().contains(key@),
            r matches Some(v) ==> v == old(self)@[key@],
            forall|k: Seq<char>| #[trigger] final(self).key_order().contains(k) ==> old(self).key_order().contains(k),
    {
        proof {
            use_type_invariant(&*self);
        }
        match self.position(key) {
            Some(i) => {
                let mut entries = Vec::new();
                std::mem::swap(&mut entries, &mut self.entries);
                let ghost es = entries@;
                proof {
                    lemma_at(es, i as int);
                    lemma_remove(es, i as int);
                    assert forall|k: Seq<char>| #[trigger] key_seq(es.remove(i as int)).contains(k)
                        implies key_seq(es).contains(k) by {
                        lemma_contains(es.remove(i as int), k);
                        lemma_contains(es, k);
                        let j = choose|j: int| 0 <= j < es.len() - 1 && es.remove(i as int)[j].0@ == k;
                        let j2 = if j < i { j } else { j + 1 };
                        assert(es[j2].0@ == k);
                    }
                }
                let (_, v) = entries.remove(i);
                self.entries = entries;
                Some(v)
            },
            None => {
                proof {
                    assert(old(self)@.remove(key@) =~= old(self)@);
                }
                None
            },
        }
    }

    /// The key and value of the `i`-th entry in key order.
    pub fn entry_at(&self, i: usize) -> (r: (&String, &V))
        requires
            i < self.key_order().len(),
        ensures
            r.0@ == self.key_order()[i as int],
            self@.dom().contains(r.0@),
            *r.1 == self@[r.0@],
    {
        proof {
            use_type_invariant(self);
            lemma_at(self.entries@, i as int);
        }
        let e = &self.entries[i];
        (&e.0, &e.1)
    }
}

impl<V: Copy> Clone for StrMap<V> {
    fn clone(&self) -> (r: Self)
        ensures
            r@ == self@,
            r.key_order() == self.key_order(),
    {
        proof {
            use_type_invariant(self);
        }
        let mut entries: Vec<(String, V)> = Vec::new();
        let mut i: usize = 0;
        while i < self.entries.len()
            invariant
                i <= self.entries@.len(),
                entries@.len() == i,
                forall|j: int| 0 <= j < i ==> (#[trigger] entries@[j]).0@ == self.entries@[j].0@
                    && entries@[j].1 == self.entries@[j].1,
            decreases self.entries@.len() - i,
        {
            let e = &self.entries[i];
            entries.push((e.0.clone(), e.1));
            i += 1;
        }
        proof {
            assert(key_seq(entries@) =~= key_seq(self.entries@));
            assert forall|k: Seq<char>| #[trigger] entries_map(entries@).dom().contains(k) implies
                entries_map(entries@)[k] == entries_map(self.entries@)[k] by {
                lemma_contains(entries@, k);
                let j = key_position(entries@, k);
                lemma_at(entries@, j);
                lemma_at(self.entries@, j);
            }
            assert(entries_map(entries@) =~= entries_map(self.entries@));
        }
        StrMap { entries }
    }
}

} // verus!
