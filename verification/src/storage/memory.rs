//! The in-memory storage engine, for tests and ephemeral workspaces: all
//! data is lost when the engine is dropped.

use vstd::prelude::*;
use vstd::string::*;
use crate::branch::{Branch, BranchState, MergeConflict, MergeResult, conflict_ids, conflict_text, id_views, main_branch_id};
use crate::error::StorageError;
use crate::json::str_equal;
use crate::keyed::StrMap;
use crate::namespace::{Namespace, str_views};
use crate::record::{Record, opt_str_view};
use crate::schema::Schema;
use crate::storage::engine::{StorageEngine, TailEntry};
use crate::sync::conflict::same_record;

verus! {

broadcast use vstd::std_specs::vec::group_vec_axioms, vstd::seq::group_seq_axioms;

/// A write in the log: its position, branch and record ID.
#[derive(Debug)]
pub struct LogEntry {
    pub seq: u64,
    pub branch: String,
    pub record_id: String,
}

/// Whether two namespaces have the same content.
pub open spec fn same_namespace(a: Namespace, b: Namespace) -> bool {
    &&& a.id@ == b.id@
    &&& a.name@ == b.name@
    &&& a.owner@ == b.owner@
    &&& opt_str_view(a.description) == opt_str_view(b.description)
    &&& a.created_at_ms == b.created_at_ms
    &&& a.encrypted == b.encrypted
    &&& str_views(a.schemas@) == str_views(b.schemas@)
}

/// Whether two schemas have the same content.
pub open spec fn same_schema(a: Schema, b: Schema) -> bool {
    &&& a.id@ == b.id@
    &&& a.version@ == b.version@
    &&& a.namespace@ == b.namespace@
    &&& a.name@ == b.name@
    &&& a.fields@ == b.fields@
    &&& a.registered_at_ms == b.registered_at_ms
}

/// Whether two branches have the same content.
pub open spec fn same_branch(a: Branch, b: Branch) -> bool {
    &&& a.id@ == b.id@
    &&& a.namespace@ == b.namespace@
    &&& opt_str_view(a.parent) == opt_str_view(b.parent)
    &&& a.state == b.state
    &&& a.created_at_ms == b.created_at_ms
    &&& a.label@ == b.label@
    &&& a.changes@ == b.changes@
}

/// The in-memory storage engine.
#[derive(Debug)]
pub struct MemoryEngine {
    namespaces: StrMap<Namespace>,
    schemas: StrMap<Schema>,
    branches: StrMap<Branch>,
    /// Records by branch, then by record ID.
    records: StrMap<StrMap<Record>>,
    /// Deleted record IDs by branch.
    tombstones: StrMap<Vec<String>>,
    /// The write log, in write order.
    write_log: Vec<LogEntry>,
    next_seq: u64,
}

/// The records of branch `b` (none when nothing was stored there).
pub open spec fn recs_of(records: Map<Seq<char>, Map<Seq<char>, Record>>, b: Seq<char>) -> Map<Seq<char>, Record> {
    if records.dom().contains(b) {
        records[b]
    } else {
        Map::empty()
    }
}

/// The deleted record IDs of branch `b`.
pub open spec fn tombs_of(tombs: Map<Seq<char>, Seq<Seq<char>>>, b: Seq<char>) -> Seq<Seq<char>> {
    if tombs.dom().contains(b) {
        tombs[b]
    } else {
        Seq::empty()
    }
}

/// Whether every schema of namespace `ns` in `m` has its ID in `v`.
pub open spec fn lists_all_schemas(v: Seq<Schema>, m: Map<Seq<char>, Schema>, ns: Seq<char>) -> bool {
    forall|k: Seq<char>| #[trigger] m.dom().contains(k) && m[k].namespace@ == ns
        ==> exists|i: int| 0 <= i < v.len() && v[i].id@ == k
}

/// Whether `b` is `a` with only its changes replaced.
pub open spec fn same_but_changes(a: Branch, b: Branch) -> bool {
    &&& a.id == b.id
    &&& a.namespace == b.namespace
    &&& a.parent == b.parent
    &&& a.state == b.state
    &&& a.created_at_ms == b.created_at_ms
    &&& a.label == b.label
}

/// Whether `b` is a fresh main branch of namespace `ns`.
pub open spec fn fresh_main(b: Branch, ns: Seq<char>) -> bool {
    &&& b.id@ == main_branch_id(ns)
    &&& b.namespace@ == ns
    &&& b.parent is None
    &&& b.state == BranchState::Active
    &&& b.label@ == "main"@
    &&& b.changes@ == Map::<Seq<char>, bool>::empty()
}

/// Whether every stored record is stored under its own ID.
pub open spec fn ids_match(records: Map<Seq<char>, Map<Seq<char>, Record>>) -> bool {
    forall|b: Seq<char>, k: Seq<char>| #[trigger] recs_of(records, b).dom().contains(k)
        ==> recs_of(records, b)[k].record_id@ == k
}

/// The record maps of nested string maps.
pub open spec fn nested_views(m: Map<Seq<char>, StrMap<Record>>) -> Map<Seq<char>, Map<Seq<char>, Record>> {
    m.map_values(|x: StrMap<Record>| x@)
}

/// Whether record `r` is in scope for an optional schema and namespace.
pub open spec fn in_scope(r: Record, schema: Option<Seq<char>>, namespace: Option<Seq<char>>) -> bool {
    &&& (schema matches Some(s) ==> r.schema@ == s)
    &&& (namespace matches Some(n) ==> r.namespace@ == n)
}

/// The in-scope record `rid` as seen from branch `bid`: walking up the
/// ancestry (at most `fuel` branches), a deletion hides the record, and
/// the first in-scope version stored on the way is the one seen.
#[verifier::opaque]
pub open spec fn visible(
    records: Map<Seq<char>, Map<Seq<char>, Record>>,
    tombs: Map<Seq<char>, Seq<Seq<char>>>,
    branches: Map<Seq<char>, Branch>,
    rid: Seq<char>,
    bid: Seq<char>,
    fuel: nat,
    schema: Option<Seq<char>>,
    namespace: Option<Seq<char>>,
) -> Option<Record>
    decreases fuel,
{
    if fuel == 0 {
        None
    } else if tombs_of(tombs, bid).contains(rid) {
        None
    } else if recs_of(records, bid).dom().contains(rid) && in_scope(recs_of(records, bid)[rid], schema, namespace) {
        Some(recs_of(records, bid)[rid])
    } else if branches.dom().contains(bid) && branches[bid].parent is Some {
        visible(records, tombs, branches, rid, branches[bid].parent->0@, (fuel - 1) as nat, schema, namespace)
    } else {
        None
    }
}

/// One step of the visibility walk.
pub proof fn lemma_visible_unfold(
    records: Map<Seq<char>, Map<Seq<char>, Record>>,
    tombs: Map<Seq<char>, Seq<Seq<char>>>,
    branches: Map<Seq<char>, Branch>,
    rid: Seq<char>,
    bid: Seq<char>,
    fuel: nat,
    schema: Option<Seq<char>>,
    namespace: Option<Seq<char>>,
)
    ensures
        visible(records, tombs, branches, rid, bid, fuel, schema, namespace) == (if fuel == 0 {
            None
        } else if tombs_of(tombs, bid).contains(rid) {
            None
        } else if recs_of(records, bid).dom().contains(rid) && in_scope(recs_of(records, bid)[rid], schema, namespace) {
            Some(recs_of(records, bid)[rid])
        } else if branches.dom().contains(bid) && branches[bid].parent is Some {
            visible(records, tombs, branches, rid, branches[bid].parent->0@, (fuel - 1) as nat, schema, namespace)
        } else {
            None
        }),
{
    reveal(visible);
}

/// A record written to a branch is what the branch reads back for its ID
/// (whatever the branch's ancestry), unless that ID was deleted on the
/// branch earlier: a deletion keeps hiding the ID there.
pub proof fn read_your_write(
    records: Map<Seq<char>, Map<Seq<char>, Record>>,
    tombs: Map<Seq<char>, Seq<Seq<char>>>,
    branches: Map<Seq<char>, Branch>,
    bid: Seq<char>,
    rec: Record,
    fuel: nat,
)
    requires
        fuel > 0,
        !tombs_of(tombs, bid).contains(rec.record_id@),
    ensures
        visible(records.insert(bid, recs_of(records, bid).insert(rec.record_id@, rec)), tombs, branches,
            rec.record_id@, bid, fuel, None, None) == Some(rec),
{
    let after = records.insert(bid, recs_of(records, bid).insert(rec.record_id@, rec));
    lemma_visible_unfold(after, tombs, branches, rec.record_id@, bid, fuel, None, None);
    assert(recs_of(after, bid) == recs_of(records, bid).insert(rec.record_id@, rec));
}

/// A record deleted on a branch is no longer seen from that branch, even
/// where an ancestor of the branch holds a version of it.
pub proof fn deleted_stays_hidden(
    records: Map<Seq<char>, Map<Seq<char>, Record>>,
    tombs: Map<Seq<char>, Seq<Seq<char>>>,
    branches: Map<Seq<char>, Branch>,
    bid: Seq<char>,
    rid: Seq<char>,
    fuel: nat,
    schema: Option<Seq<char>>,
    namespace: Option<Seq<char>>,
)
    ensures
        visible(records, tombs.insert(bid, tombs_of(tombs, bid).push(rid)), branches, rid, bid, fuel, schema,
            namespace) is None,
{
    let after = tombs.insert(bid, tombs_of(tombs, bid).push(rid));
    lemma_visible_unfold(records, after, branches, rid, bid, fuel, schema, namespace);
    assert(tombs_of(after, bid) == tombs_of(tombs, bid).push(rid));
    assert(tombs_of(after, bid)[tombs_of(tombs, bid).len() as int] == rid);
}

/// Whether the ancestry walk from branch `a` reaches branch `bid` within
/// `fuel` branches.
pub open spec fn walk_reaches(branches: Map<Seq<char>, Branch>, a: Seq<char>, bid: Seq<char>, fuel: nat) -> bool
    decreases fuel,
{
    if fuel == 0 {
        false
    } else if a == bid {
        true
    } else if branches.dom().contains(a) && branches[a].parent is Some {
        walk_reaches(branches, branches[a].parent->0@, bid, (fuel - 1) as nat)
    } else {
        false
    }
}

/// A change confined to one branch is not seen elsewhere: when only the
/// records and deletions of branch `bid` change (as a put or a delete on
/// `bid` does) and the branches keep their parents, every read from a
/// branch whose ancestry does not reach `bid` (such as an ancestor of
/// `bid`) gives what it gave before.
pub proof fn change_stays_on_branch(
    records: Map<Seq<char>, Map<Seq<char>, Record>>,
    tombs: Map<Seq<char>, Seq<Seq<char>>>,
    branches: Map<Seq<char>, Branch>,
    records2: Map<Seq<char>, Map<Seq<char>, Record>>,
    tombs2: Map<Seq<char>, Seq<Seq<char>>>,
    branches2: Map<Seq<char>, Branch>,
    bid: Seq<char>,
    a: Seq<char>,
    rid: Seq<char>,
    fuel: nat,
    schema: Option<Seq<char>>,
    namespace: Option<Seq<char>>,
)
    requires
        forall|x: Seq<char>| x != bid ==> #[trigger] recs_of(records2, x) == recs_of(records, x),
        forall|x: Seq<char>| x != bid ==> #[trigger] tombs_of(tombs2, x) == tombs_of(tombs, x),
        branches2.dom() == branches.dom(),
        forall|x: Seq<char>| #[trigger] branches.dom().contains(x) ==> branches2[x].parent == branches[x].parent,
        !walk_reaches(branches, a, bid, fuel),
    ensures
        visible(records2, tombs2, branches2, rid, a, fuel, schema, namespace) == visible(records, tombs, branches, rid, a,
            fuel, schema, namespace),
    decreases fuel,
{
    lemma_visible_unfold(records, tombs, branches, rid, a, fuel, schema, namespace);
    lemma_visible_unfold(records2, tombs2, branches2, rid, a, fuel, schema, namespace);
    if fuel > 0 {
        assert(a != bid);
        assert(recs_of(records2, a) == recs_of(records, a));
        assert(tombs_of(tombs2, a) == tombs_of(tombs, a));
        if branches.dom().contains(a) && branches[a].parent is Some {
            change_stays_on_branch(records, tombs, branches, records2, tombs2, branches2, bid,
                branches[a].parent->0@, rid, (fuel - 1) as nat, schema, namespace);
        }
    }
}

/// Whether `all` lists, newest first and each once, the in-scope records
/// visible from a branch.
pub open spec fn lists_visible(
    all: Seq<Record>,
    records: Map<Seq<char>, Map<Seq<char>, Record>>,
    tombs: Map<Seq<char>, Seq<Seq<char>>>,
    branches: Map<Seq<char>, Branch>,
    bid: Seq<char>,
    schema: Option<Seq<char>>,
    namespace: Option<Seq<char>>,
) -> bool {
    let fuel = (branches.dom().len() + 1) as nat;
    &&& forall|i: int| 0 <= i < all.len() ==> (visible(records, tombs, branches, (#[trigger] all[i]).record_id@,
        bid, fuel, schema, namespace) matches Some(x) && same_record(all[i], x))
    &&& forall|rid: Seq<char>| #[trigger] visible(records, tombs, branches, rid, bid, fuel, schema, namespace) is Some
        ==> exists|i: int| 0 <= i < all.len() && all[i].record_id@ == rid
    &&& forall|i: int, j: int| 0 <= i < j < all.len() ==> (#[trigger] all[i]).record_id@ != (#[trigger] all[j]).record_id@
    &&& forall|i: int, j: int| 0 <= i < j < all.len() ==> (#[trigger] all[i]).created_at_ms >= (#[trigger] all[j]).created_at_ms
}

/// The window of `all` after skipping `offset` records, at most `limit` long.
pub open spec fn window(all: Seq<Record>, limit: usize, offset: usize) -> Seq<Record> {
    let rest = if offset >= all.len() { Seq::empty() } else { all.skip(offset as int) };
    if limit >= rest.len() { rest } else { rest.take(limit as int) }
}

impl MemoryEngine {
    #[verifier::type_invariant]
    closed spec fn wf(self) -> bool {
        &&& ids_match(self.records())
        &&& forall|k: Seq<char>| #[trigger] self.namespaces@.dom().contains(k) ==> self.namespaces@[k].id@ == k
        &&& forall|k: Seq<char>| #[trigger] self.schemas@.dom().contains(k) ==> self.schemas@[k].id@ == k
        &&& forall|k: Seq<char>| #[trigger] self.branches@.dom().contains(k) ==> self.branches@[k].id@ == k
        &&& forall|i: int, j: int| 0 <= i < j < self.write_log@.len()
            ==> (#[trigger] self.write_log@[i]).seq < (#[trigger] self.write_log@[j]).seq
        &&& forall|i: int| 0 <= i < self.write_log@.len() ==> (#[trigger] self.write_log@[i]).seq <= self.next_seq
    }

    /// How many branches the ancestry walk may visit.
    #[verifier::inline]
    pub open spec fn walk_fuel(&self) -> nat {
        (self.branches().dom().len() + 1) as nat
    }

    /// The in-scope record `rid` as seen from branch `bid` (see [`visible`]).
    #[verifier::inline]
    pub open spec fn visible_from(&self, rid: Seq<char>, bid: Seq<char>, schema: Option<Seq<char>>, namespace: Option<Seq<char>>) -> Option<Record> {
        visible(self.records(), self.tombstones(), self.branches(), rid, bid, self.walk_fuel(), schema, namespace)
    }

    /// The namespaces by ID.
    pub closed spec fn namespaces(&self) -> Map<Seq<char>, Namespace> {
        self.namespaces@
    }

    /// The schemas by ID.
    pub closed spec fn schemas(&self) -> Map<Seq<char>, Schema> {
        self.schemas@
    }

    /// The branches by ID.
    pub closed spec fn branches(&self) -> Map<Seq<char>, Branch> {
        self.branches@
    }

    /// The records stored on each branch, by branch ID then record ID.
    pub closed spec fn records(&self) -> Map<Seq<char>, Map<Seq<char>, Record>> {
        nested_views(self.records@)
    }

    /// The deleted record IDs of each branch, in deletion order.
    pub closed spec fn tombstones(&self) -> Map<Seq<char>, Seq<Seq<char>>> {
        self.tombstones@.map_values(|v: Vec<String>| str_views(v@))
    }

    /// The write log: position, branch and record ID of each write.
    pub closed spec fn log(&self) -> Seq<(u64, Seq<char>, Seq<char>)> {
        self.write_log@.map_values(|e: LogEntry| (e.seq, e.branch@, e.record_id@))
    }

    /// The position of the last write.
    pub closed spec fn last_seq(&self) -> u64 {
        self.next_seq
    }

    /// An empty engine.
    pub fn new() -> (r: MemoryEngine)
        ensures
            r.namespaces() == Map::<Seq<char>, Namespace>::empty(),
            r.schemas() == Map::<Seq<char>, Schema>::empty(),
            r.branches() == Map::<Seq<char>, Branch>::empty(),
            r.records() == Map::<Seq<char>, Map<Seq<char>, Record>>::empty(),
            r.tombstones() == Map::<Seq<char>, Seq<Seq<char>>>::empty(),
            r.log() == Seq::<(u64, Seq<char>, Seq<char>)>::empty(),
            r.last_seq() == 0,
    {
        let r = MemoryEngine {
            namespaces: StrMap::new(),
            schemas: StrMap::new(),
            branches: StrMap::new(),
            records: StrMap::new(),
            tombstones: StrMap::new(),
            write_log: Vec::new(),
            next_seq: 0,
        };
        assert(r.records() =~= Map::<Seq<char>, Map<Seq<char>, Record>>::empty());
        assert(r.tombstones() =~= Map::<Seq<char>, Seq<Seq<char>>>::empty());
        assert(r.log() =~= Seq::<(u64, Seq<char>, Seq<char>)>::empty());
        r
    }
}

/// The text of an optional string slice.
pub open spec fn opt_text(o: Option<&str>) -> Option<Seq<char>> {
    match o {
        Some(s) => Some(s@),
        None => None,
    }
}

/// Whether `s` occurs in a list of strings.
pub(crate) fn contains_str(v: &Vec<String>, s: &str) -> (r: bool)
    ensures
        r == str_views(v@).contains(s@),
{
    let mut i: usize = 0;
    while i < v.len()
        invariant
            i <= v@.len(),
            forall|j: int| 0 <= j < i ==> v@[j]@ != s@,
        decreases v@.len() - i,
    {
        if str_equal(v[i].as_str(), s) {
            proof {
                assert(str_views(v@)[i as int] == s@);
            }
            return true;
        }
        i += 1;
    }
    proof {
        if str_views(v@).contains(s@) {
            let j = choose|j: int| 0 <= j < str_views(v@).len() && str_views(v@)[j] == s@;
            assert(v@[j]@ == s@);
        }
    }
    false
}

/// Whether a scope filter admits `r`.
pub(crate) fn record_in_scope(r: &Record, schema: Option<&str>, namespace: Option<&str>) -> (b: bool)
    ensures
        b == in_scope(*r, opt_text(schema), opt_text(namespace)),
{
    let schema_ok = match schema {
        Some(s) => str_equal(r.schema.as_str(), s),
        None => true,
    };
    let namespace_ok = match namespace {
        Some(n) => str_equal(r.namespace.as_str(), n),
        None => true,
    };
    schema_ok && namespace_ok
}

/// Whether position `j` occurs in `s`.
pub open spec fn occurs(s: Seq<usize>, j: int) -> bool {
    exists|i: int| 0 <= i < s.len() && s[i] == j
}

/// One step of the insertion sort keeps its invariants.
proof fn lemma_order_step(times: Seq<u64>, before: Seq<usize>, nv: Seq<usize>, pos: int, k: usize)
    requires
        0 <= k < times.len(),
        before.len() == k,
        0 <= pos <= before.len(),
        nv == before.insert(pos, k),
        forall|i: int| 0 <= i < before.len() ==> #[trigger] before[i] < k,
        forall|j: int| 0 <= j < k ==> #[trigger] occurs(before, j),
        forall|i: int, j: int| 0 <= i < j < before.len() ==> #[trigger] before[i] != #[trigger] before[j],
        forall|i: int, j: int| 0 <= i < j < before.len() ==> times[#[trigger] before[i] as int] >= times[#[trigger] before[j] as int],
        forall|i: int| 0 <= i < pos ==> times[#[trigger] before[i] as int] >= times[k as int],
        pos < before.len() ==> times[before[pos] as int] < times[k as int],
    ensures
        forall|i: int| 0 <= i < nv.len() ==> #[trigger] nv[i] < k + 1,
        forall|j: int| 0 <= j < k + 1 ==> #[trigger] occurs(nv, j),
        forall|i: int, j: int| 0 <= i < j < nv.len() ==> #[trigger] nv[i] != #[trigger] nv[j],
        forall|i: int, j: int| 0 <= i < j < nv.len() ==> times[#[trigger] nv[i] as int] >= times[#[trigger] nv[j] as int],
{
    assert forall|i: int| 0 <= i < nv.len() implies #[trigger] nv[i] < k + 1 by {
        if i < pos {
            assert(nv[i] == before[i]);
        } else if i > pos {
            assert(nv[i] == before[i - 1]);
        }
    }
    assert forall|j: int| 0 <= j < k + 1 implies #[trigger] occurs(nv, j) by {
        if j == k {
            assert(nv[pos] == k);
        } else {
            assert(occurs(before, j));
            let i = choose|i: int| 0 <= i < before.len() && before[i] == j;
            if i < pos {
                assert(nv[i] == j);
            } else {
                assert(nv[i + 1] == j);
            }
        }
    }
    assert forall|a: int, b: int| 0 <= a < b < nv.len() implies #[trigger] nv[a] != #[trigger] nv[b] by {
        if a == pos {
            let b2 = b - 1;
            assert(nv[b] == before[b2]);
        } else if b == pos {
            assert(nv[a] == before[a]);
        } else {
            let a2 = if a < pos { a } else { a - 1 };
            let b2 = if b < pos { b } else { b - 1 };
            assert(nv[a] == before[a2]);
            assert(nv[b] == before[b2]);
        }
    }
    assert forall|a: int, b: int| 0 <= a < b < nv.len() implies times[#[trigger] nv[a] as int] >= times[#[trigger] nv[b] as int] by {
        if b == pos {
            assert(nv[a] == before[a]);
        } else if a == pos {
            assert(nv[b] == before[b - 1]);
            if b - 1 > pos {
                assert(times[before[pos] as int] >= times[before[b - 1] as int]);
            }
        } else {
            let a2 = if a < pos { a } else { a - 1 };
            let b2 = if b < pos { b } else { b - 1 };
            assert(nv[a] == before[a2]);
            assert(nv[b] == before[b2]);
        }
    }
}

/// The positions of `times` ordered newest first (largest time first),
/// positions with equal times in their original order.
pub(crate) fn newest_first_order(times: &Vec<u64>) -> (r: Vec<usize>)
    ensures
        r@.len() == times@.len(),
        forall|i: int| 0 <= i < r@.len() ==> #[trigger] r@[i] < times@.len(),
        forall|j: int| 0 <= j < times@.len() ==> #[trigger] occurs(r@, j),
        forall|i: int, j: int| 0 <= i < j < r@.len() ==> #[trigger] r@[i] != #[trigger] r@[j],
        forall|i: int, j: int| 0 <= i < j < r@.len() ==> times@[#[trigger] r@[i] as int] >= times@[#[trigger] r@[j] as int],
{
    let mut out: Vec<usize> = Vec::new();
    let mut k: usize = 0;
    while k < times.len()
        invariant
            k <= times@.len(),
            out@.len() == k,
            forall|i: int| 0 <= i < out@.len() ==> #[trigger] out@[i] < k,
            forall|j: int| 0 <= j < k ==> #[trigger] occurs(out@, j),
            forall|i: int, j: int| 0 <= i < j < out@.len() ==> #[trigger] out@[i] != #[trigger] out@[j],
            forall|i: int, j: int| 0 <= i < j < out@.len() ==> times@[#[trigger] out@[i] as int] >= times@[#[trigger] out@[j] as int],
        decreases times@.len() - k,
    {
        let t = times[k];
        let mut pos: usize = 0;
        while pos < out.len()
            invariant
                pos <= out@.len(),
                out@.len() == k,
                k < times@.len(),
                t == times@[k as int],
                forall|i: int| 0 <= i < out@.len() ==> #[trigger] out@[i] < k,
                forall|i: int| 0 <= i < pos ==> times@[#[trigger] out@[i] as int] >= t,
            ensures
                pos <= out@.len(),
                forall|i: int| 0 <= i < pos ==> times@[#[trigger] out@[i] as int] >= t,
                pos < out@.len() ==> times@[out@[pos as int] as int] < t,
            decreases out@.len() - pos,
        {
            if times[out[pos]] < t {
                break;
            }
            pos += 1;
        }
        let ghost before = out@;
        out.insert(pos, k);
        proof {
            lemma_order_step(times@, before, out@, pos as int, k);
        }
        k += 1;
    }
    out
}

/// Whether a record with ID `rid` occurs in `s`.
pub open spec fn has_id(s: Seq<Record>, rid: Seq<char>) -> bool {
    exists|t: int| 0 <= t < s.len() && s[t].record_id@ == rid
}

/// Whether a record with ID `rid` occurs in `v`.
fn contains_id(v: &Vec<Record>, rid: &str) -> (r: bool)
    ensures
        r == has_id(v@, rid@),
{
    let mut i: usize = 0;
    while i < v.len()
        invariant
            i <= v@.len(),
            forall|j: int| 0 <= j < i ==> v@[j].record_id@ != rid@,
        decreases v@.len() - i,
    {
        if str_equal(v[i].record_id.as_str(), rid) {
            return true;
        }
        i += 1;
    }
    false
}

impl MemoryEngine {
    /// Whether `rid` is deleted on branch `bid`.
    fn is_tombstoned(&self, bid: &str, rid: &str) -> (r: bool)
        ensures
            r == tombs_of(self.tombstones(), bid@).contains(rid@),
    {
        match self.tombstones.get(bid) {
            Some(v) => contains_str(v, rid),
            None => false,
        }
    }

    /// The record `rid` stored on branch `bid` itself.
    fn stored(&self, bid: &str, rid: &str) -> (r: Option<&Record>)
        ensures
            r is Some <==> recs_of(self.records(), bid@).dom().contains(rid@),
            r matches Some(x) ==> *x == recs_of(self.records(), bid@)[rid@],
    {
        match self.records.get(bid) {
            Some(m) => m.get(rid),
            None => None,
        }
    }

    /// The record `rid` as seen from branch `bid`: the first stored version
    /// up the ancestry, unless a deletion on the way hides it.
    fn find_record_in_ancestry(&self, rid: &str, bid: &str) -> (r: Option<Record>)
        ensures
            r is Some <==> self.visible_from(rid@, bid@, None, None) is Some,
            r matches Some(x) ==> same_record(x, self.visible_from(rid@, bid@, None, None)->0),
    {
        let n = self.branches.len();
        let mut current: String = bid.to_string();
        let mut fuel: usize = n;
        loop
            invariant
                fuel <= n,
                n == self.branches().dom().len(),
                self.visible_from(rid@, bid@, None, None) == visible(self.records(), self.tombstones(),
                    self.branches(), rid@, current@, (fuel + 1) as nat, None, None),
            decreases fuel,
        {
            proof {
                lemma_visible_unfold(self.records(), self.tombstones(), self.branches(), rid@, current@,
                    (fuel + 1) as nat, None, None);
            }
            if self.is_tombstoned(current.as_str(), rid) {
                return None;
            }
            match self.stored(current.as_str(), rid) {
                Some(rec) => {
                    return Some(rec.clone());
                },
                None => {},
            }
            match self.branches.get(current.as_str()) {
                Some(b) => match &b.parent {
                    Some(p) => {
                        if fuel == 0 {
                            proof {
                                lemma_visible_unfold(self.records(), self.tombstones(), self.branches(), rid@, p@, 0nat, None, None);
                            }
                            return None;
                        }
                        fuel -= 1;
                        current = p.clone();
                    },
                    None => {
                        return None;
                    },
                },
                None => {
                    return None;
                },
            }
        }
    }

    /// Appends the deleted record IDs of branch `bid` to `dead`.
    fn absorb_tombstones(&self, bid: &str, dead: &mut Vec<String>)
        ensures
            str_views(final(dead)@) == str_views(old(dead)@) + tombs_of(self.tombstones(), bid@),
    {
        match self.tombstones.get(bid) {
            Some(ts) => {
                let ghost start = str_views(dead@);
                let mut t: usize = 0;
                while t < ts.len()
                    invariant
                        t <= ts@.len(),
                        str_views(dead@) == start + str_views(ts@).take(t as int),
                    decreases ts@.len() - t,
                {
                    let ghost before = dead@;
                    dead.push(ts[t].clone());
                    assert(str_views(dead@) =~= str_views(before).push(ts@[t as int]@));
                    assert(str_views(ts@).take(t + 1) =~= str_views(ts@).take(t as int).push(ts@[t as int]@));
                    t += 1;
                }
                assert(str_views(ts@).take(ts@.len() as int) =~= str_views(ts@));
                assert(tombs_of(self.tombstones(), bid@) == str_views(ts@));
            },
            None => {
                assert(str_views(dead@) + tombs_of(self.tombstones(), bid@) =~= str_views(dead@));
            },
        }
    }

    /// Appends the in-scope records stored on branch `bid` that are neither
    /// in `out` already nor in `dead`.
    #[verifier::rlimit(40)]
    fn scan_branch(&self, bid: &str, dead: &Vec<String>, out: &mut Vec<Record>, schema: Option<&str>, namespace: Option<&str>)
        requires
            forall|a: int, c: int| 0 <= a < c < old(out)@.len() ==> (#[trigger] old(out)@[a]).record_id@ != (#[trigger] old(out)@[c]).record_id@,
        ensures
            final(out)@.len() >= old(out)@.len(),
            final(out)@.subrange(0, old(out)@.len() as int) == old(out)@,
            forall|t: int| old(out)@.len() <= t < final(out)@.len() ==> {
                let k = (#[trigger] final(out)@[t]).record_id@;
                &&& recs_of(self.records(), bid@).dom().contains(k)
                &&& same_record(final(out)@[t], recs_of(self.records(), bid@)[k])
                &&& !str_views(dead@).contains(k)
                &&& in_scope(recs_of(self.records(), bid@)[k], opt_text(schema), opt_text(namespace))
                &&& !has_id(old(out)@, k)
            },
            forall|a: int, c: int| 0 <= a < c < final(out)@.len() ==> (#[trigger] final(out)@[a]).record_id@ != (#[trigger] final(out)@[c]).record_id@,
            forall|k: Seq<char>| #[trigger] recs_of(self.records(), bid@).dom().contains(k) && !str_views(dead@).contains(k)
                && in_scope(recs_of(self.records(), bid@)[k], opt_text(schema), opt_text(namespace)) ==> has_id(final(out)@, k),
    {
        proof {
            use_type_invariant(self);
        }
        let ghost start = out@;
        let ghost sc = opt_text(schema);
        let ghost ns = opt_text(namespace);
        match self.records.get(bid) {
            Some(m) => {
                let len = m.len();
                let mut i: usize = 0;
                proof {
                    assert(recs_of(self.records(), bid@) == m@);
                    assert forall|k: Seq<char>| #[trigger] m@.dom().contains(k) implies m@[k].record_id@ == k by {
                        assert(recs_of(self.records(), bid@).dom().contains(k));
                    }
                }
                while i < len
                    invariant
                        i <= len,
                        len == m.key_order().len(),
                        forall|k: Seq<char>| #[trigger] m@.dom().contains(k) <==> m.key_order().contains(k),
                        recs_of(self.records(), bid@) == m@,
                        forall|k: Seq<char>| #[trigger] m@.dom().contains(k) ==> m@[k].record_id@ == k,
                        sc == opt_text(schema),
                        ns == opt_text(namespace),
                        out@.len() >= start.len(),
                        out@.subrange(0, start.len() as int) == start,
                        forall|t: int| start.len() <= t < out@.len() ==> {
                            let k = (#[trigger] out@[t]).record_id@;
                            &&& m@.dom().contains(k)
                            &&& same_record(out@[t], m@[k])
                            &&& !str_views(dead@).contains(k)
                            &&& in_scope(m@[k], sc, ns)
                            &&& !has_id(start, k)
                        },
                        forall|a: int, c: int| 0 <= a < c < out@.len() ==> (#[trigger] out@[a]).record_id@ != (#[trigger] out@[c]).record_id@,
                        forall|j: int| 0 <= j < i ==> !str_views(dead@).contains(#[trigger] m.key_order()[j])
                            && in_scope(m@[m.key_order()[j]], sc, ns) ==> has_id(out@, m.key_order()[j]),
                    decreases len - i,
                {
                    let (rid, rec) = m.entry_at(i);
                    let seen = contains_id(out, rid.as_str());
                    let gone = contains_str(dead, rid.as_str());
                    let fits = record_in_scope(rec, schema, namespace);
                    if !seen && !gone && fits {
                        let ghost before = out@;
                        out.push(rec.clone());
                        proof {
                            assert(out@[before.len() as int].record_id@ == rid@);
                            assert(out@.subrange(0, start.len() as int) =~= before.subrange(0, start.len() as int));
                            assert forall|rid2: Seq<char>| has_id(before, rid2) implies has_id(out@, rid2) by {
                                let t = choose|t: int| 0 <= t < before.len() && before[t].record_id@ == rid2;
                                assert(out@[t] == before[t]);
                            }
                            assert(!has_id(start, rid@)) by {
                                if has_id(start, rid@) {
                                    let t = choose|t: int| 0 <= t < start.len() && start[t].record_id@ == rid@;
                                    assert(before[t] == start[t]);
                                }
                            }
                        }
                    }
                    i += 1;
                }
                proof {
                    assert forall|k: Seq<char>| #[trigger] recs_of(self.records(), bid@).dom().contains(k) && !str_views(dead@).contains(k)
                        && in_scope(recs_of(self.records(), bid@)[k], sc, ns) implies has_id(out@, k) by {
                        assert(m.key_order().contains(k));
                        let j = choose|j: int| 0 <= j < m.key_order().len() && m.key_order()[j] == k;
                        assert(!str_views(dead@).contains(m.key_order()[j]));
                    }
                }
            },
            None => {
                assert(out@.subrange(0, start.len() as int) =~= start);
            },
        }
    }

    /// The in-scope records visible from branch `bid`, each once.
    fn collect_visible(&self, bid: &str, schema: Option<&str>, namespace: Option<&str>) -> (out: Vec<Record>)
        ensures
            forall|i: int| 0 <= i < out@.len() ==> (self.visible_from((#[trigger] out@[i]).record_id@, bid@,
                opt_text(schema), opt_text(namespace)) matches Some(x) && same_record(out@[i], x)),
            forall|rid: Seq<char>| #[trigger] self.visible_from(rid, bid@, opt_text(schema), opt_text(namespace)) is Some
                ==> has_id(out@, rid),
            forall|i: int, j: int| 0 <= i < j < out@.len() ==> (#[trigger] out@[i]).record_id@ != (#[trigger] out@[j]).record_id@,
    {
        let ghost sc = opt_text(schema);
        let ghost ns = opt_text(namespace);
        let n = self.branches.len();
        let mut out: Vec<Record> = Vec::new();
        let mut dead: Vec<String> = Vec::new();
        let mut current: String = bid.to_string();
        let mut fuel: usize = n;
        loop
            invariant_except_break
                forall|rid: Seq<char>| !has_id(out@, rid) ==> #[trigger] self.visible_from(rid, bid@, sc, ns)
                    == (if str_views(dead@).contains(rid) { None } else { visible(self.records(), self.tombstones(),
                        self.branches(), rid, current@, (fuel + 1) as nat, sc, ns) }),
            invariant
                fuel <= n,
                n == self.branches().dom().len(),
                sc == opt_text(schema),
                ns == opt_text(namespace),
                forall|i: int| 0 <= i < out@.len() ==> (self.visible_from((#[trigger] out@[i]).record_id@, bid@, sc, ns)
                    matches Some(x) && same_record(out@[i], x)),
                forall|i: int, j: int| 0 <= i < j < out@.len() ==> (#[trigger] out@[i]).record_id@ != (#[trigger] out@[j]).record_id@,
            ensures
                forall|i: int| 0 <= i < out@.len() ==> (self.visible_from((#[trigger] out@[i]).record_id@, bid@, sc, ns)
                    matches Some(x) && same_record(out@[i], x)),
                forall|i: int, j: int| 0 <= i < j < out@.len() ==> (#[trigger] out@[i]).record_id@ != (#[trigger] out@[j]).record_id@,
                forall|rid: Seq<char>| !has_id(out@, rid) ==> #[trigger] self.visible_from(rid, bid@, sc, ns) is None,
            decreases fuel,
        {
            let ghost old_out = out@;
            let ghost old_dead = str_views(dead@);
            self.absorb_tombstones(current.as_str(), &mut dead);
            self.scan_branch(current.as_str(), &dead, &mut out, schema, namespace);
            proof {
                self.lemma_walk_step(bid@, sc, ns, current@, (fuel + 1) as nat, old_out, old_dead, str_views(dead@), out@);
            }
            match self.branches.get(current.as_str()) {
                Some(b) => match &b.parent {
                    Some(p) => {
                        if fuel == 0 {
                            proof {
                                assert forall|rid: Seq<char>| !has_id(out@, rid) implies #[trigger] self.visible_from(rid, bid@, sc, ns)
                                    is None by {
                                    lemma_visible_unfold(self.records(), self.tombstones(), self.branches(), rid, p@, 0nat, sc, ns);
                                }
                            }
                            break;
                        }
                        fuel -= 1;
                        current = p.clone();
                    },
                    None => {
                        break;
                    },
                },
                None => {
                    break;
                },
            }
        }
        out
    }

    /// The in-scope records visible from branch `bid`, newest first.
    fn visible_newest_first(&self, bid: &str, schema: Option<&str>, namespace: Option<&str>) -> (r: Vec<Record>)
        ensures
            lists_visible(r@, self.records(), self.tombstones(), self.branches(), bid@, opt_text(schema), opt_text(namespace)),
    {
        let found = self.collect_visible(bid, schema, namespace);
        let mut times: Vec<u64> = Vec::new();
        let mut i: usize = 0;
        while i < found.len()
            invariant
                i <= found@.len(),
                times@.len() == i,
                forall|j: int| 0 <= j < i ==> times@[j] == (#[trigger] found@[j]).created_at_ms,
            decreases found@.len() - i,
        {
            times.push(found[i].created_at_ms);
            i += 1;
        }
        let order = newest_first_order(&times);
        let mut out: Vec<Record> = Vec::new();
        let mut k: usize = 0;
        while k < order.len()
            invariant
                k <= order@.len(),
                order@.len() == found@.len(),
                times@.len() == found@.len(),
                forall|j: int| 0 <= j < found@.len() ==> times@[j] == (#[trigger] found@[j]).created_at_ms,
                forall|q: int| 0 <= q < order@.len() ==> #[trigger] order@[q] < found@.len(),
                out@.len() == k,
                forall|q: int| 0 <= q < k ==> same_record(#[trigger] out@[q], found@[order@[q] as int]),
            decreases order@.len() - k,
        {
            out.push(found[order[k]].clone());
            k += 1;
        }
        proof {
            lemma_reordered(self.records(), self.tombstones(), self.branches(), bid@, opt_text(schema), opt_text(namespace),
                found@, times@, order@, out@);
        }
        out
    }

    /// Marks record `rid` changed (`added`) or deleted on branch `bid`.
    fn note_change(&mut self, bid: &str, rid: String, added: bool)
        ensures
            final(self).branches().dom() == old(self).branches().dom(),
            forall|k: Seq<char>| k != bid@ && #[trigger] old(self).branches().dom().contains(k)
                ==> final(self).branches()[k] == old(self).branches()[k],
            old(self).branches().dom().contains(bid@) ==> same_but_changes(final(self).branches()[bid@], old(self).branches()[bid@])
                && final(self).branches()[bid@].changes@ == old(self).branches()[bid@].changes@.insert(rid@, added),
            final(self).namespaces() == old(self).namespaces(),
            final(self).schemas() == old(self).schemas(),
            final(self).records() == old(self).records(),
            final(self).tombstones() == old(self).tombstones(),
            final(self).log() == old(self).log(),
            final(self).last_seq() == old(self).last_seq(),
    {
        proof {
            use_type_invariant(&*self);
        }
        let mut branches: StrMap<Branch> = StrMap::new();
        std::mem::swap(&mut branches, &mut self.branches);
        match branches.remove(bid) {
            Some(b) => {
                let mut b = b;
                if added {
                    b.add_change(rid);
                } else {
                    b.add_deletion(rid);
                }
                branches.insert(bid.to_string(), b);
                proof {
                    assert(branches@.dom() =~= old(self).branches().dom());
                }
            },
            None => {},
        }
        self.branches = branches;
    }

    /// Marks branch `bid` merged.
    fn note_merged(&mut self, bid: &str)
        ensures
            final(self).branches().dom() == old(self).branches().dom(),
            forall|k: Seq<char>| k != bid@ && #[trigger] old(self).branches().dom().contains(k)
                ==> final(self).branches()[k] == old(self).branches()[k],
            old(self).branches().dom().contains(bid@) ==> final(self).branches()[bid@].state == BranchState::Merged
                && final(self).branches()[bid@].changes == old(self).branches()[bid@].changes
                && final(self).branches()[bid@].id == old(self).branches()[bid@].id
                && final(self).branches()[bid@].namespace == old(self).branches()[bid@].namespace
                && final(self).branches()[bid@].parent == old(self).branches()[bid@].parent
                && final(self).branches()[bid@].created_at_ms == old(self).branches()[bid@].created_at_ms
                && final(self).branches()[bid@].label == old(self).branches()[bid@].label,
            final(self).namespaces() == old(self).namespaces(),
            final(self).schemas() == old(self).schemas(),
            final(self).records() == old(self).records(),
            final(self).tombstones() == old(self).tombstones(),
            final(self).log() == old(self).log(),
            final(self).last_seq() == old(self).last_seq(),
    {
        proof {
            use_type_invariant(&*self);
        }
        let mut branches: StrMap<Branch> = StrMap::new();
        std::mem::swap(&mut branches, &mut self.branches);
        match branches.remove(bid) {
            Some(b) => {
                let mut b = b;
                b.mark_merged();
                branches.insert(bid.to_string(), b);
                proof {
                    assert(branches@.dom() =~= old(self).branches().dom());
                }
            },
            None => {},
        }
        self.branches = branches;
    }

    /// Moves the deletions of branch `from` to the end of those of branch `to`.
    fn move_tombstones(&mut self, from: &str, to: &str)
        ensures
            final(self).tombstones() == (if old(self).tombstones().dom().contains(from@) {
                old(self).tombstones().remove(from@).insert(to@,
                    tombs_of(old(self).tombstones().remove(from@), to@) + old(self).tombstones()[from@])
            } else {
                old(self).tombstones()
            }),
            final(self).namespaces() == old(self).namespaces(),
            final(self).schemas() == old(self).schemas(),
            final(self).branches() == old(self).branches(),
            final(self).records() == old(self).records(),
            final(self).log() == old(self).log(),
            final(self).last_seq() == old(self).last_seq(),
    {
        proof {
            use_type_invariant(&*self);
        }
        let mut tombstones: StrMap<Vec<String>> = StrMap::new();
        std::mem::swap(&mut tombstones, &mut self.tombstones);
        let ghost t0 = tombstones@.map_values(|v: Vec<String>| str_views(v@));
        match tombstones.remove(from) {
            Some(ts) => {
                let ghost t1 = tombstones@.map_values(|v: Vec<String>| str_views(v@));
                assert(t1 =~= t0.remove(from@));
                let mut dst = match tombstones.remove(to) {
                    Some(d) => d,
                    None => Vec::new(),
                };
                let ghost d0 = str_views(dst@);
                assert(d0 == tombs_of(t1, to@));
                let mut moving = ts;
                let ghost m0 = str_views(moving@);
                dst.append(&mut moving);
                assert(str_views(dst@) =~= d0 + m0);
                tombstones.insert(to.to_string(), dst);
                assert(tombstones@.map_values(|v: Vec<String>| str_views(v@)) =~= t0.remove(from@).insert(to@,
                    tombs_of(t0.remove(from@), to@) + t0[from@]));
            },
            None => {},
        }
        self.tombstones = tombstones;
    }

    /// Stores `rec` under `rid` on branch `bid`.
    fn put_stored(&mut self, bid: &str, rid: String, rec: Record)
        requires
            rec.record_id@ == rid@,
        ensures
            final(self).records() == old(self).records().insert(bid@, recs_of(old(self).records(), bid@).insert(rid@, rec)),
            final(self).namespaces() == old(self).namespaces(),
            final(self).schemas() == old(self).schemas(),
            final(self).branches() == old(self).branches(),
            final(self).tombstones() == old(self).tombstones(),
            final(self).log() == old(self).log(),
            final(self).last_seq() == old(self).last_seq(),
    {
        proof {
            use_type_invariant(&*self);
        }
        let mut records: StrMap<StrMap<Record>> = StrMap::new();
        std::mem::swap(&mut records, &mut self.records);
        let mut m = match records.remove(bid) {
            Some(m) => m,
            None => StrMap::new(),
        };
        m.insert(rid, rec);
        records.insert(bid.to_string(), m);
        proof {
            assert(nested_views(records@) =~= old(self).records().insert(bid@, recs_of(old(self).records(), bid@).insert(rid@, rec)));
            assert forall|b: Seq<char>, k: Seq<char>| #[trigger] recs_of(nested_views(records@), b).dom().contains(k)
                implies recs_of(nested_views(records@), b)[k].record_id@ == k by {
                if b != bid@ {
                    assert(recs_of(old(self).records(), b).dom().contains(k));
                } else if k != rid@ {
                    assert(recs_of(old(self).records(), b).dom().contains(k));
                }
            }
        }
        self.records = records;
    }

    /// Removes the record `rid` stored on branch `bid`, returning it.
    fn take_stored(&mut self, bid: &str, rid: &str) -> (r: Option<Record>)
        ensures
            r is Some <==> recs_of(old(self).records(), bid@).dom().contains(rid@),
            r matches Some(x) ==> x == recs_of(old(self).records(), bid@)[rid@],
            forall|b: Seq<char>| #[trigger] recs_of(final(self).records(), b) == if b == bid@ {
                recs_of(old(self).records(), b).remove(rid@)
            } else {
                recs_of(old(self).records(), b)
            },
            final(self).namespaces() == old(self).namespaces(),
            final(self).schemas() == old(self).schemas(),
            final(self).branches() == old(self).branches(),
            final(self).tombstones() == old(self).tombstones(),
            final(self).log() == old(self).log(),
            final(self).last_seq() == old(self).last_seq(),
    {
        proof {
            use_type_invariant(&*self);
        }
        let mut records: StrMap<StrMap<Record>> = StrMap::new();
        std::mem::swap(&mut records, &mut self.records);
        match records.remove(bid) {
            Some(m) => {
                let mut m = m;
                let r = m.remove(rid);
                records.insert(bid.to_string(), m);
                proof {
                    assert forall|b: Seq<char>| #[trigger] recs_of(nested_views(records@), b) == if b == bid@ {
                        recs_of(old(self).records(), b).remove(rid@)
                    } else {
                        recs_of(old(self).records(), b)
                    } by {}
                    assert forall|b: Seq<char>, k: Seq<char>| #[trigger] recs_of(nested_views(records@), b).dom().contains(k)
                        implies recs_of(nested_views(records@), b)[k].record_id@ == k by {
                        assert(recs_of(old(self).records(), b).dom().contains(k));
                    }
                }
                self.records = records;
                r
            },
            None => {
                proof {
                    assert(nested_views(records@) == old(self).records());
                }
                self.records = records;
                proof {
                    assert(recs_of(old(self).records(), bid@).remove(rid@) =~= recs_of(old(self).records(), bid@));
                }
                None
            },
        }
    }

    /// Records the deletion of `rid` on branch `bid`.
    fn add_tombstone(&mut self, bid: &str, rid: String)
        ensures
            final(self).tombstones() == old(self).tombstones().insert(bid@, tombs_of(old(self).tombstones(), bid@).push(rid@)),
            final(self).namespaces() == old(self).namespaces(),
            final(self).schemas() == old(self).schemas(),
            final(self).branches() == old(self).branches(),
            final(self).records() == old(self).records(),
            final(self).log() == old(self).log(),
            final(self).last_seq() == old(self).last_seq(),
    {
        proof {
            use_type_invariant(&*self);
        }
        let mut tombstones: StrMap<Vec<String>> = StrMap::new();
        std::mem::swap(&mut tombstones, &mut self.tombstones);
        let mut v = match tombstones.remove(bid) {
            Some(v) => v,
            None => Vec::new(),
        };
        let ghost before = v@;
        v.push(rid);
        proof {
            assert(str_views(v@) =~= str_views(before).push(v@.last()@));
        }
        tombstones.insert(bid.to_string(), v);
        self.tombstones = tombstones;
        proof {
            assert(tombs_of(old(self).tombstones(), bid@) == str_views(before));
            assert(self.tombstones() =~= old(self).tombstones().insert(bid@, tombs_of(old(self).tombstones(), bid@).push(rid@)));
        }
    }

    /// One branch of the visibility walk keeps the walk's invariant.
    #[verifier::rlimit(40)]
    proof fn lemma_walk_step(
        &self,
        bid: Seq<char>,
        sc: Option<Seq<char>>,
        ns: Option<Seq<char>>,
        current: Seq<char>,
        f1: nat,
        old_out: Seq<Record>,
        old_dead: Seq<Seq<char>>,
        new_dead: Seq<Seq<char>>,
        new_out: Seq<Record>,
    )
        requires
            f1 >= 1,
            new_dead == old_dead + tombs_of(self.tombstones(), current),
            forall|i: int| 0 <= i < old_out.len() ==> (self.visible_from((#[trigger] old_out[i]).record_id@, bid, sc, ns)
                matches Some(x) && same_record(old_out[i], x)),
            forall|rid: Seq<char>| !has_id(old_out, rid) ==> #[trigger] self.visible_from(rid, bid, sc, ns)
                == (if old_dead.contains(rid) { None } else { visible(self.records(), self.tombstones(),
                    self.branches(), rid, current, f1, sc, ns) }),
            new_out.len() >= old_out.len(),
            new_out.subrange(0, old_out.len() as int) == old_out,
            forall|t: int| old_out.len() <= t < new_out.len() ==> {
                let k = (#[trigger] new_out[t]).record_id@;
                &&& recs_of(self.records(), current).dom().contains(k)
                &&& same_record(new_out[t], recs_of(self.records(), current)[k])
                &&& !new_dead.contains(k)
                &&& in_scope(recs_of(self.records(), current)[k], sc, ns)
                &&& !has_id(old_out, k)
            },
            forall|k: Seq<char>| #[trigger] recs_of(self.records(), current).dom().contains(k) && !new_dead.contains(k)
                && in_scope(recs_of(self.records(), current)[k], sc, ns) ==> has_id(new_out, k),
        ensures
            forall|i: int| 0 <= i < new_out.len() ==> (self.visible_from((#[trigger] new_out[i]).record_id@, bid, sc, ns)
                matches Some(x) && same_record(new_out[i], x)),
            forall|rid: Seq<char>| !has_id(new_out, rid) ==> #[trigger] self.visible_from(rid, bid, sc, ns)
                == (if new_dead.contains(rid) { None } else if self.branches().dom().contains(current)
                    && self.branches()[current].parent is Some { visible(self.records(), self.tombstones(),
                    self.branches(), rid, self.branches()[current].parent->0@, (f1 - 1) as nat, sc, ns) } else { None }),
    {
        let recs = recs_of(self.records(), current);
        let tombs = tombs_of(self.tombstones(), current);
        assert forall|rid: Seq<char>| new_dead.contains(rid) implies old_dead.contains(rid) || tombs.contains(rid) by {
            let w = choose|w: int| 0 <= w < new_dead.len() && new_dead[w] == rid;
            if w < old_dead.len() {
                assert(old_dead[w] == rid);
            } else {
                assert(tombs[w - old_dead.len()] == rid);
            }
        }
        assert forall|rid: Seq<char>| old_dead.contains(rid) implies new_dead.contains(rid) by {
            let w = choose|w: int| 0 <= w < old_dead.len() && old_dead[w] == rid;
            assert(new_dead[w] == rid);
        }
        assert forall|rid: Seq<char>| tombs.contains(rid) implies new_dead.contains(rid) by {
            let w = choose|w: int| 0 <= w < tombs.len() && tombs[w] == rid;
            assert(new_dead[old_dead.len() + w] == rid);
        }
        assert forall|i: int| 0 <= i < new_out.len() implies (self.visible_from((#[trigger] new_out[i]).record_id@, bid, sc, ns)
            matches Some(x) && same_record(new_out[i], x)) by {
            lemma_visible_unfold(self.records(), self.tombstones(), self.branches(), new_out[i].record_id@, current, f1, sc, ns);
            if i < old_out.len() {
                assert(new_out[i] == new_out.subrange(0, old_out.len() as int)[i]);
            } else {
                let k = new_out[i].record_id@;
                assert(!old_dead.contains(k));
                assert(!tombs.contains(k));
            }
        }
        assert forall|rid: Seq<char>| !has_id(new_out, rid) implies #[trigger] self.visible_from(rid, bid, sc, ns)
            == (if new_dead.contains(rid) { None } else if self.branches().dom().contains(current)
                && self.branches()[current].parent is Some { visible(self.records(), self.tombstones(),
                self.branches(), rid, self.branches()[current].parent->0@, (f1 - 1) as nat, sc, ns) } else { None }) by {
            lemma_visible_unfold(self.records(), self.tombstones(), self.branches(), rid, current, f1, sc, ns);
            assert(!has_id(old_out, rid)) by {
                if has_id(old_out, rid) {
                    let t = choose|t: int| 0 <= t < old_out.len() && old_out[t].record_id@ == rid;
                    assert(new_out[t] == new_out.subrange(0, old_out.len() as int)[t]);
                }
            }
        }
    }
}

/// Reordering the records `found` by a newest-first order of their times
/// keeps what they list and puts them newest first.
#[verifier::rlimit(40)]
proof fn lemma_reordered(
    records: Map<Seq<char>, Map<Seq<char>, Record>>,
    tombs: Map<Seq<char>, Seq<Seq<char>>>,
    branches: Map<Seq<char>, Branch>,
    bid: Seq<char>,
    sc: Option<Seq<char>>,
    ns: Option<Seq<char>>,
    found: Seq<Record>,
    times: Seq<u64>,
    order: Seq<usize>,
    out: Seq<Record>,
)
    requires
        forall|i: int| 0 <= i < found.len() ==> (visible(records, tombs, branches, (#[trigger] found[i]).record_id@, bid, (branches.dom().len() + 1) as nat, sc, ns) matches Some(x) && same_record(found[i], x)),
        forall|rid: Seq<char>| #[trigger] visible(records, tombs, branches, rid, bid, (branches.dom().len() + 1) as nat, sc, ns) is Some ==> has_id(found, rid),
        forall|i: int, j: int| 0 <= i < j < found.len() ==> (#[trigger] found[i]).record_id@ != (#[trigger] found[j]).record_id@,
        times.len() == found.len(),
        forall|j: int| 0 <= j < found.len() ==> times[j] == (#[trigger] found[j]).created_at_ms,
        order.len() == found.len(),
        forall|i: int| 0 <= i < order.len() ==> #[trigger] order[i] < found.len(),
        forall|j: int| 0 <= j < found.len() ==> #[trigger] occurs(order, j),
        forall|i: int, j: int| 0 <= i < j < order.len() ==> #[trigger] order[i] != #[trigger] order[j],
        forall|i: int, j: int| 0 <= i < j < order.len() ==> times[#[trigger] order[i] as int] >= times[#[trigger] order[j] as int],
        out.len() == order.len(),
        forall|q: int| 0 <= q < out.len() ==> same_record(#[trigger] out[q], found[order[q] as int]),
    ensures
        lists_visible(out, records, tombs, branches, bid, sc, ns),
        forall|i: int| 0 <= i < out.len() ==> (visible(records, tombs, branches, (#[trigger] out[i]).record_id@, bid, (branches.dom().len() + 1) as nat, sc, ns) matches Some(x) && same_record(out[i], x)),
        forall|rid: Seq<char>| #[trigger] visible(records, tombs, branches, rid, bid, (branches.dom().len() + 1) as nat, sc, ns) is Some ==> exists|i: int| 0 <= i < out.len() && out[i].record_id@ == rid,
        forall|i: int, j: int| 0 <= i < j < out.len() ==> (#[trigger] out[i]).record_id@ != (#[trigger] out[j]).record_id@,
        forall|i: int, j: int| 0 <= i < j < out.len() ==> (#[trigger] out[i]).created_at_ms >= (#[trigger] out[j]).created_at_ms,
{
    assert forall|i: int| 0 <= i < out.len() implies (visible(records, tombs, branches, (#[trigger] out[i]).record_id@, bid, (branches.dom().len() + 1) as nat, sc, ns) matches Some(x) && same_record(out[i], x)) by {
        let j = order[i] as int;
        assert(same_record(out[i], found[j]));
    }
    assert forall|rid: Seq<char>| #[trigger] visible(records, tombs, branches, rid, bid, (branches.dom().len() + 1) as nat, sc, ns) is Some implies exists|i: int| 0 <= i < out.len() && out[i].record_id@ == rid by {
        let j = choose|j: int| 0 <= j < found.len() && found[j].record_id@ == rid;
        assert(occurs(order, j));
        let i = choose|i: int| 0 <= i < order.len() && order[i] == j;
        assert(same_record(out[i], found[j]));
    }
    assert forall|a: int, c: int| 0 <= a < c < out.len() implies (#[trigger] out[a]).record_id@ != (#[trigger] out[c]).record_id@ by {
        assert(same_record(out[a], found[order[a] as int]));
        assert(same_record(out[c], found[order[c] as int]));
        if order[a] < order[c] {
            assert(found[order[a] as int].record_id@ != found[order[c] as int].record_id@);
        } else {
            assert(found[order[c] as int].record_id@ != found[order[a] as int].record_id@);
        }
    }
    assert forall|a: int, c: int| 0 <= a < c < out.len() implies (#[trigger] out[a]).created_at_ms >= (#[trigger] out[c]).created_at_ms by {
        assert(times[order[a] as int] >= times[order[c] as int]);
        assert(same_record(out[a], found[order[a] as int]));
        assert(same_record(out[c], found[order[c] as int]));
    }
}

/// The window of `all` after skipping `offset` records, at most `limit` long.
pub(crate) fn page_of(all: Vec<Record>, limit: usize, offset: usize) -> (r: Vec<Record>)
    ensures
        r@ == window(all@, limit, offset),
{
    let mut page = all;
    if offset >= page.len() {
        page.clear();
    } else {
        let rest = page.split_off(offset);
        page = rest;
    }
    let ghost rest = page@;
    if limit < page.len() {
        page.truncate(limit);
    }
    assert(page@ =~= window(all@, limit, offset));
    page
}

/// Filtering a log whose positions increase keeps them increasing.
proof fn lemma_filter_increasing(s: Seq<(u64, Seq<char>, Seq<char>)>, p: spec_fn((u64, Seq<char>, Seq<char>)) -> bool)
    requires
        forall|a: int, c: int| 0 <= a < c < s.len() ==> (#[trigger] s[a]).0 < (#[trigger] s[c]).0,
    ensures
        forall|a: int, c: int| 0 <= a < c < s.filter(p).len() ==> (#[trigger] s.filter(p)[a]).0 < (#[trigger] s.filter(p)[c]).0,
    decreases s.len(),
{
    reveal(Seq::filter);
    if s.len() > 0 {
        let t = s.drop_last();
        assert forall|a: int, c: int| 0 <= a < c < t.len() implies (#[trigger] t[a]).0 < (#[trigger] t[c]).0 by {
            assert(t[a] == s[a]);
            assert(t[c] == s[c]);
        }
        lemma_filter_increasing(t, p);
        let f = t.filter(p);
        if p(s.last()) {
            assert(s.filter(p) == f.push(s.last()));
            assert forall|a: int, c: int| 0 <= a < c < s.filter(p).len() implies (#[trigger] s.filter(p)[a]).0 < (#[trigger] s.filter(p)[c]).0 by {
                if c == f.len() {
                    assert(f.contains(f[a]));
                    t.lemma_filter_contains_rev(p, f[a]);
                    let i = choose|i: int| 0 <= i < t.len() && t[i] == f[a];
                    assert(s[i] == f[a]);
                    assert(s[i].0 < s[s.len() - 1].0);
                } else {
                    assert(s.filter(p)[a] == f[a]);
                    assert(s.filter(p)[c] == f[c]);
                }
            }
        } else {
            assert(s.filter(p) == f);
        }
    }
}

/// Whether branch `bid` can be merged at all: it exists, is active, and
/// has a parent that exists.
pub open spec fn merge_ready(branches: Map<Seq<char>, Branch>, bid: Seq<char>) -> bool {
    &&& branches.dom().contains(bid)
    &&& branches[bid].state == BranchState::Active
    &&& branches[bid].parent is Some
    &&& branches.dom().contains(branches[bid].parent->0@)
}

/// Whether record ID `k` conflicts when merging branch `bid`: it was
/// changed both on the branch and on its parent.
pub open spec fn merge_conflicts(branches: Map<Seq<char>, Branch>, bid: Seq<char>, k: Seq<char>) -> bool {
    &&& branches[bid].changes@.dom().contains(k)
    &&& branches[branches[bid].parent->0@].changes@.dom().contains(k)
}

/// Whether branch `bid` merges into its parent: it can be merged, and none
/// of its changes is also a change of the parent.
pub open spec fn mergeable(branches: Map<Seq<char>, Branch>, bid: Seq<char>) -> bool {
    &&& merge_ready(branches, bid)
    &&& forall|k: Seq<char>| !#[trigger] merge_conflicts(branches, bid, k)
}

/// The IDs among `ids` whose records are stored on branch `bid`: the ones a merge moves.
pub open spec fn moved_set(records: Map<Seq<char>, Map<Seq<char>, Record>>, bid: Seq<char>, ids: Set<Seq<char>>) -> Set<Seq<char>> {
    ids.filter(|k: Seq<char>| recs_of(records, bid).dom().contains(k))
}

/// Whether `after` is `before` with the records of `ids` stored on branch
/// `bid` moved to branch `pid`.
pub open spec fn partly_merged(
    before: Map<Seq<char>, Map<Seq<char>, Record>>,
    after: Map<Seq<char>, Map<Seq<char>, Record>>,
    bid: Seq<char>,
    pid: Seq<char>,
    ids: Set<Seq<char>>,
) -> bool {
    &&& forall|x: Seq<char>| x != bid && x != pid ==> #[trigger] recs_of(after, x) == recs_of(before, x)
    &&& forall|k: Seq<char>| #[trigger] moved_set(before, bid, ids).contains(k) && pid != bid ==> {
        &&& recs_of(after, pid).dom().contains(k)
        &&& recs_of(after, pid)[k] == recs_of(before, bid)[k]
        &&& !recs_of(after, bid).dom().contains(k)
    }
    &&& forall|k: Seq<char>| !(#[trigger] moved_set(before, bid, ids).contains(k)) ==> {
        &&& recs_of(after, bid).dom().contains(k) == recs_of(before, bid).dom().contains(k)
        &&& recs_of(after, bid).dom().contains(k) ==> recs_of(after, bid)[k] == recs_of(before, bid)[k]
        &&& recs_of(after, pid).dom().contains(k) == recs_of(before, pid).dom().contains(k)
        &&& recs_of(after, pid).dom().contains(k) ==> recs_of(after, pid)[k] == recs_of(before, pid)[k]
    }
}

/// Whether `after` records, on the stored records, the merge of all the
/// changes `ids` of branch `bid` into branch `pid`.
pub open spec fn merged_records(
    before: Map<Seq<char>, Map<Seq<char>, Record>>,
    after: Map<Seq<char>, Map<Seq<char>, Record>>,
    bid: Seq<char>,
    pid: Seq<char>,
    ids: Set<Seq<char>>,
) -> bool {
    partly_merged(before, after, bid, pid, ids)
}

/// Whether `after` is `before` with the IDs `moved` marked changed on the
/// parent `pid`.
pub open spec fn partly_merged_branches(
    before: Map<Seq<char>, Branch>,
    after: Map<Seq<char>, Branch>,
    bid: Seq<char>,
    pid: Seq<char>,
    moved: Set<Seq<char>>,
) -> bool {
    &&& after.dom() == before.dom()
    &&& forall|x: Seq<char>| x != pid && #[trigger] before.dom().contains(x) ==> after[x] == before[x]
    &&& same_but_changes(after[pid], before[pid])
    &&& forall|k: Seq<char>| #[trigger] after[pid].changes@.dom().contains(k)
        <==> before[pid].changes@.dom().contains(k) || moved.contains(k)
    &&& forall|k: Seq<char>| #[trigger] after[pid].changes@.dom().contains(k)
        ==> after[pid].changes@[k] == (if moved.contains(k) { true } else { before[pid].changes@[k] })
}

/// Whether `after` is `before` after merging branch `bid` into `pid`: the
/// moved IDs are marked changed on the parent and the branch is merged.
pub open spec fn merged_branches(
    before: Map<Seq<char>, Branch>,
    after: Map<Seq<char>, Branch>,
    bid: Seq<char>,
    pid: Seq<char>,
    moved: Set<Seq<char>>,
) -> bool {
    &&& after.dom() == before.dom()
    &&& forall|x: Seq<char>| x != pid && x != bid && #[trigger] before.dom().contains(x) ==> after[x] == before[x]
    &&& after[bid].state == BranchState::Merged
    &&& after[bid].id == before[bid].id
    &&& after[bid].parent == before[bid].parent
    &&& after[bid].changes@ == before[bid].changes@
    &&& pid != bid ==> {
        &&& same_but_changes(after[pid], before[pid])
        &&& forall|k: Seq<char>| #[trigger] after[pid].changes@.dom().contains(k)
            <==> before[pid].changes@.dom().contains(k) || moved.contains(k)
        &&& forall|k: Seq<char>| #[trigger] after[pid].changes@.dom().contains(k)
            ==> after[pid].changes@[k] == (if moved.contains(k) { true } else { before[pid].changes@[k] })
    }
}

/// Moving one more record of the merge keeps the merge's invariant.
proof fn lemma_merge_step_moved(
    old_recs: Map<Seq<char>, Map<Seq<char>, Record>>,
    before: Map<Seq<char>, Map<Seq<char>, Record>>,
    after: Map<Seq<char>, Map<Seq<char>, Record>>,
    old_br: Map<Seq<char>, Branch>,
    before_br: Map<Seq<char>, Branch>,
    after_br: Map<Seq<char>, Branch>,
    bid: Seq<char>,
    pid: Seq<char>,
    done: Set<Seq<char>>,
    rid: Seq<char>,
)
    requires
        pid != bid,
        !done.contains(rid),
        partly_merged(old_recs, before, bid, pid, done),
        partly_merged_branches(old_br, before_br, bid, pid, moved_set(old_recs, bid, done)),
        old_br.dom().contains(pid),
        recs_of(before, bid).dom().contains(rid),
        forall|x: Seq<char>| x != bid && x != pid ==> #[trigger] recs_of(after, x) == recs_of(before, x),
        recs_of(after, bid) == recs_of(before, bid).remove(rid),
        recs_of(after, pid) == recs_of(before, pid).insert(rid, recs_of(before, bid)[rid]),
        after_br.dom() == before_br.dom(),
        forall|k: Seq<char>| k != pid && #[trigger] before_br.dom().contains(k) ==> after_br[k] == before_br[k],
        same_but_changes(after_br[pid], before_br[pid]),
        after_br[pid].changes@ == before_br[pid].changes@.insert(rid, true),
    ensures
        partly_merged(old_recs, after, bid, pid, done.insert(rid)),
        partly_merged_branches(old_br, after_br, bid, pid, moved_set(old_recs, bid, done.insert(rid))),
{
    let m0 = moved_set(old_recs, bid, done);
    let m1 = moved_set(old_recs, bid, done.insert(rid));
    assert(!m0.contains(rid));
    assert(recs_of(old_recs, bid).dom().contains(rid));
    assert(m1 =~= m0.insert(rid));
    assert forall|k: Seq<char>| #[trigger] m1.contains(k) && pid != bid implies {
        &&& recs_of(after, pid).dom().contains(k)
        &&& recs_of(after, pid)[k] == recs_of(old_recs, bid)[k]
        &&& !recs_of(after, bid).dom().contains(k)
    } by {
        if k != rid {
            assert(m0.contains(k));
        }
    }
    assert forall|k: Seq<char>| !(#[trigger] m1.contains(k)) implies {
        &&& recs_of(after, bid).dom().contains(k) == recs_of(old_recs, bid).dom().contains(k)
        &&& recs_of(after, bid).dom().contains(k) ==> recs_of(after, bid)[k] == recs_of(old_recs, bid)[k]
        &&& recs_of(after, pid).dom().contains(k) == recs_of(old_recs, pid).dom().contains(k)
        &&& recs_of(after, pid).dom().contains(k) ==> recs_of(after, pid)[k] == recs_of(old_recs, pid)[k]
    } by {
        assert(!m0.contains(k));
    }
    assert forall|k: Seq<char>| #[trigger] after_br[pid].changes@.dom().contains(k)
        <==> old_br[pid].changes@.dom().contains(k) || m1.contains(k) by {
        assert(before_br[pid].changes@.dom().contains(k) <==> old_br[pid].changes@.dom().contains(k) || m0.contains(k));
    }
    assert forall|k: Seq<char>| #[trigger] after_br[pid].changes@.dom().contains(k)
        implies after_br[pid].changes@[k] == (if m1.contains(k) { true } else { old_br[pid].changes@[k] }) by {
        if k != rid {
            assert(before_br[pid].changes@.dom().contains(k));
        }
    }
}

/// Skipping a change with no record stored keeps the merge's invariant.
proof fn lemma_merge_step_kept(
    old_recs: Map<Seq<char>, Map<Seq<char>, Record>>,
    before: Map<Seq<char>, Map<Seq<char>, Record>>,
    after: Map<Seq<char>, Map<Seq<char>, Record>>,
    old_br: Map<Seq<char>, Branch>,
    before_br: Map<Seq<char>, Branch>,
    after_br: Map<Seq<char>, Branch>,
    bid: Seq<char>,
    pid: Seq<char>,
    done: Set<Seq<char>>,
    rid: Seq<char>,
)
    requires
        !done.contains(rid),
        partly_merged(old_recs, before, bid, pid, done),
        partly_merged_branches(old_br, before_br, bid, pid, moved_set(old_recs, bid, done)),
        !recs_of(before, bid).dom().contains(rid),
        forall|x: Seq<char>| #[trigger] recs_of(after, x) == recs_of(before, x),
        after_br == before_br,
    ensures
        partly_merged(old_recs, after, bid, pid, done.insert(rid)),
        partly_merged_branches(old_br, after_br, bid, pid, moved_set(old_recs, bid, done.insert(rid))),
{
    let m0 = moved_set(old_recs, bid, done);
    let m1 = moved_set(old_recs, bid, done.insert(rid));
    assert(!m0.contains(rid));
    assert(!recs_of(old_recs, bid).dom().contains(rid));
    assert(m1 =~= m0);
}

/// A filter over keys split by a predicate and its negation.
pub(crate) proof fn lemma_filter_all_or_none(s: Seq<Seq<char>>, p: spec_fn(Seq<char>) -> bool, q: spec_fn(Seq<char>) -> bool)
    requires
        forall|k: Seq<char>| #[trigger] q(k) == !p(k),
    ensures
        s.filter(p).len() == 0 ==> s.filter(q) == s,
        s.filter(p).len() == 0 ==> forall|i: int| 0 <= i < s.len() ==> !p(#[trigger] s[i]),
    decreases s.len(),
{
    reveal(Seq::filter);
    if s.len() > 0 {
        lemma_filter_all_or_none(s.drop_last(), p, q);
        s.drop_last().lemma_filter_len(p);
        if s.filter(p).len() == 0 {
            assert(!p(s.last()));
            assert(s.drop_last().filter(p).len() == 0);
            assert(s.filter(q) =~= s.drop_last().push(s.last()));
            assert(s.drop_last().push(s.last()) =~= s);
            assert forall|i: int| 0 <= i < s.len() implies !p(#[trigger] s[i]) by {
                if i < s.len() - 1 {
                    assert(s[i] == s.drop_last()[i]);
                }
            }
        }
    }
}

/// Whether a tail entry qualifies: after `after_seq`, on the branch asked
/// for (if any), and still stored with a record of `namespace`.
pub open spec fn tail_qualifies(
    records: Map<Seq<char>, Map<Seq<char>, Record>>,
    e: (u64, Seq<char>, Seq<char>),
    namespace: Seq<char>,
    after_seq: u64,
    branch_filter: Option<Seq<char>>,
) -> bool {
    &&& e.0 > after_seq
    &&& (branch_filter matches Some(b) ==> e.1 == b)
    &&& recs_of(records, e.1).dom().contains(e.2)
    &&& recs_of(records, e.1)[e.2].namespace@ == namespace
}

/// A filter that keeps nothing of `s` keeps nothing; a prefix's filter is
/// a prefix of the filter.
proof fn lemma_filter_prefix<A>(s: Seq<A>, p: spec_fn(A) -> bool, k: int)
    requires
        0 <= k <= s.len(),
    ensures
        s.take(k).filter(p).len() <= s.filter(p).len(),
        s.take(k).filter(p) == s.filter(p).take(s.take(k).filter(p).len() as int),
    decreases s.len(),
{
    reveal(Seq::filter);
    if k == s.len() {
        assert(s.take(k) =~= s);
    } else {
        lemma_filter_prefix(s.drop_last(), p, k);
        assert(s.take(k) =~= s.drop_last().take(k));
        s.drop_last().lemma_filter_len(p);
        let f = s.drop_last().filter(p);
        if p(s.last()) {
            assert(s.filter(p) == f.push(s.last()));
            assert(f.push(s.last()).take(s.take(k).filter(p).len() as int) =~= f.take(s.take(k).filter(p).len() as int));
        } else {
            assert(s.filter(p) == f);
        }
    }
}

/// A filter that keeps no element gives the empty sequence.
proof fn lemma_filter_keeps_none<A>(s: Seq<A>, p: spec_fn(A) -> bool)
    requires
        forall|i: int| 0 <= i < s.len() ==> !p(#[trigger] s[i]),
    ensures
        s.filter(p) == Seq::<A>::empty(),
    decreases s.len(),
{
    reveal(Seq::filter);
    if s.len() > 0 {
        assert forall|i: int| 0 <= i < s.drop_last().len() implies !p(#[trigger] s.drop_last()[i]) by {
            assert(s.drop_last()[i] == s[i]);
        }
        lemma_filter_keeps_none(s.drop_last(), p);
        assert(!p(s[s.len() - 1]));
    }
}

/// A write is seen by a tail of its namespace: right after record `rec`
/// was written to branch `bid` at position `seq` (the last and highest
/// position of the log), tailing the record's namespace from just before
/// that position, on all branches or on `bid` alone, gives exactly that
/// write.
pub proof fn write_then_tail(
    records: Map<Seq<char>, Map<Seq<char>, Record>>,
    log: Seq<(u64, Seq<char>, Seq<char>)>,
    bid: Seq<char>,
    rec: Record,
    seq: u64,
    branch_filter: Option<Seq<char>>,
)
    requires
        seq > 0,
        log.len() > 0,
        log.last() == (seq, bid, rec.record_id@),
        forall|i: int| 0 <= i < log.len() - 1 ==> (#[trigger] log[i]).0 < seq,
        recs_of(records, bid).dom().contains(rec.record_id@),
        recs_of(records, bid)[rec.record_id@] == rec,
        branch_filter is None || branch_filter == Some(bid),
    ensures
        log.filter(|e: (u64, Seq<char>, Seq<char>)| tail_qualifies(records, e, rec.namespace@, (seq - 1) as u64,
            branch_filter)) == seq![(seq, bid, rec.record_id@)],
{
    let p = |e: (u64, Seq<char>, Seq<char>)| tail_qualifies(records, e, rec.namespace@, (seq - 1) as u64, branch_filter);
    let front = log.drop_last();
    assert forall|i: int| 0 <= i < front.len() implies !p(#[trigger] front[i]) by {
        assert(front[i] == log[i]);
    }
    lemma_filter_keeps_none(front, p);
    assert(front.push(log.last()) =~= log);
    front.lemma_filter_push(log.last(), p);
    assert(p(log.last()));
    assert(Seq::<(u64, Seq<char>, Seq<char>)>::empty().push((seq, bid, rec.record_id@)) =~= seq![(seq, bid, rec.record_id@)]);
}

/// A merged record is read from the parent: after a merge moved the
/// records of `ids` from branch `bid` to its parent `pid`, reading a moved
/// record's ID from the parent gives the version the branch held, unless
/// that ID is deleted on the parent (the branch's deletions join the
/// parent's in a merge).
pub proof fn merge_then_read(
    before: Map<Seq<char>, Map<Seq<char>, Record>>,
    after: Map<Seq<char>, Map<Seq<char>, Record>>,
    tombs: Map<Seq<char>, Seq<Seq<char>>>,
    branches: Map<Seq<char>, Branch>,
    bid: Seq<char>,
    pid: Seq<char>,
    ids: Set<Seq<char>>,
    rid: Seq<char>,
    fuel: nat,
)
    requires
        merged_records(before, after, bid, pid, ids),
        pid != bid,
        ids.contains(rid),
        recs_of(before, bid).dom().contains(rid),
        !tombs_of(tombs, pid).contains(rid),
        fuel > 0,
    ensures
        visible(after, tombs, branches, rid, pid, fuel, None, None) == Some(recs_of(before, bid)[rid]),
        !recs_of(after, bid).dom().contains(rid),
{
    assert(moved_set(before, bid, ids).contains(rid));
    lemma_visible_unfold(after, tombs, branches, rid, pid, fuel, None, None);
}

impl StorageEngine for MemoryEngine {
    open spec fn obeys_storage_spec(&self) -> bool {
        true
    }

    open spec fn namespace_owner(&self, id: Seq<char>) -> Option<Seq<u8>> {
        if self.namespaces().dom().contains(id) {
            Some(self.namespaces()[id].owner@)
        } else {
            None
        }
    }

    open spec fn lists(
        &self,
        branch: Seq<char>,
        schema: Option<Seq<char>>,
        namespace: Option<Seq<char>>,
        v: Seq<Record>,
        limit: usize,
        offset: usize,
    ) -> bool {
        exists|all: Seq<Record>| lists_visible(all, self.records(), self.tombstones(), self.branches(), branch,
            schema, namespace) && v == window(all, limit, offset)
    }

    fn create_namespace(&mut self, namespace: Namespace) -> (r: Result<(), StorageError>)
        ensures
            r is Err <==> old(self).namespaces().dom().contains(namespace.id@),
            r matches Err(e) ==> (e matches StorageError::NamespaceExists(m) && m@ == namespace.id@),
            r is Err ==> final(self).namespaces() == old(self).namespaces() && final(self).branches() == old(self).branches(),
            r is Ok ==> {
                &&& final(self).namespaces() == old(self).namespaces().insert(namespace.id@, namespace)
                &&& final(self).branches().dom() == old(self).branches().dom().insert(main_branch_id(namespace.id@))
                &&& fresh_main(final(self).branches()[main_branch_id(namespace.id@)], namespace.id@)
                &&& forall|k: Seq<char>| k != main_branch_id(namespace.id@) && #[trigger] old(self).branches().dom().contains(k)
                    ==> final(self).branches()[k] == old(self).branches()[k]
            },
            final(self).schemas() == old(self).schemas(),
            final(self).records() == old(self).records(),
            final(self).tombstones() == old(self).tombstones(),
            final(self).log() == old(self).log(),
    {
        proof {
            use_type_invariant(&*self);
        }
        if self.namespaces.contains_key(namespace.id.as_str()) {
            return Err(StorageError::NamespaceExists(namespace.id));
        }
        let main = Branch::main(namespace.id.clone());
        let mut branches: StrMap<Branch> = StrMap::new();
        std::mem::swap(&mut branches, &mut self.branches);
        branches.insert(main.id.clone(), main);
        self.branches = branches;
        let mut namespaces: StrMap<Namespace> = StrMap::new();
        std::mem::swap(&mut namespaces, &mut self.namespaces);
        namespaces.insert(namespace.id.clone(), namespace);
        self.namespaces = namespaces;
        Ok(())
    }

    fn get_namespace(&self, id: &str) -> (r: Result<Option<Namespace>, StorageError>)
        ensures
            r matches Ok(o) && (o is Some <==> self.namespaces().dom().contains(id@))
                && (o matches Some(n) ==> same_namespace(n, self.namespaces()[id@])),
    {
        proof {
            use_type_invariant(self);
        }
        match self.namespaces.get(id) {
            Some(n) => Ok(Some(n.clone())),
            None => Ok(None),
        }
    }

    fn list_namespaces(&self) -> (r: Result<Vec<Namespace>, StorageError>)
        ensures
            r matches Ok(v) && {
                &&& forall|i: int| 0 <= i < v@.len() ==> self.namespaces().dom().contains((#[trigger] v@[i]).id@)
                    && same_namespace(v@[i], self.namespaces()[v@[i].id@])
                &&& forall|k: Seq<char>| #[trigger] self.namespaces().dom().contains(k)
                    ==> exists|i: int| 0 <= i < v@.len() && v@[i].id@ == k
                &&& forall|i: int, j: int| 0 <= i < j < v@.len() ==> (#[trigger] v@[i]).id@ != (#[trigger] v@[j]).id@
            },
    {
        proof {
            use_type_invariant(self);
        }
        let n = self.namespaces.len();
        let mut out: Vec<Namespace> = Vec::new();
        let mut i: usize = 0;
        while i < n
            invariant
                i <= n,
                n == self.namespaces.key_order().len(),
                self.namespaces.key_order().no_duplicates(),
                forall|k: Seq<char>| #[trigger] self.namespaces@.dom().contains(k) <==> self.namespaces.key_order().contains(k),
                forall|k: Seq<char>| #[trigger] self.namespaces@.dom().contains(k) ==> self.namespaces@[k].id@ == k,
                out@.len() == i,
                forall|q: int| 0 <= q < i ==> (#[trigger] out@[q]).id@ == self.namespaces.key_order()[q]
                    && same_namespace(out@[q], self.namespaces@[out@[q].id@]),
            decreases n - i,
        {
            let (_, ns) = self.namespaces.entry_at(i);
            out.push(ns.clone());
            i += 1;
        }
        proof {
            assert forall|k: Seq<char>| #[trigger] self.namespaces().dom().contains(k)
                implies exists|q: int| 0 <= q < out@.len() && out@[q].id@ == k by {
                assert(self.namespaces.key_order().contains(k));
                let q = choose|q: int| 0 <= q < n && self.namespaces.key_order()[q] == k;
                assert(out@[q].id@ == k);
            }
            assert forall|a: int, c: int| 0 <= a < c < out@.len() implies (#[trigger] out@[a]).id@ != (#[trigger] out@[c]).id@ by {
                assert(self.namespaces.key_order()[a] != self.namespaces.key_order()[c]);
            }
        }
        Ok(out)
    }

    fn register_schema(&mut self, schema: Schema) -> (r: Result<(), StorageError>)
        ensures
            r is Err <==> !old(self).namespaces().dom().contains(schema.namespace@),
            r matches Err(e) ==> (e matches StorageError::NamespaceNotFound(m) && m@ == schema.namespace@),
            r is Err ==> final(self).namespaces() == old(self).namespaces() && final(self).schemas() == old(self).schemas(),
            r is Ok ==> {
                let before = old(self).namespaces()[schema.namespace@];
                let after = final(self).namespaces()[schema.namespace@];
                &&& final(self).schemas() == old(self).schemas().insert(schema.id@, schema)
                &&& final(self).namespaces().dom() == old(self).namespaces().dom()
                &&& forall|k: Seq<char>| k != schema.namespace@ && #[trigger] old(self).namespaces().dom().contains(k)
                    ==> final(self).namespaces()[k] == old(self).namespaces()[k]
                &&& str_views(after.schemas@) == (if str_views(before.schemas@).contains(schema.id@) {
                    str_views(before.schemas@)
                } else {
                    str_views(before.schemas@).push(schema.id@)
                })
                &&& after.id == before.id && after.name == before.name && after.owner == before.owner
                &&& after.description == before.description && after.created_at_ms == before.created_at_ms
                &&& after.encrypted == before.encrypted
            },
            final(self).branches() == old(self).branches(),
            final(self).records() == old(self).records(),
            final(self).tombstones() == old(self).tombstones(),
            final(self).log() == old(self).log(),
    {
        proof {
            use_type_invariant(&*self);
        }
        if !self.namespaces.contains_key(schema.namespace.as_str()) {
            return Err(StorageError::NamespaceNotFound(schema.namespace.clone()));
        }
        let mut namespaces: StrMap<Namespace> = StrMap::new();
        std::mem::swap(&mut namespaces, &mut self.namespaces);
        match namespaces.remove(schema.namespace.as_str()) {
            Some(ns) => {
                let mut ns = ns;
                ns.register_schema(schema.id.clone());
                namespaces.insert(schema.namespace.clone(), ns);
                proof {
                    assert(namespaces@.dom() =~= old(self).namespaces().dom());
                }
            },
            None => {},
        }
        self.namespaces = namespaces;
        let mut schemas: StrMap<Schema> = StrMap::new();
        std::mem::swap(&mut schemas, &mut self.schemas);
        schemas.insert(schema.id.clone(), schema);
        self.schemas = schemas;
        Ok(())
    }

    fn get_schema(&self, schema_id: &str) -> (r: Result<Option<Schema>, StorageError>)
        ensures
            r matches Ok(o) && (o is Some <==> self.schemas().dom().contains(schema_id@))
                && (o matches Some(x) ==> same_schema(x, self.schemas()[schema_id@])),
    {
        match self.schemas.get(schema_id) {
            Some(x) => Ok(Some(x.clone())),
            None => Ok(None),
        }
    }

    #[verifier::spinoff_prover]
    #[verifier::rlimit(40)]
    fn list_schemas(&self, namespace: &str) -> (r: Result<Vec<Schema>, StorageError>)
        ensures
            r is Ok,
            r matches Ok(v) ==> forall|i: int| 0 <= i < v@.len() ==> self.schemas().dom().contains((#[trigger] v@[i]).id@)
                && same_schema(v@[i], self.schemas()[v@[i].id@]) && v@[i].namespace@ == namespace@,
            r matches Ok(v) ==> lists_all_schemas(v@, self.schemas(), namespace@),
            r matches Ok(v) ==> forall|i: int, j: int| 0 <= i < j < v@.len() ==> (#[trigger] v@[i]).id@ != (#[trigger] v@[j]).id@,
    {
        proof {
            use_type_invariant(self);
        }
        let n = self.schemas.len();
        let mut out: Vec<Schema> = Vec::new();
        let ghost mut idx: Seq<int> = Seq::empty();
        let mut i: usize = 0;
        while i < n
            invariant
                i <= n,
                n == self.schemas.key_order().len(),
                self.schemas.key_order().no_duplicates(),
                forall|k: Seq<char>| #[trigger] self.schemas@.dom().contains(k) <==> self.schemas.key_order().contains(k),
                forall|k: Seq<char>| #[trigger] self.schemas@.dom().contains(k) ==> self.schemas@[k].id@ == k,
                idx.len() == out@.len(),
                forall|q: int| 0 <= q < out@.len() ==> 0 <= #[trigger] idx[q] < i
                    && out@[q].id@ == self.schemas.key_order()[idx[q]]
                    && same_schema(out@[q], self.schemas@[out@[q].id@]) && out@[q].namespace@ == namespace@,
                forall|a: int, c: int| 0 <= a < c < out@.len() ==> #[trigger] idx[a] < #[trigger] idx[c],
                forall|j: int| 0 <= j < i && (#[trigger] self.schemas@[self.schemas.key_order()[j]]).namespace@ == namespace@
                    ==> exists|q: int| 0 <= q < out@.len() && idx[q] == j,
            decreases n - i,
        {
            let (_, x) = self.schemas.entry_at(i);
            if str_equal(x.namespace.as_str(), namespace) {
                let ghost old_idx = idx;
                let ghost old_len = out@.len();
                out.push(x.clone());
                proof {
                    idx = idx.push(i as int);
                    assert forall|j: int| 0 <= j < i + 1 && (#[trigger] self.schemas@[self.schemas.key_order()[j]]).namespace@ == namespace@
                        implies exists|q: int| 0 <= q < out@.len() && idx[q] == j by {
                        if j == i {
                            assert(idx[old_len as int] == j);
                        } else {
                            let q = choose|q: int| 0 <= q < old_len && old_idx[q] == j;
                            assert(idx[q] == j);
                        }
                    }
                }
            }
            i += 1;
        }
        proof {
            assert forall|q: int| 0 <= q < out@.len() implies self.schemas().dom().contains((#[trigger] out@[q]).id@)
                && same_schema(out@[q], self.schemas()[out@[q].id@]) && out@[q].namespace@ == namespace@ by {
                assert(0 <= idx[q] < n);
                assert(self.schemas.key_order().contains(self.schemas.key_order()[idx[q]]));
            }
            assert forall|k: Seq<char>| #[trigger] self.schemas().dom().contains(k) && self.schemas()[k].namespace@ == namespace@
                implies exists|q: int| 0 <= q < out@.len() && out@[q].id@ == k by {
                assert(self.schemas.key_order().contains(k));
                let j = choose|j: int| 0 <= j < n && self.schemas.key_order()[j] == k;
                assert(self.schemas@[self.schemas.key_order()[j]].namespace@ == namespace@);
                let q = choose|q: int| 0 <= q < out@.len() && idx[q] == j;
                assert(out@[q].id@ == k);
            }
            assert forall|a: int, c: int| 0 <= a < c < out@.len() implies (#[trigger] out@[a]).id@ != (#[trigger] out@[c]).id@ by {
                assert(idx[a] < idx[c]);
                assert(self.schemas.key_order()[idx[a]] != self.schemas.key_order()[idx[c]]);
            }
        }
        proof {
            let v = out@;
            assert(forall|i: int| 0 <= i < v.len() ==> self.schemas().dom().contains((#[trigger] v[i]).id@)
                && same_schema(v[i], self.schemas()[v[i].id@]) && v[i].namespace@ == namespace@);
            assert(lists_all_schemas(v, self.schemas(), namespace@));
            assert(forall|i: int, j: int| 0 <= i < j < v.len() ==> (#[trigger] v[i]).id@ != (#[trigger] v[j]).id@);
        }
        Ok(out)
    }

    fn create_branch(&mut self, branch: Branch) -> (r: Result<(), StorageError>)
        ensures
            r is Err <==> (branch.parent matches Some(p) && !old(self).branches().dom().contains(p@)),
            r matches Err(e) ==> (e matches StorageError::BranchNotFound(m) && branch.parent matches Some(p) && m@ == p@),
            r is Err ==> final(self).branches() == old(self).branches(),
            r is Ok ==> final(self).branches() == old(self).branches().insert(branch.id@, branch),
            final(self).namespaces() == old(self).namespaces(),
            final(self).schemas() == old(self).schemas(),
            final(self).records() == old(self).records(),
            final(self).tombstones() == old(self).tombstones(),
            final(self).log() == old(self).log(),
    {
        proof {
            use_type_invariant(&*self);
        }
        match &branch.parent {
            Some(p) => {
                if !self.branches.contains_key(p.as_str()) {
                    return Err(StorageError::BranchNotFound(p.clone()));
                }
            },
            None => {},
        }
        let mut branches: StrMap<Branch> = StrMap::new();
        std::mem::swap(&mut branches, &mut self.branches);
        branches.insert(branch.id.clone(), branch);
        self.branches = branches;
        Ok(())
    }

    fn get_branch(&self, branch_id: &str) -> (r: Result<Option<Branch>, StorageError>)
        ensures
            r matches Ok(o) && (o is Some <==> self.branches().dom().contains(branch_id@))
                && (o matches Some(b) ==> same_branch(b, self.branches()[branch_id@])),
    {
        match self.branches.get(branch_id) {
            Some(b) => Ok(Some(b.clone())),
            None => Ok(None),
        }
    }

    fn list_branches(&self, namespace: &str) -> (r: Result<Vec<Branch>, StorageError>)
        ensures
            r matches Ok(v) && {
                &&& forall|i: int| 0 <= i < v@.len() ==> self.branches().dom().contains((#[trigger] v@[i]).id@)
                    && same_branch(v@[i], self.branches()[v@[i].id@]) && v@[i].namespace@ == namespace@
                &&& forall|k: Seq<char>| #[trigger] self.branches().dom().contains(k) && self.branches()[k].namespace@ == namespace@
                    ==> exists|i: int| 0 <= i < v@.len() && v@[i].id@ == k
                &&& forall|i: int, j: int| 0 <= i < j < v@.len() ==> (#[trigger] v@[i]).id@ != (#[trigger] v@[j]).id@
            },
    {
        proof {
            use_type_invariant(self);
        }
        let n = self.branches.len();
        let mut out: Vec<Branch> = Vec::new();
        let ghost mut idx: Seq<int> = Seq::empty();
        let mut i: usize = 0;
        while i < n
            invariant
                i <= n,
                n == self.branches.key_order().len(),
                self.branches.key_order().no_duplicates(),
                forall|k: Seq<char>| #[trigger] self.branches@.dom().contains(k) <==> self.branches.key_order().contains(k),
                forall|k: Seq<char>| #[trigger] self.branches@.dom().contains(k) ==> self.branches@[k].id@ == k,
                idx.len() == out@.len(),
                forall|q: int| 0 <= q < out@.len() ==> 0 <= #[trigger] idx[q] < i
                    && out@[q].id@ == self.branches.key_order()[idx[q]]
                    && same_branch(out@[q], self.branches@[out@[q].id@]) && out@[q].namespace@ == namespace@,
                forall|a: int, c: int| 0 <= a < c < out@.len() ==> #[trigger] idx[a] < #[trigger] idx[c],
                forall|j: int| 0 <= j < i && (#[trigger] self.branches@[self.branches.key_order()[j]]).namespace@ == namespace@
                    ==> exists|q: int| 0 <= q < out@.len() && idx[q] == j,
            decreases n - i,
        {
            let (_, x) = self.branches.entry_at(i);
            if str_equal(x.namespace.as_str(), namespace) {
                let ghost old_idx = idx;
                let ghost old_len = out@.len();
                out.push(x.clone());
                proof {
                    idx = idx.push(i as int);
                    assert forall|j: int| 0 <= j < i + 1 && (#[trigger] self.branches@[self.branches.key_order()[j]]).namespace@ == namespace@
                        implies exists|q: int| 0 <= q < out@.len() && idx[q] == j by {
                        if j == i {
                            assert(idx[old_len as int] == j);
                        } else {
                            let q = choose|q: int| 0 <= q < old_len && old_idx[q] == j;
                            assert(idx[q] == j);
                        }
                    }
                }
            }
            i += 1;
        }
        proof {
            assert forall|q: int| 0 <= q < out@.len() implies self.branches().dom().contains((#[trigger] out@[q]).id@)
                && same_branch(out@[q], self.branches()[out@[q].id@]) && out@[q].namespace@ == namespace@ by {
                assert(0 <= idx[q] < n);
                assert(self.branches.key_order().contains(self.branches.key_order()[idx[q]]));
            }
            assert forall|k: Seq<char>| #[trigger] self.branches().dom().contains(k) && self.branches()[k].namespace@ == namespace@
                implies exists|q: int| 0 <= q < out@.len() && out@[q].id@ == k by {
                assert(self.branches.key_order().contains(k));
                let j = choose|j: int| 0 <= j < n && self.branches.key_order()[j] == k;
                assert(self.branches@[self.branches.key_order()[j]].namespace@ == namespace@);
                let q = choose|q: int| 0 <= q < out@.len() && idx[q] == j;
                assert(out@[q].id@ == k);
            }
            assert forall|a: int, c: int| 0 <= a < c < out@.len() implies (#[trigger] out@[a]).id@ != (#[trigger] out@[c]).id@ by {
                assert(idx[a] < idx[c]);
                assert(self.branches.key_order()[idx[a]] != self.branches.key_order()[idx[c]]);
            }
        }
        Ok(out)
    }

    fn merge_branch(&mut self, branch_id: &str) -> (r: Result<MergeResult, StorageError>)
        ensures
            !old(self).branches().dom().contains(branch_id@)
                ==> (r matches Err(StorageError::BranchNotFound(m)) && m@ == branch_id@),
            old(self).branches().dom().contains(branch_id@) && old(self).branches()[branch_id@].state != BranchState::Active
                ==> (r matches Err(StorageError::BranchNotActive(m)) && m@ == branch_id@),
            old(self).branches().dom().contains(branch_id@) && old(self).branches()[branch_id@].state == BranchState::Active
                && old(self).branches()[branch_id@].parent is None
                ==> (r matches Err(StorageError::BranchNotFound(m)) && m@ == "cannot merge main branch"@),
            old(self).branches().dom().contains(branch_id@) && old(self).branches()[branch_id@].state == BranchState::Active
                && old(self).branches()[branch_id@].parent is Some
                && !old(self).branches().dom().contains(old(self).branches()[branch_id@].parent->0@)
                ==> (r matches Err(StorageError::BranchNotFound(m)) && m@ == old(self).branches()[branch_id@].parent->0@),
            r is Ok <==> merge_ready(old(self).branches(), branch_id@),
            r matches Err(e) ==> e is BranchNotFound || e is BranchNotActive,
            r is Err ==> final(self).records() == old(self).records() && final(self).tombstones() == old(self).tombstones()
                && final(self).branches() == old(self).branches(),
            r matches Ok(res) ==> {
                let b = old(self).branches()[branch_id@];
                let pid = b.parent->0@;
                &&& forall|k: Seq<char>| #[trigger] conflict_ids(res.conflicts@).contains(k)
                    <==> merge_conflicts(old(self).branches(), branch_id@, k)
                &&& conflict_ids(res.conflicts@).no_duplicates()
                &&& forall|i: int| 0 <= i < res.conflicts@.len() ==> (#[trigger] res.conflicts@[i]).description@
                    == conflict_text(res.conflicts@[i].record_id@, branch_id@, pid)
            },
            !mergeable(old(self).branches(), branch_id@) ==> (r matches Ok(res) ==> {
                &&& res.merged_records@.len() == 0
                &&& final(self).records() == old(self).records()
                &&& final(self).tombstones() == old(self).tombstones()
                &&& final(self).branches() == old(self).branches()
            }),
            mergeable(old(self).branches(), branch_id@) ==> (r matches Ok(res) ==> {
                let b = old(self).branches()[branch_id@];
                let pid = b.parent->0@;
                &&& id_views(res.merged_records@) == b.changes.key_order()
                &&& forall|k: Seq<char>| #[trigger] id_views(res.merged_records@).contains(k) <==> b.changes@.dom().contains(k)
                &&& res.conflicts@.len() == 0
                &&& merged_records(old(self).records(), final(self).records(), branch_id@, pid, b.changes@.dom())
                &&& merged_branches(old(self).branches(), final(self).branches(), branch_id@, pid,
                    moved_set(old(self).records(), branch_id@, b.changes@.dom()))
                &&& final(self).tombstones() == (if old(self).tombstones().dom().contains(branch_id@) {
                    old(self).tombstones().remove(branch_id@).insert(pid,
                        tombs_of(old(self).tombstones().remove(branch_id@), pid) + old(self).tombstones()[branch_id@])
                } else {
                    old(self).tombstones()
                })
            }),
            final(self).namespaces() == old(self).namespaces(),
            final(self).schemas() == old(self).schemas(),
            final(self).log() == old(self).log(),
    {
        proof {
            use_type_invariant(&*self);
        }
        let branch = match self.branches.get(branch_id) {
            Some(b) => b.clone(),
            None => {
                return Err(StorageError::BranchNotFound(branch_id.to_string()));
            },
        };
        if branch.state != BranchState::Active {
            return Err(StorageError::BranchNotActive(branch_id.to_string()));
        }
        let parent_id = match &branch.parent {
            Some(p) => p.clone(),
            None => {
                return Err(StorageError::BranchNotFound(String::from_str("cannot merge main branch")));
            },
        };
        let _ = branch.changes.len();
        let ghost keys = branch.changes.key_order();
        let ghost pid = parent_id@;
        let ghost bid = branch_id@;
        let parent = match self.branches.get(parent_id.as_str()) {
            Some(parent) => parent,
            None => {
                return Err(StorageError::BranchNotFound(parent_id));
            },
        };
        let ghost target_dom = parent.changes@.dom();
        let merge_result = match branch.fast_forward_merge(parent) {
            Ok(m) => m,
            Err(e) => {
                return Err(StorageError::Core(e));
            },
        };
        let ghost in_target = |k: Seq<char>| target_dom.contains(k);
        let ghost not_in_target = |k: Seq<char>| !target_dom.contains(k);
        proof {
            assert(in_target =~= (|k: Seq<char>| parent.changes@.dom().contains(k)));
            assert(not_in_target =~= (|k: Seq<char>| !parent.changes@.dom().contains(k)));
            assert(conflict_ids(merge_result.conflicts@) == keys.filter(in_target));
            assert(id_views(merge_result.merged_records@) == keys.filter(not_in_target));
            lemma_filter_all_or_none(keys, in_target, not_in_target);
        }
        proof {
            assert forall|k: Seq<char>| #[trigger] conflict_ids(merge_result.conflicts@).contains(k)
                <==> merge_conflicts(old(self).branches(), branch_id@, k) by {}
            assert(parent.id@ == pid);
            assert(branch.id@ == bid);
            branch.changes.lemma_key_order_keys();
            assert(keys.no_duplicates());
        }
        if merge_result.conflicts.len() > 0 {
            proof {
                let c = keys.filter(in_target);
                assert(c.len() > 0);
                keys.lemma_filter_pred(in_target, 0);
                assert(c.contains(c[0]));
                keys.lemma_filter_contains_rev(in_target, c[0]);
                assert(branch.changes@.dom().contains(c[0]));
                assert(merge_conflicts(old(self).branches(), branch_id@, c[0]));
                assert(!mergeable(old(self).branches(), branch_id@));
            }
            return Ok(MergeResult { merged_records: Vec::new(), conflicts: merge_result.conflicts });
        }
        let ghost old_recs = self.records();
        let ghost old_branches = self.branches();
        let ghost dom = branch.changes@.dom();
        let ghost ms = id_views(merge_result.merged_records@);
        assert(ms == keys);
        proof {
            if pid == bid && keys.len() > 0 {
                assert(keys.contains(keys[0]));
                assert(branch.changes@.dom().contains(keys[0]));
                assert(target_dom.contains(keys[0]));
                assert(!in_target(keys[0]));
            }
        }
        let mut i: usize = 0;
        while i < merge_result.merged_records.len()
            invariant
                i <= merge_result.merged_records@.len(),
                ms == id_views(merge_result.merged_records@),
                ms.no_duplicates(),
                forall|k: Seq<char>| #[trigger] dom.contains(k) <==> ms.contains(k),
                pid == parent_id@,
                bid == branch_id@,
                old_branches.dom().contains(bid),
                old_branches.dom().contains(pid),
                pid != bid ==> forall|k: Seq<char>| dom.contains(k) ==> !old_branches[pid].changes@.dom().contains(k),
                pid == bid ==> ms.len() == 0,
                partly_merged(old_recs, self.records(), bid, pid, ms.take(i as int).to_set()),
                partly_merged_branches(old_branches, self.branches(), bid, pid,
                    moved_set(old_recs, bid, ms.take(i as int).to_set())),
                self.tombstones() == old(self).tombstones(),
                self.namespaces() == old(self).namespaces(),
                self.schemas() == old(self).schemas(),
                self.log() == old(self).log(),
            decreases merge_result.merged_records@.len() - i,
        {
            let rid = &merge_result.merged_records[i];
            proof {
                use_type_invariant(&*self);
                assert(ms[i as int] == rid@);
                let t0 = ms.take(i as int);
                let t1 = ms.take(i + 1);
                assert(t1 =~= t0.push(rid@));
                assert forall|x: Seq<char>| t1.to_set().contains(x) <==> t0.to_set().insert(rid@).contains(x) by {
                    if t1.contains(x) {
                        let j = choose|j: int| 0 <= j < t1.len() && t1[j] == x;
                        if j < t0.len() {
                            assert(t0[j] == x);
                        }
                    }
                    if t0.contains(x) {
                        let j = choose|j: int| 0 <= j < t0.len() && t0[j] == x;
                        assert(t1[j] == x);
                    }
                    if x == rid@ {
                        assert(t1[t0.len() as int] == x);
                    }
                }
                assert(t1.to_set() =~= t0.to_set().insert(rid@));
                assert(!ms.take(i as int).contains(rid@)) by {
                    if ms.take(i as int).contains(rid@) {
                        let j = choose|j: int| 0 <= j < i && ms.take(i as int)[j] == rid@;
                        assert(ms[j] == ms[i as int]);
                    }
                }
            }
            let ghost before_recs = self.records();
            let ghost before_branches = self.branches();
            match self.take_stored(branch_id, rid.as_str()) {
                Some(rec) => {
                    let ghost mid = self.records();
                    let ghost moved = rec;
                    self.put_stored(parent_id.as_str(), rid.clone(), rec);
                    self.note_change(parent_id.as_str(), rid.clone(), true);
                    proof {
                        assert(pid != bid);
                        assert forall|x: Seq<char>| x != bid && x != pid implies #[trigger] recs_of(self.records(), x)
                            == recs_of(before_recs, x) by {
                            assert(recs_of(mid, x) == recs_of(before_recs, x));
                        }
                        assert(recs_of(self.records(), bid) == recs_of(before_recs, bid).remove(rid@)) by {
                            assert(recs_of(mid, bid) == recs_of(before_recs, bid).remove(rid@));
                        }
                        assert(recs_of(self.records(), pid) == recs_of(before_recs, pid).insert(rid@, recs_of(before_recs, bid)[rid@])) by {
                            assert(recs_of(mid, pid) == recs_of(before_recs, pid));
                        }
                        lemma_merge_step_moved(old_recs, before_recs, self.records(), old_branches, before_branches,
                            self.branches(), bid, pid, ms.take(i as int).to_set(), rid@);
                    }
                },
                None => {
                    proof {
                        assert forall|x: Seq<char>| #[trigger] recs_of(self.records(), x) == recs_of(before_recs, x) by {
                            if x == bid {
                                assert(recs_of(before_recs, bid).remove(rid@) =~= recs_of(before_recs, bid));
                            }
                        }
                        lemma_merge_step_kept(old_recs, before_recs, self.records(), old_branches, before_branches,
                            self.branches(), bid, pid, ms.take(i as int).to_set(), rid@);
                    }
                },
            }
            i += 1;
        }
        proof {
            assert(ms.take(ms.len() as int) =~= ms);
            assert(ms.to_set() =~= dom) by {
                assert forall|k: Seq<char>| ms.to_set().contains(k) <==> dom.contains(k) by {}
            }
        }
        self.move_tombstones(branch_id, parent_id.as_str());
        let ghost b1 = self.branches();
        self.note_merged(branch_id);
        proof {
            let mv = moved_set(old_recs, bid, dom);
            assert(merged_records(old_recs, self.records(), bid, pid, dom));
            if pid == bid {
                assert(dom =~= Set::<Seq<char>>::empty());
                assert(mv =~= Set::<Seq<char>>::empty());
                assert(b1[bid].changes@ =~= old_branches[bid].changes@);
            }
            assert(merged_branches(old_branches, self.branches(), bid, pid, mv));
        }
        Ok(merge_result)
    }

    fn put_record(&mut self, record: Record, branch: &str) -> (r: Result<(), StorageError>)
        ensures
            !old(self).branches().dom().contains(branch@) ==> (r matches Err(StorageError::BranchNotFound(m)) && m@ == branch@),
            old(self).branches().dom().contains(branch@) && old(self).branches()[branch@].state != BranchState::Active
                ==> (r matches Err(StorageError::BranchNotActive(m)) && m@ == branch@),
            r matches Err(e) ==> e is BranchNotFound || e is BranchNotActive || e is Wal,
            r is Err ==> final(self).records() == old(self).records() && final(self).log() == old(self).log()
                && final(self).branches() == old(self).branches(),
            r is Ok ==> {
                &&& old(self).branches().dom().contains(branch@)
                &&& old(self).branches()[branch@].state == BranchState::Active
                &&& final(self).records() == old(self).records().insert(branch@,
                    recs_of(old(self).records(), branch@).insert(record.record_id@, record))
                &&& final(self).last_seq() == old(self).last_seq() + 1
                &&& final(self).log() == old(self).log().push((final(self).last_seq(), branch@, record.record_id@))
                &&& forall|i: int| 0 <= i < old(self).log().len() ==> (#[trigger] final(self).log()[i]).0 < final(self).last_seq()
                &&& final(self).branches().dom() == old(self).branches().dom()
                &&& same_but_changes(final(self).branches()[branch@], old(self).branches()[branch@])
                &&& final(self).branches()[branch@].changes@ == old(self).branches()[branch@].changes@.insert(record.record_id@, true)
                &&& forall|k: Seq<char>| k != branch@ && #[trigger] old(self).branches().dom().contains(k)
                    ==> final(self).branches()[k] == old(self).branches()[k]
            },
            r is Err ==> old(self).last_seq() == u64::MAX || !old(self).branches().dom().contains(branch@)
                || old(self).branches()[branch@].state != BranchState::Active,
            final(self).namespaces() == old(self).namespaces(),
            final(self).schemas() == old(self).schemas(),
            final(self).tombstones() == old(self).tombstones(),
    {
        proof {
            use_type_invariant(&*self);
        }
        match self.branches.get(branch) {
            Some(b) => {
                if b.state != BranchState::Active {
                    return Err(StorageError::BranchNotActive(branch.to_string()));
                }
            },
            None => {
                return Err(StorageError::BranchNotFound(branch.to_string()));
            },
        }
        if self.next_seq == u64::MAX {
            return Err(StorageError::Wal(String::from_str("write log is full")));
        }
        let record_id = record.record_id.clone();
        self.note_change(branch, record_id.clone(), true);
        self.put_stored(branch, record_id.clone(), record);
        proof {
            use_type_invariant(&*self);
        }
        let seq = self.next_seq + 1;
        self.next_seq = seq;
        let ghost before = self.write_log@;
        let mut log: Vec<LogEntry> = Vec::new();
        std::mem::swap(&mut log, &mut self.write_log);
        log.push(LogEntry { seq, branch: branch.to_string(), record_id });
        proof {
            assert forall|a: int, c: int| 0 <= a < c < log@.len() implies (#[trigger] log@[a]).seq < (#[trigger] log@[c]).seq by {
                if c < before.len() {
                    assert(before[a].seq < before[c].seq);
                } else {
                    assert(before[a].seq <= seq - 1);
                }
            }
        }
        self.write_log = log;
        proof {
            assert(self.log() =~= old(self).log().push((seq, branch@, record_id@)));
            assert forall|i: int| 0 <= i < old(self).log().len() implies (#[trigger] self.log()[i]).0 < self.last_seq() by {
                assert(self.log()[i].0 == before[i].seq);
            }
        }
        Ok(())
    }

    fn get_record(&self, record_id: &str, branch: &str) -> (r: Result<Option<Record>, StorageError>)
        ensures
            r matches Ok(o) && (o is Some <==> self.visible_from(record_id@, branch@, None, None) is Some)
                && (o matches Some(x) ==> same_record(x, self.visible_from(record_id@, branch@, None, None)->0)),
    {
        Ok(self.find_record_in_ancestry(record_id, branch))
    }

    fn has_record(&self, record_id: &str, branch: &str) -> (r: Result<bool, StorageError>)
        ensures
            r matches Ok(b) && b == self.visible_from(record_id@, branch@, None, None) is Some,
    {
        Ok(self.find_record_in_ancestry(record_id, branch).is_some())
    }

    fn list_records_by_schema(&self, schema: &str, branch: &str, limit: usize, offset: usize) -> (r: Result<Vec<Record>, StorageError>)
        ensures
            r matches Ok(v) && exists|all: Seq<Record>| lists_visible(all, self.records(), self.tombstones(),
                self.branches(), branch@, Some(schema@), None) && v@ == window(all, limit, offset),
    {
        let all = self.visible_newest_first(branch, Some(schema), None);
        let ghost whole = all@;
        let page = page_of(all, limit, offset);
        assert(lists_visible(whole, self.records(), self.tombstones(), self.branches(), branch@, Some(schema@), None));
        Ok(page)
    }

    fn list_records_by_namespace(&self, namespace: &str, branch: &str, limit: usize, offset: usize) -> (r: Result<Vec<Record>, StorageError>)
        ensures
            r matches Ok(v) && exists|all: Seq<Record>| lists_visible(all, self.records(), self.tombstones(),
                self.branches(), branch@, None, Some(namespace@)) && v@ == window(all, limit, offset),
    {
        let all = self.visible_newest_first(branch, None, Some(namespace));
        let ghost whole = all@;
        let page = page_of(all, limit, offset);
        assert(lists_visible(whole, self.records(), self.tombstones(), self.branches(), branch@, None, Some(namespace@)));
        Ok(page)
    }

    fn count_records_by_schema(&self, schema: &str, branch: &str) -> (r: Result<u64, StorageError>)
        ensures
            r matches Ok(n) && exists|all: Seq<Record>| lists_visible(all, self.records(), self.tombstones(),
                self.branches(), branch@, Some(schema@), None) && n == all.len(),
    {
        let all = self.visible_newest_first(branch, Some(schema), None);
        let n = all.len() as u64;
        assert(lists_visible(all@, self.records(), self.tombstones(), self.branches(), branch@, Some(schema@), None));
        assert(all@ == window(all@, usize::MAX, 0));
        Ok(n)
    }

    fn delete_record(&mut self, record_id: &str, branch: &str) -> (r: Result<(), StorageError>)
        ensures
            !old(self).branches().dom().contains(branch@) ==> (r matches Err(StorageError::BranchNotFound(m)) && m@ == branch@),
            old(self).branches().dom().contains(branch@) && old(self).branches()[branch@].state != BranchState::Active
                ==> (r matches Err(StorageError::BranchNotActive(m)) && m@ == branch@),
            r is Ok <==> old(self).branches().dom().contains(branch@) && old(self).branches()[branch@].state == BranchState::Active,
            r is Err ==> final(self).records() == old(self).records() && final(self).tombstones() == old(self).tombstones()
                && final(self).branches() == old(self).branches(),
            r is Ok ==> {
                &&& forall|b: Seq<char>| #[trigger] recs_of(final(self).records(), b) == if b == branch@ {
                    recs_of(old(self).records(), b).remove(record_id@)
                } else {
                    recs_of(old(self).records(), b)
                }
                &&& final(self).tombstones() == old(self).tombstones().insert(branch@,
                    tombs_of(old(self).tombstones(), branch@).push(record_id@))
                &&& final(self).branches().dom() == old(self).branches().dom()
                &&& same_but_changes(final(self).branches()[branch@], old(self).branches()[branch@])
                &&& final(self).branches()[branch@].changes@ == old(self).branches()[branch@].changes@.insert(record_id@, false)
                &&& forall|k: Seq<char>| k != branch@ && #[trigger] old(self).branches().dom().contains(k)
                    ==> final(self).branches()[k] == old(self).branches()[k]
            },
            final(self).namespaces() == old(self).namespaces(),
            final(self).schemas() == old(self).schemas(),
            final(self).log() == old(self).log(),
    {
        match self.branches.get(branch) {
            Some(b) => {
                if b.state != BranchState::Active {
                    return Err(StorageError::BranchNotActive(branch.to_string()));
                }
            },
            None => {
                return Err(StorageError::BranchNotFound(branch.to_string()));
            },
        }
        let _ = self.take_stored(branch, record_id);
        self.add_tombstone(branch, record_id.to_string());
        self.note_change(branch, record_id.to_string(), false);
        Ok(())
    }

    fn tail_records(&self, namespace: &str, after_seq: u64, limit: usize, branch_filter: Option<&str>) -> (r: Result<Vec<TailEntry>, StorageError>)
        ensures
            r matches Ok(v) && {
                let q = self.log().filter(|e: (u64, Seq<char>, Seq<char>)| tail_qualifies(self.records(), e, namespace@,
                    after_seq, opt_text(branch_filter)));
                &&& v@.len() == (if q.len() < limit { q.len() as int } else { limit as int })
                &&& forall|i: int| 0 <= i < v@.len() ==> (#[trigger] v@[i]).seq == q[i].0 && v@[i].branch@ == q[i].1
                    && same_record(v@[i].record, recs_of(self.records(), q[i].1)[q[i].2])
                &&& forall|i: int| 0 <= i < v@.len() ==> (#[trigger] v@[i]).seq > after_seq
                &&& forall|i: int, j: int| 0 <= i < j < v@.len() ==> (#[trigger] v@[i]).seq < (#[trigger] v@[j]).seq
            },
    {
        proof {
            use_type_invariant(self);
        }
        let ghost log = self.log();
        let ghost keep = |e: (u64, Seq<char>, Seq<char>)| tail_qualifies(self.records(), e, namespace@, after_seq,
            opt_text(branch_filter));
        let ghost q = log.filter(keep);
        let ghost n: int = limit as int;
        if limit == 0 {
            return Ok(Vec::new());
        }
        let mut out: Vec<TailEntry> = Vec::new();
        let mut i: usize = 0;
        proof {
            reveal(Seq::filter);
            assert(log.take(0).filter(keep) =~= Seq::<(u64, Seq<char>, Seq<char>)>::empty());
            log.lemma_filter_len(keep);
        }
        assert(log.take(log.len() as int) =~= log);
        while i < self.write_log.len()
            invariant_except_break
                out@.len() < n,
                out@.len() == log.take(i as int).filter(keep).len(),
                log.take(i as int).filter(keep) == q.take(out@.len() as int),
            invariant
                i <= self.write_log@.len(),
                log == self.log(),
                log.len() == self.write_log@.len(),
                log.take(log.len() as int) == log,
                keep == (|e: (u64, Seq<char>, Seq<char>)| tail_qualifies(self.records(), e, namespace@, after_seq,
                    opt_text(branch_filter))),
                q == log.filter(keep),
                n == limit as int,
                n > 0,
                out@.len() <= q.len(),
                forall|j: int| 0 <= j < out@.len() ==> (#[trigger] out@[j]).seq == q[j].0 && out@[j].branch@ == q[j].1
                    && same_record(out@[j].record, recs_of(self.records(), q[j].1)[q[j].2]),
            ensures
                out@.len() == (if q.len() < n { q.len() as int } else { n }),
                forall|j: int| 0 <= j < out@.len() ==> (#[trigger] out@[j]).seq == q[j].0 && out@[j].branch@ == q[j].1
                    && same_record(out@[j].record, recs_of(self.records(), q[j].1)[q[j].2]),
            decreases self.write_log@.len() - i,
        {
            let e = &self.write_log[i];
            let ghost ev = (e.seq, e.branch@, e.record_id@);
            proof {
                assert(log[i as int] == ev);
                assert(log.take(i + 1) =~= log.take(i as int).push(ev));
                log.take(i as int).lemma_filter_push(ev, keep);
                lemma_filter_prefix(log, keep, i + 1);
            }
            let mut qualifies = e.seq > after_seq;
            if qualifies {
                match branch_filter {
                    Some(b) => {
                        qualifies = str_equal(e.branch.as_str(), b);
                    },
                    None => {},
                }
            }
            if qualifies {
                match self.stored(e.branch.as_str(), e.record_id.as_str()) {
                    Some(rec) => {
                        if str_equal(rec.namespace.as_str(), namespace) {
                            let ghost k = out@.len() as int;
                            assert(keep(ev));
                            assert(log.take(i + 1).filter(keep) == log.take(i as int).filter(keep).push(ev));
                            assert(q.take(k + 1)[k] == ev);
                            assert(q[k] == ev);
                            out.push(TailEntry { seq: e.seq, branch: e.branch.clone(), record: rec.clone() });
                            proof {
                                assert(log.take(i + 1).filter(keep) =~= q.take(out@.len() as int));
                            }
                            if out.len() >= limit {
                                assert(out@.len() == (if q.len() < n { q.len() as int } else { n }));
                                break;
                            }
                        }
                    },
                    None => {},
                }
            }
            i += 1;
        }
        proof {
            assert forall|j: int| 0 <= j < out@.len() implies (#[trigger] out@[j]).seq > after_seq by {
                log.lemma_filter_pred(keep, j);
            }
            assert forall|a: int, c: int| 0 <= a < c < log.len() implies (#[trigger] log[a]).0 < (#[trigger] log[c]).0 by {
                assert(self.write_log@[a].seq < self.write_log@[c].seq);
            }
            lemma_filter_increasing(log, keep);
        }
        Ok(out)
    }
}

impl Default for MemoryEngine {
    fn default() -> (r: Self)
        ensures
            r.namespaces() == Map::<Seq<char>, Namespace>::empty(),
            r.branches() == Map::<Seq<char>, Branch>::empty(),
            r.records() == Map::<Seq<char>, Map<Seq<char>, Record>>::empty(),
    {
        MemoryEngine::new()
    }
}

} // verus!
