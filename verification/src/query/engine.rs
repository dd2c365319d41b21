//! The query engine: access-controlled queries over a storage engine,
//! run on the user's own device against the user's own data.

use vstd::prelude::*;
use vstd::string::*;
use crate::auth::access::{AccessDecision, AccessGate, permitted, query_grant, namespace_ids};
use crate::auth::consent::ConsentAction;
use crate::auth::delegation::DelegationScope;
use crate::crypto::identity::VerifyingKey;
use crate::error::QueryError;
use crate::json::str_equal;
use crate::namespace::Namespace;
use crate::query::cursor::Cursor;
use crate::query::filter::{Filter, filter_matches, lemma_filter_same_record};
use crate::query::query::{Query, QueryResult};
use crate::query::sort::{apply_sort, sorted_records, rearranges, sort_is_stable_rearrangement, records_order, order_consistent,
    sorted_stably, by_fields, SortField, lemma_order_same_content};
use crate::order::{Order, reverse_order};
use crate::record::{Record, opt_str_view};
use crate::storage::engine::StorageEngine;
use crate::storage::memory::{MemoryEngine, lists_visible, window};
use crate::sync::conflict::same_record;
use crate::strings::concat3;

verus! {

broadcast use vstd::std_specs::vec::group_vec_axioms, vstd::seq::group_seq_axioms;

/// The candidates that pass the filter, in their order.
pub open spec fn matching(cands: Seq<Record>, filter: Option<Filter>) -> Seq<Record> {
    match filter {
        Some(f) => cands.filter(|r: Record| filter_matches(f, r)),
        None => cands,
    }
}

/// The position of the first record with ID `id`.
pub open spec fn position_of(s: Seq<Record>, id: Seq<char>) -> Option<int>
    decreases s.len(),
{
    if s.len() == 0 {
        None
    } else if s[0].record_id@ == id {
        Some(0)
    } else {
        match position_of(s.drop_first(), id) {
            Some(p) => Some(p + 1),
            None => None,
        }
    }
}

/// The records after the cursor's record; all of them when the cursor is
/// absent or its record is not among them.
pub open spec fn after_cursor(s: Seq<Record>, after: Option<Cursor>) -> Seq<Record> {
    match after {
        Some(c) => match position_of(s, c.record_id@) {
            Some(p) => s.skip(p + 1),
            None => s,
        },
        None => s,
    }
}

/// The records after skipping `offset` of them.
pub open spec fn after_offset(s: Seq<Record>, offset: usize) -> Seq<Record> {
    if offset >= s.len() {
        Seq::empty()
    } else {
        s.skip(offset as int)
    }
}

/// The records that remain of `cands` for a query before the page limit:
/// filtered, sorted, after the cursor, after the offset.
pub open spec fn remaining(cands: Seq<Record>, query: Query) -> Seq<Record> {
    after_offset(after_cursor(sorted_records(matching(cands, query.filter), query.sort@), query.after), query.offset)
}

/// Whether `res` is the page of `cands` that `query` asks for.
pub open spec fn is_page(res: QueryResult, cands: Seq<Record>, query: Query) -> bool {
    let rest = remaining(cands, query);
    &&& res.total_count == matching(cands, query.filter).len()
    &&& res.has_more == (rest.len() > query.limit)
    &&& res.records@ == (if rest.len() > query.limit { rest.take(query.limit as int) } else { rest })
    &&& match res.next_cursor {
        Some(c) => res.has_more && query.limit > 0
            && c.record_id@ == rest[query.limit - 1].record_id@
            && c.created_at_ms == rest[query.limit - 1].created_at_ms,
        None => !res.has_more || query.limit == 0,
    }
}

proof fn lemma_position_of(s: Seq<Record>, id: Seq<char>, i: int)
    requires
        0 <= i <= s.len(),
        forall|j: int| 0 <= j < i ==> s[j].record_id@ != id,
    ensures
        i < s.len() && s[i].record_id@ == id ==> position_of(s, id) == Some(i),
        i == s.len() ==> position_of(s, id) is None,
    decreases i,
{
    if i > 0 {
        lemma_position_of(s.drop_first(), id, i - 1);
    } else if s.len() > 0 {
        if s.len() > 0 && s[0].record_id@ != id {
        }
    }
}

/// Whether no two records of `s` share an ID.
pub open spec fn distinct_ids(s: Seq<Record>) -> bool {
    forall|i: int, j: int| 0 <= i < j < s.len() ==> (#[trigger] s[i]).record_id@ != (#[trigger] s[j]).record_id@
}

proof fn lemma_filter_distinct_ids(s: Seq<Record>, keep: spec_fn(Record) -> bool)
    requires
        distinct_ids(s),
    ensures
        distinct_ids(s.filter(keep)),
    decreases s.len(),
{
    if s.len() > 0 {
        let s0 = s.drop_last();
        let x = s.last();
        assert(distinct_ids(s0)) by {
            assert forall|i: int, j: int| 0 <= i < j < s0.len() implies (#[trigger] s0[i]).record_id@
                != (#[trigger] s0[j]).record_id@ by {
                assert(s0[i] == s[i] && s0[j] == s[j]);
            }
        }
        lemma_filter_distinct_ids(s0, keep);
        assert(s0.push(x) =~= s);
        s0.lemma_filter_push(x, keep);
        if keep(x) {
            let f = s0.filter(keep);
            assert forall|i: int| 0 <= i < f.len() implies (#[trigger] f[i]).record_id@ != x.record_id@ by {
                s0.lemma_filter_contains_rev(keep, f[i]);
                assert(f.contains(f[i]));
                let j = choose|j: int| 0 <= j < s0.len() && s0[j] == f[i];
                assert(s[j] == f[i] && s[s.len() - 1] == x);
            }
            let g = f.push(x);
            assert forall|i: int, j: int| 0 <= i < j < g.len() implies (#[trigger] g[i]).record_id@
                != (#[trigger] g[j]).record_id@ by {
                if j < f.len() {
                    assert(g[i] == f[i] && g[j] == f[j]);
                } else {
                    assert(g[i] == f[i]);
                }
            }
        }
    }
}

proof fn lemma_rearranged_distinct_ids(out: Seq<Record>, s: Seq<Record>, p: Seq<int>)
    requires
        rearranges(out, s, p),
        distinct_ids(s),
    ensures
        distinct_ids(out),
{
    assert forall|i: int, j: int| 0 <= i < j < out.len() implies (#[trigger] out[i]).record_id@
        != (#[trigger] out[j]).record_id@ by {
        assert(out[i] == s[p[i]] && out[j] == s[p[j]]);
        assert(p[i] != p[j]);
        if p[i] < p[j] {
            assert(s[p[i]].record_id@ != s[p[j]].record_id@);
        } else {
            assert(s[p[j]].record_id@ != s[p[i]].record_id@);
        }
    }
}

/// The record IDs of `s`, in order.
pub open spec fn record_ids(s: Seq<Record>) -> Seq<Seq<char>> {
    s.map_values(|r: Record| r.record_id@)
}

/// A list of records with distinct IDs, each the same as what `vis` gives
/// for its ID and kept by `keep`, listing every ID for which `vis` gives a
/// kept record, has exactly those IDs.
proof fn lemma_listed_ids(
    g: Seq<Record>,
    vis: spec_fn(Seq<char>) -> Option<Record>,
    keep: spec_fn(Record) -> bool,
)
    requires
        distinct_ids(g),
        forall|i: int| 0 <= i < g.len() ==> (vis((#[trigger] g[i]).record_id@) matches Some(x) && same_record(g[i], x)
            && keep(x)),
        forall|rid: Seq<char>| (#[trigger] vis(rid)) matches Some(x) && keep(x) ==> exists|i: int| 0 <= i < g.len()
            && g[i].record_id@ == rid,
    ensures
        record_ids(g).no_duplicates(),
        record_ids(g).to_set() == Set::new(|rid: Seq<char>| vis(rid) matches Some(x) && keep(x)),
        g.len() == Set::new(|rid: Seq<char>| vis(rid) matches Some(x) && keep(x)).len(),
{
    let ids = record_ids(g);
    let v = Set::new(|rid: Seq<char>| vis(rid) matches Some(x) && keep(x));
    assert forall|i: int, j: int| 0 <= i < ids.len() && 0 <= j < ids.len() && i != j implies ids[i] != ids[j] by {
        if i < j {
            assert(g[i].record_id@ != g[j].record_id@);
        } else {
            assert(g[j].record_id@ != g[i].record_id@);
        }
    }
    assert forall|rid: Seq<char>| ids.to_set().contains(rid) <==> v.contains(rid) by {
        if ids.to_set().contains(rid) {
            assert(ids.contains(rid));
            let i = choose|i: int| 0 <= i < ids.len() && ids[i] == rid;
            assert(g[i].record_id@ == rid);
        }
        if v.contains(rid) {
            assert(vis(rid) matches Some(x) && keep(x));
            let i = choose|i: int| 0 <= i < g.len() && g[i].record_id@ == rid;
            assert(ids[i] == rid);
            assert(ids.contains(rid));
        }
    }
    assert(ids.to_set() =~= v);
    ids.unique_seq_to_set();
}

/// The filtered part of a listing of visible records satisfies
/// [`lemma_listed_ids`] with the filter as `keep`.
/// Whether `g` lists, each once, the records for which `vis` gives a
/// record kept by `keep`, each the same as what `vis` gives for its ID.
pub open spec fn lists_kept(g: Seq<Record>, vis: spec_fn(Seq<char>) -> Option<Record>, keep: spec_fn(Record) -> bool) -> bool {
    &&& distinct_ids(g)
    &&& forall|i: int| 0 <= i < g.len() ==> (vis((#[trigger] g[i]).record_id@) matches Some(x) && same_record(g[i], x)
        && keep(x))
    &&& forall|rid: Seq<char>| (#[trigger] vis(rid)) matches Some(x) && keep(x) ==> exists|i: int| 0 <= i < g.len()
        && g[i].record_id@ == rid
}

proof fn lemma_matching_kept(
    a: Seq<Record>,
    vis: spec_fn(Seq<char>) -> Option<Record>,
    filter: Option<Filter>,
)
    requires
        distinct_ids(a),
        forall|i: int| 0 <= i < a.len() ==> (vis((#[trigger] a[i]).record_id@) matches Some(x) && same_record(a[i], x)),
        forall|rid: Seq<char>| (#[trigger] vis(rid)) is Some ==> exists|i: int| 0 <= i < a.len() && a[i].record_id@ == rid,
    ensures
        lists_kept(matching(a, filter), vis, keep_of(filter)),
{
    let keep = keep_of(filter);
    let g = matching(a, filter);
    assert forall|i: int| 0 <= i < a.len() implies keep(#[trigger] a[i]) == keep(vis(a[i].record_id@)->0) by {
        if let Some(f) = filter {
            lemma_filter_same_record(f, a[i], vis(a[i].record_id@)->0);
        }
    }
    match filter {
        Some(f) => {
            let k = |r: Record| filter_matches(f, r);
            assert(g == a.filter(k));
            lemma_filter_distinct_ids(a, k);
            assert forall|j: int| 0 <= j < g.len() implies (vis((#[trigger] g[j]).record_id@) matches Some(x)
                && same_record(g[j], x) && keep(x)) by {
                a.lemma_filter_contains_rev(k, g[j]);
                assert(g.contains(g[j]));
                let i = choose|i: int| 0 <= i < a.len() && a[i] == g[j];
                a.lemma_filter_pred(k, j);
                assert(keep(a[i]));
            }
            assert forall|rid: Seq<char>| (#[trigger] vis(rid)) matches Some(x) && keep(x) implies exists|j: int|
                0 <= j < g.len() && g[j].record_id@ == rid by {
                let i = choose|i: int| 0 <= i < a.len() && a[i].record_id@ == rid;
                assert(keep(a[i]));
                a.lemma_filter_contains(k, i);
                assert(g.contains(a[i]));
            }
        },
        None => {},
    }
}

proof fn lemma_listing_matches(
    a: Seq<Record>,
    vis: spec_fn(Seq<char>) -> Option<Record>,
    filter: Option<Filter>,
)
    requires
        distinct_ids(a),
        forall|i: int| 0 <= i < a.len() ==> (vis((#[trigger] a[i]).record_id@) matches Some(x) && same_record(a[i], x)),
        forall|rid: Seq<char>| (#[trigger] vis(rid)) is Some ==> exists|i: int| 0 <= i < a.len() && a[i].record_id@ == rid,
    ensures
        matching(a, filter).len() == Set::new(|rid: Seq<char>| vis(rid) matches Some(x) && keep_of(filter)(x)).len(),
{
    lemma_matching_kept(a, vis, filter);
    lemma_listed_ids(matching(a, filter), vis, keep_of(filter));
}

/// What a filter keeps: every record where there is no filter.
pub open spec fn keep_of(filter: Option<Filter>) -> spec_fn(Record) -> bool {
    |r: Record| match filter {
        Some(f) => filter_matches(f, r),
        None => true,
    }
}

/// The visibility of record IDs from `branch` of `store` within a scope.
pub open spec fn visible_in(store: MemoryEngine, branch: Seq<char>, schema: Option<Seq<char>>, namespace: Option<
    Seq<char>,
>) -> spec_fn(Seq<char>) -> Option<Record> {
    |rid: Seq<char>| store.visible_from(rid, branch, schema, namespace)
}

proof fn lemma_window_whole(all: Seq<Record>)
    requires
        window(all, usize::MAX, 0).len() < usize::MAX,
    ensures
        window(all, usize::MAX, 0) == all,
{
    if all.len() > 0 {
        assert(all.skip(0) =~= all);
    } else {
        assert(all =~= Seq::<Record>::empty());
    }
}

proof fn lemma_whole_listing(store: MemoryEngine, branch: Seq<char>, schema: Option<Seq<char>>, namespace: Option<Seq<char>>, c: Seq<Record>, filter: Option<Filter>)
    requires
        store.lists(branch, schema, namespace, c, usize::MAX, 0),
        c.len() < usize::MAX,
    ensures
        matching(c, filter).len() == Set::new(|rid: Seq<char>| visible_in(store, branch, schema, namespace)(rid) matches Some(x)
            && keep_of(filter)(x)).len(),
        lists_kept(matching(c, filter), visible_in(store, branch, schema, namespace), keep_of(filter)),
{
    let all = choose|all: Seq<Record>| lists_visible(all, store.records(), store.tombstones(), store.branches(), branch,
        schema, namespace) && c == window(all, usize::MAX, 0);
    lemma_window_whole(all);
    lemma_visible_listing(store, branch, schema, namespace, c, filter);
}

proof fn lemma_visible_listing(store: MemoryEngine, branch: Seq<char>, schema: Option<Seq<char>>, namespace: Option<Seq<char>>, c: Seq<Record>, filter: Option<Filter>)
    requires
        lists_visible(c, store.records(), store.tombstones(), store.branches(), branch, schema, namespace),
    ensures
        matching(c, filter).len() == Set::new(|rid: Seq<char>| visible_in(store, branch, schema, namespace)(rid) matches Some(x)
            && keep_of(filter)(x)).len(),
        lists_kept(matching(c, filter), visible_in(store, branch, schema, namespace), keep_of(filter)),
{
    let vis = visible_in(store, branch, schema, namespace);
    assert forall|i: int| 0 <= i < c.len() implies (vis((#[trigger] c[i]).record_id@) matches Some(x) && same_record(c[i], x)) by {
        assert(store.visible_from(c[i].record_id@, branch, schema, namespace) matches Some(x) && same_record(c[i], x));
    }
    assert forall|rid: Seq<char>| (#[trigger] vis(rid)) is Some implies exists|i: int| 0 <= i < c.len() && c[i].record_id@ == rid by {
        assert(store.visible_from(rid, branch, schema, namespace) is Some);
    }
    assert(distinct_ids(c));
    lemma_listing_matches(c, vis, filter);
    lemma_matching_kept(c, vis, filter);
}

/// A count agrees with the total of the query's pages: over the in-memory
/// engine, any two listings of a query's scope on a branch (as `count` and
/// `execute` each fetch one) have as many records that pass the query's
/// filter (listings shorter than the machine's largest size).
pub proof fn count_agrees_with_total(store: MemoryEngine, query: Query, branch: Seq<char>, c1: Seq<Record>, c2: Seq<Record>)
    requires
        lists_scope(store, query, branch, c1),
        lists_scope(store, query, branch, c2),
        c1.len() < usize::MAX,
        c2.len() < usize::MAX,
    ensures
        matching(c1, query.filter).len() == matching(c2, query.filter).len(),
{
    let sc = candidate_scope(opt_str_view(query.schema), opt_str_view(query.namespace), branch);
    lemma_whole_listing(store, branch, sc.0, sc.1, c1, query.filter);
    lemma_whole_listing(store, branch, sc.0, sc.1, c2, query.filter);
}

/// Whether `n` is what counting `query` on `branch` of `store` gives: the
/// number of records of a listing of the query's scope that pass its filter.
pub open spec fn counted<S: StorageEngine>(store: S, query: Query, branch: Seq<char>, n: u64) -> bool {
    exists|cands: Seq<Record>| #[trigger] lists_scope(store, query, branch, cands) && n == matching(cands, query.filter).len()
}

/// Whether `res` is a page of `query` on `branch` of `store`: the page of a
/// listing of the query's scope.
pub open spec fn paged<S: StorageEngine>(store: S, query: Query, branch: Seq<char>, res: QueryResult) -> bool {
    exists|cands: Seq<Record>| #[trigger] lists_scope(store, query, branch, cands) && is_page(res, cands, query)
}

/// A count is the total of the query's pages: over the in-memory engine,
/// what `count` gives for a query equals the `total_count` of any page
/// that `execute` gives for it (where every listing of the scope is
/// shorter than the machine's largest size).
pub proof fn count_is_page_total(store: MemoryEngine, query: Query, branch: Seq<char>, n: u64, res: QueryResult)
    requires
        counted(store, query, branch, n),
        paged(store, query, branch, res),
        forall|c: Seq<Record>| #[trigger] lists_scope(store, query, branch, c) ==> c.len() < usize::MAX,
    ensures
        n == res.total_count,
{
    let c1 = choose|c: Seq<Record>| #[trigger] lists_scope(store, query, branch, c) && n == matching(c, query.filter).len();
    let c2 = choose|c: Seq<Record>| #[trigger] lists_scope(store, query, branch, c) && is_page(res, c, query);
    count_agrees_with_total(store, query, branch, c1, c2);
}

/// Whether the sort fields tell every two records of `s` apart.
pub open spec fn orders_strictly(s: Seq<Record>, fields: Seq<SortField>) -> bool {
    forall|i: int, j: int| 0 <= i < s.len() && 0 <= j < s.len() && i != j ==> #[trigger] records_order(s[i], s[j], fields)
        != Order::Equal
}

/// Sorting a list of kept records keeps it a list of the kept records.
proof fn lemma_sorted_kept(
    g: Seq<Record>,
    vis: spec_fn(Seq<char>) -> Option<Record>,
    keep: spec_fn(Record) -> bool,
    fields: Seq<SortField>,
) -> (p: Seq<int>)
    requires
        lists_kept(g, vis, keep),
    ensures
        rearranges(sorted_records(g, fields), g, p),
        lists_kept(sorted_records(g, fields), vis, keep),
        order_consistent(g, fields) ==> sorted_stably(sorted_records(g, fields), fields, p),
{
    let p = sort_is_stable_rearrangement(g, fields);
    let out = sorted_records(g, fields);
    lemma_rearranged_distinct_ids(out, g, p);
    assert forall|k: int| 0 <= k < out.len() implies (vis((#[trigger] out[k]).record_id@) matches Some(x) && same_record(
        out[k], x) && keep(x)) by {
        assert(out[k] == g[p[k]]);
    }
    let v = Set::new(|rid: Seq<char>| vis(rid) matches Some(x) && keep(x));
    lemma_listed_ids(g, vis, keep);
    let ids = record_ids(out);
    assert(ids.no_duplicates()) by {
        assert forall|i: int, j: int| 0 <= i < ids.len() && 0 <= j < ids.len() && i != j implies ids[i] != ids[j] by {
            if i < j {
                assert(out[i].record_id@ != out[j].record_id@);
            } else {
                assert(out[j].record_id@ != out[i].record_id@);
            }
        }
    }
    ids.unique_seq_to_set();
    assert(ids.to_set().subset_of(v)) by {
        assert forall|x: Seq<char>| ids.to_set().contains(x) implies v.contains(x) by {
            assert(ids.contains(x));
            let k = choose|k: int| 0 <= k < ids.len() && ids[k] == x;
            assert(out[k].record_id@ == x);
        }
    }
    assert(v.finite());
    vstd::set_lib::lemma_subset_equality(ids.to_set(), v);
    assert forall|rid: Seq<char>| (#[trigger] vis(rid)) matches Some(x) && keep(x) implies exists|k: int| 0 <= k
        < out.len() && out[k].record_id@ == rid by {
        assert(v.contains(rid));
        assert(ids.to_set().contains(rid));
        assert(ids.contains(rid));
        let k = choose|k: int| 0 <= k < ids.len() && ids[k] == rid;
        assert(out[k].record_id@ == rid);
    }
    p
}

/// Whether `s` is in strictly increasing order by the sort fields, which
/// compare its records oppositely in the two directions.
pub open spec fn strictly_sorted(s: Seq<Record>, fields: Seq<SortField>) -> bool {
    &&& forall|a: int, b: int| 0 <= a < b < s.len() ==> #[trigger] records_order(s[a], s[b], fields) == Order::Less
    &&& forall|i: int, j: int| 0 <= i < s.len() && 0 <= j < s.len() ==> #[trigger] records_order(s[i], s[j], fields)
        == reverse_order(records_order(s[j], s[i], fields))
}

proof fn lemma_strictly_sorted(m: Seq<Record>, out: Seq<Record>, fields: Seq<SortField>, p: Seq<int>)
    requires
        rearranges(out, m, p),
        sorted_stably(out, fields, p),
        order_consistent(m, fields),
        orders_strictly(m, fields),
    ensures
        strictly_sorted(out, fields),
{
    assert forall|a: int, b: int| 0 <= a < b < out.len() implies #[trigger] records_order(out[a], out[b], fields)
        == Order::Less by {
        assert(out[a] == m[p[a]] && out[b] == m[p[b]] && p[a] != p[b]);
        assert(by_fields(fields)(out[a], out[b]) != Order::Greater);
        assert(records_order(m[p[a]], m[p[b]], fields) != Order::Equal);
    }
    assert forall|i: int, j: int| 0 <= i < out.len() && 0 <= j < out.len() implies #[trigger] records_order(out[i], out[j],
        fields) == reverse_order(records_order(out[j], out[i], fields)) by {
        assert(out[i] == m[p[i]] && out[j] == m[p[j]]);
        assert(by_fields(fields)(m[p[i]], m[p[j]]) == reverse_order(by_fields(fields)(m[p[j]], m[p[i]])));
    }
}

/// Two strictly sorted lists of the same kept records agree position by
/// position.
proof fn lemma_strictly_sorted_agree(
    s1: Seq<Record>,
    s2: Seq<Record>,
    vis: spec_fn(Seq<char>) -> Option<Record>,
    keep: spec_fn(Record) -> bool,
    fields: Seq<SortField>,
    k: int,
)
    requires
        lists_kept(s1, vis, keep),
        lists_kept(s2, vis, keep),
        s1.len() == s2.len(),
        strictly_sorted(s1, fields),
        strictly_sorted(s2, fields),
        0 <= k < s1.len(),
    ensures
        same_record(s1[k], s2[k]),
    decreases k,
{
    let id1 = s1[k].record_id@;
    let id2 = s2[k].record_id@;
    assert(vis(id1) matches Some(x) && keep(x));
    let t = choose|t: int| 0 <= t < s2.len() && s2[t].record_id@ == id1;
    assert(vis(id2) matches Some(x) && keep(x));
    let u = choose|u: int| 0 <= u < s1.len() && s1[u].record_id@ == id2;
    if t == k {
        return;
    }
    if t < k {
        lemma_strictly_sorted_agree(s1, s2, vis, keep, fields, t);
        assert(s1[t].record_id@ == s1[k].record_id@);
        assert(false);
    }
    if u < k {
        lemma_strictly_sorted_agree(s1, s2, vis, keep, fields, u);
        assert(s2[u].record_id@ == s2[k].record_id@);
        assert(false);
    }
    if u == k {
        return;
    }
    // k < t and k < u: s1[k] < s1[u] ~ s2[k] < s2[t] ~ s1[k]
    assert(records_order(s1[k], s1[u], fields) == Order::Less);
    assert(records_order(s2[k], s2[t], fields) == Order::Less);
    assert(same_record(s1[u], s2[k]));
    assert(same_record(s1[k], s2[t]));
    lemma_order_same_content(s1[u], s2[k], s1[k], s2[t], fields);
    assert(records_order(s1[u], s1[k], fields) == reverse_order(records_order(s1[k], s1[u], fields)));
}

/// The sorted records of a listing of `query`'s scope, with what the
/// ordering laws need of them.
proof fn lemma_sorted_listing(store: MemoryEngine, query: Query, branch: Seq<char>, c: Seq<Record>)
    requires
        lists_scope(store, query, branch, c),
        c.len() < usize::MAX,
        order_consistent(matching(c, query.filter), query.sort@),
        orders_strictly(matching(c, query.filter), query.sort@),
    ensures
        ({
            let sc = candidate_scope(opt_str_view(query.schema), opt_str_view(query.namespace), branch);
            let sorted = sorted_records(matching(c, query.filter), query.sort@);
            &&& lists_kept(sorted, visible_in(store, branch, sc.0, sc.1), keep_of(query.filter))
            &&& strictly_sorted(sorted, query.sort@)
            &&& sorted.len() == Set::new(|rid: Seq<char>| visible_in(store, branch, sc.0, sc.1)(rid) matches Some(x)
                && keep_of(query.filter)(x)).len()
        }),
{
    let sc = candidate_scope(opt_str_view(query.schema), opt_str_view(query.namespace), branch);
    let m = matching(c, query.filter);
    lemma_whole_listing(store, branch, sc.0, sc.1, c, query.filter);
    let p = lemma_sorted_kept(m, visible_in(store, branch, sc.0, sc.1), keep_of(query.filter), query.sort@);
    lemma_strictly_sorted(m, sorted_records(m, query.sort@), query.sort@, p);
}

/// Paging continues across calls: over the in-memory engine, where the
/// query's sort tells the matching records apart, the first page of a
/// query (no cursor, no offset) and the page that the same query gives
/// after that page's next cursor, each from its own call, hold together,
/// in order, the records that lead the query's whole sorted result (from
/// any listing of its scope), and share no record.
pub proof fn pages_continue_across_calls(
    store: MemoryEngine,
    branch: Seq<char>,
    q1: Query,
    p1: QueryResult,
    q2: Query,
    p2: QueryResult,
    c: Seq<Record>,
)
    requires
        paged(store, q1, branch, p1),
        paged(store, q2, branch, p2),
        q1.after is None,
        q1.offset == 0,
        p1.next_cursor is Some,
        opt_str_view(q2.schema) == opt_str_view(q1.schema),
        opt_str_view(q2.namespace) == opt_str_view(q1.namespace),
        q2.filter == q1.filter,
        q2.sort@ == q1.sort@,
        q2.limit == q1.limit,
        q2.offset == 0,
        q2.after == p1.next_cursor,
        forall|c2: Seq<Record>| #[trigger] lists_scope(store, q1, branch, c2) ==> c2.len() < usize::MAX && order_consistent(
            matching(c2, q1.filter), q1.sort@) && orders_strictly(matching(c2, q1.filter), q1.sort@),
        lists_scope(store, q1, branch, c),
    ensures
        record_ids(p1.records@) + record_ids(p2.records@) == record_ids(sorted_records(matching(c, q1.filter), q1.sort@)).take(
            p1.records@.len() + p2.records@.len() as int),
        forall|i: int, j: int| 0 <= i < p1.records@.len() && 0 <= j < p2.records@.len()
            ==> (#[trigger] p1.records@[i]).record_id@ != (#[trigger] p2.records@[j]).record_id@,
{
    let sc = candidate_scope(opt_str_view(q1.schema), opt_str_view(q1.namespace), branch);
    let vis = visible_in(store, branch, sc.0, sc.1);
    let keep = keep_of(q1.filter);
    let c1 = choose|x: Seq<Record>| #[trigger] lists_scope(store, q1, branch, x) && is_page(p1, x, q1);
    let c2 = choose|x: Seq<Record>| #[trigger] lists_scope(store, q2, branch, x) && is_page(p2, x, q2);
    assert(lists_scope(store, q1, branch, c2));
    lemma_sorted_listing(store, q1, branch, c1);
    lemma_sorted_listing(store, q1, branch, c2);
    lemma_sorted_listing(store, q1, branch, c);
    let s1 = sorted_records(matching(c1, q1.filter), q1.sort@);
    let s2 = sorted_records(matching(c2, q1.filter), q1.sort@);
    let s = sorted_records(matching(c, q1.filter), q1.sort@);
    assert forall|k: int| 0 <= k < s.len() implies (#[trigger] s1[k]).record_id@ == s[k].record_id@
        && s2[k].record_id@ == s[k].record_id@ by {
        lemma_strictly_sorted_agree(s1, s, vis, keep, q1.sort@, k);
        lemma_strictly_sorted_agree(s2, s, vis, keep, q1.sort@, k);
    }
    lemma_pages_of_agreeing(c1, q1, p1, c2, q2, p2, s);
}

/// The page algebra of [`pages_continue_across_calls`], over the sorted
/// results of the two calls, which agree by ID with `s`.
proof fn lemma_pages_of_agreeing(c1: Seq<Record>, q1: Query, p1: QueryResult, c2: Seq<Record>, q2: Query, p2: QueryResult, s: Seq<Record>)
    requires
        is_page(p1, c1, q1),
        is_page(p2, c2, q2),
        q1.after is None,
        q1.offset == 0,
        p1.next_cursor is Some,
        q2.filter == q1.filter,
        q2.sort@ == q1.sort@,
        q2.limit == q1.limit,
        q2.offset == 0,
        q2.after == p1.next_cursor,
        sorted_records(matching(c1, q1.filter), q1.sort@).len() == s.len(),
        sorted_records(matching(c2, q1.filter), q1.sort@).len() == s.len(),
        distinct_ids(s),
        forall|k: int| 0 <= k < s.len() ==> (#[trigger] sorted_records(matching(c1, q1.filter), q1.sort@)[k]).record_id@
            == s[k].record_id@ && sorted_records(matching(c2, q1.filter), q1.sort@)[k].record_id@ == s[k].record_id@,
    ensures
        record_ids(p1.records@) + record_ids(p2.records@) == record_ids(s).take(p1.records@.len() + p2.records@.len() as int),
        forall|i: int, j: int| 0 <= i < p1.records@.len() && 0 <= j < p2.records@.len()
            ==> (#[trigger] p1.records@[i]).record_id@ != (#[trigger] p2.records@[j]).record_id@,
{
    let s1 = sorted_records(matching(c1, q1.filter), q1.sort@);
    let s2 = sorted_records(matching(c2, q1.filter), q1.sort@);
    let lim = q1.limit as int;
    assert(remaining(c1, q1) =~= s1);
    assert(p1.records@ == s1.take(lim));
    let cur = p1.next_cursor->0;
    assert(cur.record_id@ == s1[lim - 1].record_id@);
    assert(s2[lim - 1].record_id@ == cur.record_id@);
    assert forall|j: int| 0 <= j < lim - 1 implies s2[j].record_id@ != cur.record_id@ by {
        assert(s1[j].record_id@ == s[j].record_id@ && s2[j].record_id@ == s[j].record_id@);
        assert(s1[lim - 1].record_id@ == s[lim - 1].record_id@);
        assert(s[j].record_id@ != s[lim - 1].record_id@);
    }
    lemma_position_of(s2, cur.record_id@, lim - 1);
    assert(remaining(c2, q2) =~= s2.skip(lim));
    let rest2 = s2.skip(lim);
    assert(p2.records@.len() <= rest2.len());
    assert(p2.records@ =~= rest2.take(p2.records@.len() as int));
    let n = p1.records@.len() + p2.records@.len();
    assert forall|k: int| 0 <= k < n implies (record_ids(p1.records@) + record_ids(p2.records@))[k] == record_ids(s).take(
        n as int)[k] by {
        assert(s1[k].record_id@ == s[k].record_id@ && s2[k].record_id@ == s[k].record_id@);
        assert(record_ids(s).take(n as int)[k] == s[k].record_id@);
        if k < lim {
            assert(p1.records@[k] == s1[k]);
            assert((record_ids(p1.records@) + record_ids(p2.records@))[k] == record_ids(p1.records@)[k]);
        } else {
            assert(p2.records@[k - lim] == s2[k]);
            assert((record_ids(p1.records@) + record_ids(p2.records@))[k] == record_ids(p2.records@)[k - lim]);
        }
    }
    assert(record_ids(p1.records@) + record_ids(p2.records@) =~= record_ids(s).take(n as int));
    assert forall|i: int, j: int| 0 <= i < p1.records@.len() && 0 <= j < p2.records@.len() implies
        (#[trigger] p1.records@[i]).record_id@ != (#[trigger] p2.records@[j]).record_id@ by {
        assert(p1.records@[i] == s1[i] && p2.records@[j] == s2[lim + j]);
        assert(s1[i].record_id@ == s[i].record_id@);
        assert(s1[lim + j].record_id@ == s[lim + j].record_id@ && s2[lim + j].record_id@ == s[lim + j].record_id@);
        assert(s[i].record_id@ != s[lim + j].record_id@);
    }
}

/// Paging with the cursor continues where the previous page stopped: over
/// candidates with distinct IDs, the first page of a query (no cursor, no
/// offset) and the page that the same query gives after that page's next
/// cursor hold together the leading records of the whole sorted result,
/// in order, and share no record.
pub proof fn next_page_continues(cands: Seq<Record>, q1: Query, p1: QueryResult, q2: Query, p2: QueryResult)
    requires
        distinct_ids(cands),
        is_page(p1, cands, q1),
        is_page(p2, cands, q2),
        q1.after is None,
        q1.offset == 0,
        p1.next_cursor is Some,
        q2.filter == q1.filter,
        q2.sort@ == q1.sort@,
        q2.limit == q1.limit,
        q2.offset == 0,
        q2.after == p1.next_cursor,
    ensures
        p1.records@ + p2.records@ == sorted_records(matching(cands, q1.filter), q1.sort@).take(
            p1.records@.len() + p2.records@.len() as int),
        forall|i: int, j: int| 0 <= i < p1.records@.len() && 0 <= j < p2.records@.len()
            ==> (#[trigger] p1.records@[i]).record_id@ != (#[trigger] p2.records@[j]).record_id@,
{
    let m = matching(cands, q1.filter);
    let all = sorted_records(m, q1.sort@);
    match q1.filter {
        Some(f) => {
            lemma_filter_distinct_ids(cands, |r: Record| filter_matches(f, r));
        },
        None => {},
    }
    let p = sort_is_stable_rearrangement(m, q1.sort@);
    lemma_rearranged_distinct_ids(all, m, p);
    let lim = q1.limit as int;
    assert(remaining(cands, q1) =~= all);
    assert(p1.records@ == all.take(lim));
    let c = p1.next_cursor->0;
    assert(c.record_id@ == all[lim - 1].record_id@);
    assert forall|j: int| 0 <= j < lim - 1 implies all[j].record_id@ != c.record_id@ by {
        assert(all[j].record_id@ != all[lim - 1].record_id@);
    }
    lemma_position_of(all, c.record_id@, lim - 1);
    assert(after_cursor(all, q2.after) == all.skip(lim));
    let rest2 = all.skip(lim);
    assert(remaining(cands, q2) == (if 0 >= rest2.len() { Seq::<Record>::empty() } else { rest2 }));
    assert(remaining(cands, q2) =~= rest2);
    assert(p2.records@.len() <= rest2.len());
    assert(p2.records@ =~= rest2.take(p2.records@.len() as int));
    assert(p1.records@ + p2.records@ =~= all.take(lim + p2.records@.len()));
    assert forall|i: int, j: int| 0 <= i < p1.records@.len() && 0 <= j < p2.records@.len() implies
        (#[trigger] p1.records@[i]).record_id@ != (#[trigger] p2.records@[j]).record_id@ by {
        assert(p1.records@[i] == all[i] && p2.records@[j] == all[lim + j]);
    }
}

/// Filters, sorts and pages candidate records for a query: keeps those
/// that pass the filter, counts them, sorts them by the sort fields,
/// resumes after the cursor's record (from the start when it is not
/// found), skips the offset and cuts the page at the limit. The next
/// cursor marks the page's last record when more follow.
pub fn filter_sort_paginate(candidates: Vec<Record>, query: &Query) -> (r: Result<QueryResult, QueryError>)
    ensures
        r matches Ok(res) && is_page(res, candidates@, *query),
{
    let ghost cands = candidates@;
    let mut filtered: Vec<Record> = Vec::new();
    match &query.filter {
        Some(f) => {
            let ghost keep = |r: Record| filter_matches(*f, r);
            let mut rest = candidates;
            let ghost mut n: int = 0;
            proof {
                reveal(Seq::filter);
                assert(cands.take(0).filter(keep) =~= Seq::<Record>::empty());
            }
            while rest.len() > 0
                invariant
                    keep == (|r: Record| filter_matches(*f, r)),
                    0 <= n <= cands.len(),
                    rest@ == cands.skip(n),
                    filtered@ == cands.take(n).filter(keep),
                decreases rest@.len(),
            {
                let r = rest.remove(0);
                assert(r == cands[n]);
                proof {
                    assert(cands.take(n + 1) =~= cands.take(n).push(cands[n]));
                    cands.take(n).lemma_filter_push(cands[n], keep);
                }
                if f.matches(&r) {
                    filtered.push(r);
                }
                proof {
                    n = n + 1;
                    assert(rest@ =~= cands.skip(n));
                }
            }
            assert(cands.take(n) =~= cands);
        },
        None => {
            filtered = candidates;
        },
    }
    assert(filtered@ == matching(cands, query.filter));
    let total_count = filtered.len() as u64;
    apply_sort(&mut filtered, query.sort.as_slice());
    let ghost sorted = filtered@;
    match &query.after {
        Some(cursor) => {
            let mut i: usize = 0;
            let mut found = false;
            while i < filtered.len()
                invariant_except_break
                    i <= filtered@.len(),
                    forall|j: int| 0 <= j < i ==> filtered@[j].record_id@ != cursor.record_id@,
                    !found,
                ensures
                    i <= filtered@.len(),
                    forall|j: int| 0 <= j < i ==> filtered@[j].record_id@ != cursor.record_id@,
                    found ==> i < filtered@.len() && filtered@[i as int].record_id@ == cursor.record_id@,
                    !found ==> i == filtered@.len(),
                decreases filtered@.len() - i,
            {
                if str_equal(filtered[i].record_id.as_str(), cursor.record_id.as_str()) {
                    found = true;
                    break;
                }
                i += 1;
            }
            proof {
                lemma_position_of(filtered@, cursor.record_id@, i as int);
            }
            if found && i < filtered.len() {
                let tail = filtered.split_off(i + 1);
                filtered = tail;
            }
        },
        None => {},
    }
    assert(filtered@ == after_cursor(sorted, query.after));
    let ghost cursored = filtered@;
    if query.offset >= filtered.len() {
        filtered.clear();
    } else if query.offset > 0 {
        let tail = filtered.split_off(query.offset);
        filtered = tail;
    }
    assert(filtered@ =~= after_offset(cursored, query.offset));
    let ghost rest = filtered@;
    assert(rest == remaining(cands, *query));
    let has_more = filtered.len() > query.limit;
    filtered.truncate(query.limit);
    assert(filtered@ == (if rest.len() > query.limit { rest.take(query.limit as int) } else { rest }));
    let next_cursor = if has_more && query.limit > 0 {
        let last = &filtered[query.limit - 1];
        assert(*last == rest[query.limit - 1]);
        Some(Cursor::new(last.record_id.clone(), last.created_at_ms))
    } else {
        None
    };
    let res = QueryResult { records: filtered, total_count, next_cursor, has_more };
    assert(is_page(res, cands, *query));
    Ok(res)
}

/// The text of `branch` before its first `'/'`: the namespace of a branch ID.
pub open spec fn branch_namespace(branch: Seq<char>) -> Seq<char>
    decreases branch.len(),
{
    if branch.len() == 0 {
        branch
    } else if branch[0] == '/' {
        Seq::empty()
    } else {
        seq![branch[0]] + branch_namespace(branch.drop_first())
    }
}

proof fn lemma_branch_namespace(b: Seq<char>, i: int)
    requires
        0 <= i <= b.len(),
        forall|j: int| 0 <= j < i ==> b[j] != '/',
        i == b.len() || b[i] == '/',
    ensures
        branch_namespace(b) == b.subrange(0, i),
    decreases i,
{
    if i > 0 {
        lemma_branch_namespace(b.drop_first(), i - 1);
        assert(b.subrange(0, i) =~= seq![b[0]] + b.drop_first().subrange(0, i - 1));
    } else {
        assert(b.subrange(0, 0) =~= Seq::<char>::empty());
    }
}

/// The namespace of a branch ID: its text before the first `'/'`.
pub fn namespace_of_branch(branch: &str) -> (r: &str)
    ensures
        r@ == branch_namespace(branch@),
{
    let n = branch.unicode_len();
    let mut i: usize = 0;
    while i < n
        invariant
            n == branch@.len(),
            i <= n,
            forall|j: int| 0 <= j < i ==> branch@[j] != '/',
        ensures
            i <= n,
            forall|j: int| 0 <= j < i ==> branch@[j] != '/',
            i == n || branch@[i as int] == '/',
        decreases n - i,
    {
        if branch.get_char(i) == '/' {
            break;
        }
        i += 1;
    }
    proof {
        lemma_branch_namespace(branch@, i as int);
    }
    branch.substring_char(0, i)
}

/// The namespace a single-namespace query is about: the query's own, or
/// the namespace of the branch.
pub open spec fn query_namespace(query: Query, branch: Seq<char>) -> Seq<char> {
    match query.namespace {
        Some(n) => n@,
        None => branch_namespace(branch),
    }
}

/// The listing scope (schema, namespace) of a query's candidates: the
/// schema when the query names one, else the namespace given, else the
/// namespace of the branch.
pub open spec fn candidate_scope(schema: Option<Seq<char>>, namespace: Option<Seq<char>>, branch: Seq<char>) -> (
    Option<Seq<char>>,
    Option<Seq<char>>,
) {
    match schema {
        Some(sc) => (Some(sc), None),
        None => match namespace {
            Some(n) => (None, Some(n)),
            None => (None, Some(branch_namespace(branch))),
        },
    }
}

/// Whether `requester` may read namespace `ns`, whose owner is `owner`
/// (`None` when the namespace does not exist).
pub open spec fn may_read(gate: AccessGate, owner: Option<Seq<u8>>, requester: Seq<u8>, ns: Seq<char>, now_ms: u64) -> bool {
    owner matches Some(o) && permitted(gate.consents@, gate.delegations@, requester, o, ns, now_ms,
        ConsentAction::CrossNamespaceRead, DelegationScope::ReadNamespace)
}

/// Whether `cands` is what `store` lists, whole, for the scope of `query`
/// on `branch`.
pub open spec fn lists_scope<S: StorageEngine>(store: S, query: Query, branch: Seq<char>, cands: Seq<Record>) -> bool {
    let sc = candidate_scope(opt_str_view(query.schema), opt_str_view(query.namespace), branch);
    store.lists(branch, sc.0, sc.1, cands, usize::MAX, 0)
}

/// Whether `part` is what `store` lists, whole, for `query` on one
/// `(namespace, branch)` pair of a cross-namespace query.
pub open spec fn lists_pair<S: StorageEngine>(store: S, query: Query, pair: (&str, &str), part: Seq<Record>) -> bool {
    let sc = candidate_scope(opt_str_view(query.schema), Some(pair.0@), pair.1@);
    store.lists(pair.1@, sc.0, sc.1, part, usize::MAX, 0)
}

/// The namespace IDs of `(namespace, branch)` pairs.
pub open spec fn pair_namespaces(pairs: Seq<(&str, &str)>) -> Seq<Seq<char>> {
    pairs.map_values(|p: (&str, &str)| p.0@)
}

/// The query engine: a storage engine behind an access gate.
pub struct QueryEngine<'a, S: StorageEngine> {
    storage: &'a S,
    access: &'a AccessGate,
}

impl<'a, S: StorageEngine> QueryEngine<'a, S> {
    /// The access gate the engine checks.
    pub closed spec fn gate(&self) -> AccessGate {
        *self.access
    }

    /// The storage the engine reads.
    pub closed spec fn store(&self) -> S {
        *self.storage
    }

    /// An engine over `storage`, checked by `access`.
    pub fn new(storage: &'a S, access: &'a AccessGate) -> (r: QueryEngine<'a, S>)
        ensures
            r.gate() == *access,
            r.store() == *storage,
    {
        QueryEngine { storage, access }
    }

    /// Candidate records for a query scope, from the most specific index.
    fn fetch_candidates(&self, schema: &Option<String>, namespace: &Option<String>, branch: &str) -> (r: Result<
        Vec<Record>,
        QueryError,
    >)
        ensures
            self.store().obeys_storage_spec() ==> (r matches Ok(v) ==> self.store().lists(branch@, candidate_scope(opt_str_view(*schema),
                opt_str_view(*namespace), branch@).0, candidate_scope(opt_str_view(*schema), opt_str_view(*namespace),
                branch@).1, v@, usize::MAX, 0)),
            r matches Err(e) ==> e is Storage,
            self.store().obeys_storage_spec() ==> r is Ok,
    {
        let listed = match schema {
            Some(s) => self.storage.list_records_by_schema(s.as_str(), branch, usize::MAX, 0),
            None => match namespace {
                Some(n) => self.storage.list_records_by_namespace(n.as_str(), branch, usize::MAX, 0),
                None => self.storage.list_records_by_namespace(namespace_of_branch(branch), branch, usize::MAX, 0),
            },
        };
        match listed {
            Ok(records) => Ok(records),
            Err(e) => Err(QueryError::Storage(e)),
        }
    }

    /// The namespace a query is about, checked for read access.
    fn checked_namespace(&self, query: &Query, requester: &VerifyingKey, branch: &str, now_ms: u64) -> (r: Result<
        (),
        QueryError,
    >)
        ensures
            self.store().obeys_storage_spec() ==> (r is Ok <==> may_read(self.gate(), self.store().namespace_owner(query_namespace(*query, branch@)),
                requester@, query_namespace(*query, branch@), now_ms)),
            r matches Err(e) ==> (e is Storage || e is NamespaceNotFound || e is AccessDenied),
            self.store().obeys_storage_spec() ==> !(r matches Err(QueryError::Storage(_))),
            r matches Err(QueryError::AccessDenied(m)) ==> m@ == "read access denied for namespace '"@
                + query_namespace(*query, branch@) + "'"@,
            self.store().obeys_storage_spec() ==> (r matches Err(QueryError::AccessDenied(_)) ==> self.store().namespace_owner(
                query_namespace(*query, branch@)) is Some && !may_read(self.gate(), self.store().namespace_owner(
                query_namespace(*query, branch@)), requester@, query_namespace(*query, branch@), now_ms)),
            r matches Err(QueryError::NamespaceNotFound(m)) ==> m@ == query_namespace(*query, branch@),
            self.store().obeys_storage_spec() ==> (r matches Err(QueryError::NamespaceNotFound(_))
                ==> self.store().namespace_owner(query_namespace(*query, branch@)) is None),
    {
        let namespace_id: &str = match &query.namespace {
            Some(n) => n.as_str(),
            None => namespace_of_branch(branch),
        };
        let namespace = match self.storage.get_namespace(namespace_id) {
            Ok(Some(ns)) => ns,
            Ok(None) => {
                return Err(QueryError::NamespaceNotFound(String::from_str(namespace_id)));
            },
            Err(e) => {
                return Err(QueryError::Storage(e));
            },
        };
        let decision = self.access.check_read(requester, &namespace, now_ms);
        if !decision.is_allowed() {
            return Err(QueryError::AccessDenied(concat3("read access denied for namespace '", namespace_id, "'")));
        }
        Ok(())
    }

    /// Runs a query within one namespace on a branch, after checking that
    /// the requester may read the namespace (the query's, or else the
    /// branch's). The page is [`filter_sort_paginate`] of the records the
    /// storage lists for the query's scope.
    pub fn execute(&self, query: &Query, requester: &VerifyingKey, branch: &str, now_ms: u64) -> (r: Result<
        QueryResult,
        QueryError,
    >)
        ensures
            self.store().obeys_storage_spec() ==> (r is Ok <==> may_read(self.gate(), self.store().namespace_owner(query_namespace(*query, branch@)),
                requester@, query_namespace(*query, branch@), now_ms)),
            r matches Ok(res) ==> exists|cands: Seq<Record>| (self.store().obeys_storage_spec() ==> lists_scope(self.store(), *query, branch@,
                cands)) && is_page(res, cands, *query),
            self.store().obeys_storage_spec() ==> (r matches Ok(res) ==> paged(self.store(), *query, branch@, res)),
            r matches Err(e) ==> (e is Storage || e is NamespaceNotFound || e is AccessDenied),
            self.store().obeys_storage_spec() ==> !(r matches Err(QueryError::Storage(_))),
            r matches Err(QueryError::AccessDenied(m)) ==> m@ == "read access denied for namespace '"@
                + query_namespace(*query, branch@) + "'"@,
            self.store().obeys_storage_spec() ==> (r matches Err(QueryError::AccessDenied(_)) ==> self.store().namespace_owner(
                query_namespace(*query, branch@)) is Some && !may_read(self.gate(), self.store().namespace_owner(
                query_namespace(*query, branch@)), requester@, query_namespace(*query, branch@), now_ms)),
            r matches Err(QueryError::NamespaceNotFound(m)) ==> m@ == query_namespace(*query, branch@),
            self.store().obeys_storage_spec() ==> (r matches Err(QueryError::NamespaceNotFound(_))
                ==> self.store().namespace_owner(query_namespace(*query, branch@)) is None),
    {
        match self.checked_namespace(query, requester, branch, now_ms) {
            Ok(()) => {},
            Err(e) => {
                return Err(e);
            },
        }
        let candidates = match self.fetch_candidates(&query.schema, &query.namespace, branch) {
            Ok(c) => c,
            Err(e) => {
                return Err(e);
            },
        };
        let ghost cands = candidates@;
        let r = filter_sort_paginate(candidates, query);
        proof {
            assert(r matches Ok(res) ==> is_page(res, cands, *query));
        }
        r
    }

    /// Runs a query across several `(namespace, branch)` pairs for an agent,
    /// after checking that one delegation lets the agent query all of
    /// them. The candidates of all pairs are merged, then filtered, sorted
    /// and paged together.
    pub fn execute_cross_namespace(&self, query: &Query, agent: &VerifyingKey, namespaces: &[(&str, &str)], now_ms: u64) -> (r:
        Result<QueryResult, QueryError>)
        ensures
            self.store().obeys_storage_spec() ==> (r is Ok <==> (forall|j: int| 0 <= j < namespaces@.len()
                ==> #[trigger] self.store().namespace_owner(pair_namespaces(namespaces@)[j]) is Some)
                && exists|i: int| 0 <= i < self.gate().delegations@.len()
                && #[trigger] query_grant(self.gate().delegations@[i], agent@, pair_namespaces(namespaces@), now_ms)),
            self.store().obeys_storage_spec() ==> (r is Ok ==> forall|j: int| 0 <= j < namespaces@.len()
                ==> #[trigger] self.store().namespace_owner(pair_namespaces(namespaces@)[j]) is Some),
            self.store().obeys_storage_spec() ==> (r is Ok ==> exists|i: int| 0 <= i < self.gate().delegations@.len()
                && #[trigger] query_grant(self.gate().delegations@[i], agent@, pair_namespaces(namespaces@), now_ms)),
            r matches Ok(res) ==> exists|parts: Seq<Seq<Record>>| parts.len() == namespaces@.len()
                && (self.store().obeys_storage_spec() ==> forall|j: int| 0 <= j < parts.len() ==> #[trigger] lists_pair(self.store(), *query,
                namespaces@[j], parts[j])) && is_page(res, parts.flatten(), *query),
            r matches Err(e) ==> (e is Storage || e is NamespaceNotFound || e is AccessDenied),
            self.store().obeys_storage_spec() ==> !(r matches Err(QueryError::Storage(_))),
            r matches Err(QueryError::NamespaceNotFound(m)) ==> pair_namespaces(namespaces@).contains(m@)
                && (self.store().obeys_storage_spec() ==> self.store().namespace_owner(m@) is None),
            r matches Err(QueryError::AccessDenied(m)) ==> m@ == "cross-namespace query denied"@,
            self.store().obeys_storage_spec() ==> (r matches Err(QueryError::AccessDenied(_)) ==> (forall|j: int| 0 <= j < namespaces@.len()
                ==> #[trigger] self.store().namespace_owner(pair_namespaces(namespaces@)[j]) is Some)
                && !exists|i: int| 0 <= i < self.gate().delegations@.len()
                && #[trigger] query_grant(self.gate().delegations@[i], agent@, pair_namespaces(namespaces@), now_ms)),
    {
        let ghost ids = pair_namespaces(namespaces@);
        let mut ns_objects: Vec<Namespace> = Vec::new();
        let mut i: usize = 0;
        while i < namespaces.len()
            invariant
                i <= namespaces@.len(),
                ns_objects@.len() == i,
                ids == pair_namespaces(namespaces@),
                ids.len() == namespaces@.len(),
                forall|j: int| 0 <= j < i ==> (self.store().obeys_storage_spec() ==> (#[trigger] ns_objects@[j]).id@ == ids[j]
                    && self.store().namespace_owner(ids[j]) is Some),
            decreases namespaces@.len() - i,
        {
            let (ns_id, _) = namespaces[i];
            assert(ids[i as int] == ns_id@);
            match self.storage.get_namespace(ns_id) {
                Ok(Some(ns)) => ns_objects.push(ns),
                Ok(None) => {
                    assert(ids.contains(ns_id@)) by {
                        assert(ids[i as int] == ns_id@);
                    }
                    return Err(QueryError::NamespaceNotFound(String::from_str(ns_id)));
                },
                Err(e) => {
                    return Err(QueryError::Storage(e));
                },
            }
            i += 1;
        }
        let mut refs: Vec<&Namespace> = Vec::new();
        let mut k: usize = 0;
        while k < ns_objects.len()
            invariant
                k <= ns_objects@.len(),
                refs@.len() == k,
                forall|j: int| 0 <= j < k ==> *refs@[j] == ns_objects@[j],
            decreases ns_objects@.len() - k,
        {
            refs.push(&ns_objects[k]);
            k += 1;
        }
        proof {
            if self.store().obeys_storage_spec() {
                assert(namespace_ids(refs@) =~= ids);
            }
        }
        let decision = self.access.check_cross_namespace_query(agent, refs.as_slice(), now_ms);
        if !decision.is_allowed() {
            return Err(QueryError::AccessDenied(String::from_str("cross-namespace query denied")));
        }
        proof {
            if self.store().obeys_storage_spec() {
                assert(forall|j: int| 0 <= j < namespaces@.len()
                    ==> #[trigger] self.store().namespace_owner(pair_namespaces(namespaces@)[j]) is Some);
                let d = choose|d: int| 0 <= d < self.access.delegations@.len()
                    && query_grant(#[trigger] self.access.delegations@[d], agent@, namespace_ids(refs@), now_ms);
                assert(query_grant(self.gate().delegations@[d], agent@, pair_namespaces(namespaces@), now_ms));
            }
        }
        let mut all: Vec<Record> = Vec::new();
        let ghost mut parts: Seq<Seq<Record>> = Seq::empty();
        let mut i: usize = 0;
        while i < namespaces.len()
            invariant
                i <= namespaces@.len(),
                parts.len() == i,
                all@ == parts.flatten(),
                self.store().obeys_storage_spec() ==> forall|j: int| 0 <= j < namespaces@.len()
                    ==> #[trigger] self.store().namespace_owner(pair_namespaces(namespaces@)[j]) is Some,
                self.store().obeys_storage_spec() ==> exists|d: int| 0 <= d < self.gate().delegations@.len()
                    && #[trigger] query_grant(self.gate().delegations@[d], agent@, pair_namespaces(namespaces@), now_ms),
                self.store().obeys_storage_spec() ==> forall|j: int| 0 <= j < i ==> #[trigger] lists_pair(self.store(), *query, namespaces@[j], parts[j]),
            decreases namespaces@.len() - i,
        {
            let (ns_id, branch_id) = namespaces[i];
            let scope = Some(String::from_str(ns_id));
            let mut candidates = match self.fetch_candidates(&query.schema, &scope, branch_id) {
                Ok(c) => c,
                Err(e) => {
                    return Err(e);
                },
            };
            let ghost part = candidates@;
            assert(self.store().obeys_storage_spec() ==> lists_pair(self.store(), *query, namespaces@[i as int], part));
            proof {
                parts.lemma_flatten_push(part);
                parts = parts.push(part);
            }
            all.append(&mut candidates);
            i += 1;
        }
        let ghost cands = all@;
        let r = filter_sort_paginate(all, query);
        proof {
            assert(r matches Ok(res) ==> is_page(res, cands, *query));
        }
        r
    }

    /// How many records match a query in one namespace on a branch, after
    /// the same read check as [`QueryEngine::execute`]. Without a filter and
    /// with a schema, the storage's own count is used.
    pub fn count(&self, query: &Query, requester: &VerifyingKey, branch: &str, now_ms: u64) -> (r: Result<u64, QueryError>)
        ensures
            self.store().obeys_storage_spec() ==> (r is Ok <==> may_read(self.gate(), self.store().namespace_owner(query_namespace(*query, branch@)),
                requester@, query_namespace(*query, branch@), now_ms)),
            r matches Ok(c) ==> ((query.filter is Some || query.schema is None)
                ==> exists|cands: Seq<Record>| #![trigger matching(cands, query.filter)]
                (self.store().obeys_storage_spec() ==> lists_scope(self.store(), *query, branch@, cands))
                && c == matching(cands, query.filter).len()),
            self.store().obeys_storage_spec() ==> (r matches Ok(c) ==> (query.filter is None && query.schema is Some
                ==> exists|all: Seq<Record>| self.store().lists(branch@, Some(query.schema->0@), None, all,
                usize::MAX, 0) && c == all.len())),
            self.store().obeys_storage_spec() ==> (r matches Ok(c) ==> counted(self.store(), *query, branch@, c)),
            r matches Err(e) ==> (e is Storage || e is NamespaceNotFound || e is AccessDenied),
            self.store().obeys_storage_spec() ==> !(r matches Err(QueryError::Storage(_))),
            r matches Err(QueryError::AccessDenied(m)) ==> m@ == "read access denied for namespace '"@
                + query_namespace(*query, branch@) + "'"@,
            self.store().obeys_storage_spec() ==> (r matches Err(QueryError::AccessDenied(_)) ==> self.store().namespace_owner(
                query_namespace(*query, branch@)) is Some && !may_read(self.gate(), self.store().namespace_owner(
                query_namespace(*query, branch@)), requester@, query_namespace(*query, branch@), now_ms)),
            r matches Err(QueryError::NamespaceNotFound(m)) ==> m@ == query_namespace(*query, branch@),
            self.store().obeys_storage_spec() ==> (r matches Err(QueryError::NamespaceNotFound(_))
                ==> self.store().namespace_owner(query_namespace(*query, branch@)) is None),
    {
        match self.checked_namespace(query, requester, branch, now_ms) {
            Ok(()) => {},
            Err(e) => {
                return Err(e);
            },
        }
        if query.filter.is_none() {
            if let Some(schema) = &query.schema {
                return match self.storage.count_records_by_schema(schema.as_str(), branch) {
                    Ok(c) => {
                        proof {
                            if self.store().obeys_storage_spec() {
                                let all = choose|all: Seq<Record>| self.store().lists(branch@, Some(schema@), None, all,
                                    usize::MAX, 0) && c == all.len();
                                assert(lists_scope(self.store(), *query, branch@, all));
                                assert(matching(all, query.filter) == all);
                            }
                        }
                        Ok(c)
                    },
                    Err(e) => Err(QueryError::Storage(e)),
                };
            }
        }
        let candidates = match self.fetch_candidates(&query.schema, &query.namespace, branch) {
            Ok(c) => c,
            Err(e) => {
                return Err(e);
            },
        };
        let ghost cands = candidates@;
        match &query.filter {
            Some(f) => {
                let mut n: u64 = 0;
                let mut i: usize = 0;
                let ghost keep = |r: Record| filter_matches(*f, r);
                proof {
                    reveal(Seq::filter);
                    assert(cands.take(0).filter(keep) =~= Seq::<Record>::empty());
                }
                while i < candidates.len()
                    invariant
                        keep == (|r: Record| filter_matches(*f, r)),
                        cands == candidates@,
                        i <= cands.len(),
                        n == cands.take(i as int).filter(keep).len(),
                        n <= i,
                    decreases cands.len() - i,
                {
                    proof {
                        assert(cands.take(i + 1) =~= cands.take(i as int).push(cands[i as int]));
                        cands.take(i as int).lemma_filter_push(cands[i as int], keep);
                    }
                    if f.matches(&candidates[i]) {
                        n = n + 1;
                    }
                    i += 1;
                }
                assert(cands.take(cands.len() as int) =~= cands);
                assert(n == matching(cands, query.filter).len());
                assert((self.store().obeys_storage_spec() ==> lists_scope(self.store(), *query, branch@, cands))
                    && n == matching(cands, query.filter).len());
                Ok(n)
            },
            None => {
                assert(candidates@.len() == matching(cands, query.filter).len());
                assert((self.store().obeys_storage_spec() ==> lists_scope(self.store(), *query, branch@, cands))
                    && candidates@.len() == matching(cands, query.filter).len());
                Ok(candidates.len() as u64)
            },
        }
    }
}

} // verus!
