//! Visibility over stored rows, for backends that store each branch's rows
//! apart (such as a database) and read them up a branch's ancestry.
//!
//! A backend hands over the rows of a branch, then those of its parent,
//! and so on up to the root; what a branch sees follows from that order.

use vstd::prelude::*;
use vstd::string::*;
use crate::branch::{Branch, BranchState, MergeResult, conflict_ids, conflict_text, id_views};
use crate::error::StorageError;
use crate::json::str_equal;
use crate::namespace::str_views;
use crate::record::Record;
use crate::storage::memory::{
    contains_str, in_scope, lemma_filter_all_or_none, newest_first_order, occurs, opt_text, page_of,
    record_in_scope, window,
};
use crate::sync::conflict::same_record;

verus! {

broadcast use vstd::std_specs::vec::group_vec_axioms, vstd::seq::group_seq_axioms;

/// A row stored for a branch: a version of record `record_id`, or (with no
/// record) its deletion.
#[derive(Debug)]
pub struct StoredRow {
    pub record_id: String,
    pub record: Option<Record>,
}

/// Whether a row hides the rows with its ID that come after it: a deletion
/// does, and so does a version in scope.
pub open spec fn blocks(row: StoredRow, schema: Option<Seq<char>>, namespace: Option<Seq<char>>) -> bool {
    match row.record {
        None => true,
        Some(r) => in_scope(r, schema, namespace),
    }
}

/// Whether row `i` is a version that is seen: in scope, with no deletion
/// and no version in scope of the same ID before it.
pub open spec fn shown(rows: Seq<StoredRow>, i: int, schema: Option<Seq<char>>, namespace: Option<Seq<char>>) -> bool {
    &&& 0 <= i < rows.len()
    &&& rows[i].record is Some
    &&& in_scope(rows[i].record->0, schema, namespace)
    &&& forall|j: int| #![trigger rows[j]] 0 <= j < i && rows[j].record_id@ == rows[i].record_id@
        ==> !blocks(rows[j], schema, namespace)
}

/// Whether `all` lists the records of the shown rows at positions `idx`,
/// each shown row once, newest first.
pub open spec fn listed_by(
    all: Seq<Record>,
    idx: Seq<int>,
    rows: Seq<StoredRow>,
    schema: Option<Seq<char>>,
    namespace: Option<Seq<char>>,
) -> bool {
    &&& idx.len() == all.len()
    &&& forall|k: int| 0 <= k < idx.len() ==> shown(rows, #[trigger] idx[k], schema, namespace)
    &&& forall|k: int| 0 <= k < idx.len() ==> same_record(#[trigger] all[k], rows[idx[k]].record->0)
    &&& forall|a: int, b: int| 0 <= a < b < idx.len() ==> #[trigger] idx[a] != #[trigger] idx[b]
    &&& forall|i: int| #[trigger] shown(rows, i, schema, namespace) ==> exists|k: int| 0 <= k < idx.len() && idx[k] == i
    &&& forall|a: int, b: int| 0 <= a < b < all.len() ==> (#[trigger] all[a]).created_at_ms >= (#[trigger] all[b]).created_at_ms
}

/// The shown rows up to `n`, as IDs already settled: an ID is settled once a
/// row that blocks it has been read.
pub open spec fn settled(rows: Seq<StoredRow>, n: int, id: Seq<char>, schema: Option<Seq<char>>, namespace: Option<Seq<char>>) -> bool {
    exists|j: int| #![trigger rows[j]] 0 <= j < n && rows[j].record_id@ == id && blocks(rows[j], schema, namespace)
}

/// The records seen through the rows of a branch and its ancestors (the
/// branch's rows first): for each ID, the first version in scope unless a
/// deletion of it comes first. They are listed newest first, and the
/// result is the window of that list after `offset`, at most `limit` long.
pub fn visible_in_rows(
    rows: &Vec<StoredRow>,
    schema: Option<&str>,
    namespace: Option<&str>,
    limit: usize,
    offset: usize,
) -> (r: Vec<Record>)
    ensures
        exists|all: Seq<Record>, idx: Seq<int>|
            listed_by(all, idx, rows@, opt_text(schema), opt_text(namespace)) && r@ == window(all, limit, offset),
{
    let ghost sc = opt_text(schema);
    let ghost ns = opt_text(namespace);
    let mut picked: Vec<Record> = Vec::new();
    let mut times: Vec<u64> = Vec::new();
    let mut settled_ids: Vec<String> = Vec::new();
    let ghost mut idx: Seq<int> = Seq::empty();
    let mut i: usize = 0;
    while i < rows.len()
        invariant
            i <= rows@.len(),
            sc == opt_text(schema),
            ns == opt_text(namespace),
            idx.len() == picked@.len(),
            times@.len() == picked@.len(),
            forall|k: int| 0 <= k < times@.len() ==> times@[k] == (#[trigger] picked@[k]).created_at_ms,
            forall|k: int| 0 <= k < idx.len() ==> 0 <= #[trigger] idx[k] < i,
            forall|k: int| 0 <= k < idx.len() ==> shown(rows@, #[trigger] idx[k], sc, ns),
            forall|k: int| 0 <= k < idx.len() ==> same_record(#[trigger] picked@[k], rows@[idx[k]].record->0),
            forall|a: int, b: int| 0 <= a < b < idx.len() ==> #[trigger] idx[a] < #[trigger] idx[b],
            forall|j: int| 0 <= j < i && #[trigger] shown(rows@, j, sc, ns) ==> exists|k: int| 0 <= k < idx.len() && idx[k] == j,
            forall|id: Seq<char>| #[trigger] str_views(settled_ids@).contains(id) <==> settled(rows@, i as int, id, sc, ns),
        decreases rows@.len() - i,
    {
        let row = &rows[i];
        let ghost before = settled_ids@;
        let ghost old_idx = idx;
        let is_settled = contains_str(&settled_ids, row.record_id.as_str());
        if !is_settled {
            match &row.record {
                None => {
                    settled_ids.push(row.record_id.clone());
                },
                Some(rec) => {
                    if record_in_scope(rec, schema, namespace) {
                        settled_ids.push(row.record_id.clone());
                        proof {
                            assert forall|j: int| #![trigger rows@[j]] 0 <= j < i && rows@[j].record_id@ == rows@[i as int].record_id@
                                implies !blocks(rows@[j], sc, ns) by {
                                if blocks(rows@[j], sc, ns) {
                                    assert(settled(rows@, i as int, rows@[i as int].record_id@, sc, ns));
                                }
                            }
                            assert(shown(rows@, i as int, sc, ns));
                            idx = idx.push(i as int);
                        }
                        times.push(rec.created_at_ms);
                        picked.push(rec.clone());
                    }
                },
            }
        }
        proof {
            let rid = rows@[i as int].record_id@;
            let pushed = !is_settled && blocks(rows@[i as int], sc, ns);
            assert(str_views(settled_ids@) =~= if pushed { str_views(before).push(rid) } else { str_views(before) });
            assert forall|id: Seq<char>| #[trigger] str_views(settled_ids@).contains(id)
                <==> settled(rows@, i + 1, id, sc, ns) by {
                if str_views(before).contains(id) {
                    assert(settled(rows@, i as int, id, sc, ns));
                    let j = choose|j: int| #![trigger rows@[j]] 0 <= j < i && rows@[j].record_id@ == id
                        && blocks(rows@[j], sc, ns);
                    assert(0 <= j < i + 1 && rows@[j].record_id@ == id && blocks(rows@[j], sc, ns));
                    assert(settled(rows@, i + 1, id, sc, ns));
                    let t = choose|t: int| 0 <= t < str_views(before).len() && str_views(before)[t] == id;
                    assert(str_views(settled_ids@)[t] == id);
                    assert(str_views(settled_ids@).contains(id));
                } else if id == rid && pushed {
                    assert(rows@[i as int].record_id@ == id && blocks(rows@[i as int], sc, ns));
                    assert(settled(rows@, i + 1, id, sc, ns));
                    assert(str_views(settled_ids@)[str_views(settled_ids@).len() - 1] == id);
                    assert(str_views(settled_ids@).contains(id));
                } else {
                    assert(!str_views(settled_ids@).contains(id));
                    if settled(rows@, i + 1, id, sc, ns) {
                        let j = choose|j: int| #![trigger rows@[j]] 0 <= j < i + 1 && rows@[j].record_id@ == id
                            && blocks(rows@[j], sc, ns);
                        if j < i {
                            assert(settled(rows@, i as int, id, sc, ns));
                        } else {
                            assert(id == rid);
                            if is_settled {
                                assert(str_views(before).contains(rid));
                            }
                        }
                    }
                }
            }
            assert forall|j: int| 0 <= j < i + 1 && #[trigger] shown(rows@, j, sc, ns)
                implies exists|k: int| 0 <= k < idx.len() && idx[k] == j by {
                if j == i {
                    if is_settled {
                        assert(settled(rows@, i as int, rid, sc, ns));
                        let m = choose|m: int| #![trigger rows@[m]] 0 <= m < i && rows@[m].record_id@ == rid
                            && blocks(rows@[m], sc, ns);
                        assert(!blocks(rows@[m], sc, ns));
                    }
                    assert(idx[idx.len() - 1] == j);
                } else {
                    let k = choose|k: int| 0 <= k < old_idx.len() && old_idx[k] == j;
                    assert(idx[k] == j);
                }
            }
        }
        i += 1;
    }
    let order = newest_first_order(&times);
    let mut all: Vec<Record> = Vec::new();
    let ghost mut all_idx: Seq<int> = Seq::empty();
    let mut q: usize = 0;
    while q < order.len()
        invariant
            q <= order@.len(),
            order@.len() == times@.len(),
            times@.len() == picked@.len(),
            idx.len() == picked@.len(),
            all@.len() == q,
            all_idx.len() == q,
            forall|a: int| 0 <= a < order@.len() ==> #[trigger] order@[a] < times@.len(),
            forall|a: int| 0 <= a < q ==> #[trigger] all_idx[a] == idx[order@[a] as int],
            forall|a: int| 0 <= a < q ==> same_record(#[trigger] all@[a], picked@[order@[a] as int]),
        decreases order@.len() - q,
    {
        let k = order[q];
        all.push(picked[k].clone());
        proof {
            all_idx = all_idx.push(idx[k as int]);
        }
        q += 1;
    }
    proof {
        assert forall|k: int| 0 <= k < all_idx.len() implies shown(rows@, #[trigger] all_idx[k], sc, ns) by {
            assert(all_idx[k] == idx[order@[k] as int]);
        }
        assert forall|k: int| 0 <= k < all_idx.len() implies same_record(#[trigger] all@[k], rows@[all_idx[k]].record->0) by {
            assert(same_record(all@[k], picked@[order@[k] as int]));
            assert(same_record(picked@[order@[k] as int], rows@[idx[order@[k] as int]].record->0));
        }
        assert forall|a: int, b: int| 0 <= a < b < all_idx.len() implies #[trigger] all_idx[a] != #[trigger] all_idx[b] by {
            let oa = order@[a] as int;
            let ob = order@[b] as int;
            assert(oa != ob);
            if oa < ob {
                assert(idx[oa] < idx[ob]);
            } else {
                assert(idx[ob] < idx[oa]);
            }
        }
        assert forall|j: int| #[trigger] shown(rows@, j, sc, ns) implies exists|k: int| 0 <= k < all_idx.len() && all_idx[k] == j by {
            let m = choose|m: int| 0 <= m < idx.len() && idx[m] == j;
            assert(occurs(order@, m));
            let k = choose|k: int| 0 <= k < order@.len() && order@[k] == m;
            assert(all_idx[k] == j);
        }
        assert forall|a: int, b: int| 0 <= a < b < all@.len() implies (#[trigger] all@[a]).created_at_ms >= (#[trigger] all@[b]).created_at_ms by {
            assert(times@[order@[a] as int] >= times@[order@[b] as int]);
            assert(same_record(all@[a], picked@[order@[a] as int]));
            assert(same_record(all@[b], picked@[order@[b] as int]));
        }
        assert(listed_by(all@, all_idx, rows@, sc, ns));
    }
    let ghost all_seq = all@;
    let r = page_of(all, limit, offset);
    assert(listed_by(all_seq, all_idx, rows@, sc, ns) && r@ == window(all_seq, limit, offset));
    r
}

/// Whether row `i` is the first row with ID `rid`.
pub open spec fn first_with_id(rows: Seq<StoredRow>, rid: Seq<char>, i: int) -> bool {
    &&& 0 <= i < rows.len()
    &&& rows[i].record_id@ == rid
    &&& forall|j: int| #![trigger rows[j]] 0 <= j < i ==> rows[j].record_id@ != rid
}

/// Record `record_id` as seen through the rows of a branch and its
/// ancestors (the branch's rows first): the first row with that ID decides,
/// and a deletion there hides the record.
pub fn first_in_rows(rows: &Vec<StoredRow>, record_id: &str) -> (r: Option<Record>)
    ensures
        r is Some <==> exists|i: int| first_with_id(rows@, record_id@, i) && (#[trigger] rows@[i]).record is Some,
        r matches Some(x) ==> exists|i: int| first_with_id(rows@, record_id@, i)
            && same_record(x, (#[trigger] rows@[i]).record->0),
{
    let mut i: usize = 0;
    while i < rows.len()
        invariant
            i <= rows@.len(),
            forall|j: int| 0 <= j < i ==> (#[trigger] rows@[j]).record_id@ != record_id@,
        decreases rows@.len() - i,
    {
        if str_equal(rows[i].record_id.as_str(), record_id) {
            proof {
                assert(first_with_id(rows@, record_id@, i as int));
                assert forall|k: int| first_with_id(rows@, record_id@, k) implies k == i by {
                    if k < i {
                        assert(rows@[k].record_id@ != record_id@);
                    } else if k > i {
                        assert(rows@[i as int].record_id@ != record_id@);
                    }
                }
            }
            return match &rows[i].record {
                Some(rec) => Some(rec.clone()),
                None => None,
            };
        }
        i += 1;
    }
    None
}

/// Whether a branch can merge into `parent`: it is active, has a parent,
/// and none of its changed records was changed on the parent too.
pub open spec fn merges_into(branch: Branch, parent: Branch) -> bool {
    &&& branch.state == BranchState::Active
    &&& branch.parent is Some
    &&& forall|k: Seq<char>| #[trigger] branch.changes@.dom().contains(k) ==> !parent.changes@.dom().contains(k)
}

/// The outcome of merging `branch` into its parent, found (if it exists)
/// as `parent`: an inactive branch, the main branch (which has no parent)
/// and a missing parent are refused. Otherwise the result lists as
/// conflicts the records changed both here and on the parent; with
/// conflicts nothing merges, and without them every changed record merges,
/// in change order.
pub fn plan_merge(branch: &Branch, parent: Option<&Branch>) -> (r: Result<MergeResult, StorageError>)
    ensures
        branch.state != BranchState::Active ==> (r matches Err(StorageError::BranchNotActive(m)) && m@ == branch.id@),
        branch.state == BranchState::Active && branch.parent is None
            ==> (r matches Err(StorageError::BranchNotFound(m)) && m@ == "cannot merge main branch"@),
        branch.state == BranchState::Active && branch.parent is Some && parent is None
            ==> (r matches Err(StorageError::BranchNotFound(m)) && m@ == branch.parent->0@),
        r is Ok <==> (branch.state == BranchState::Active && branch.parent is Some && parent is Some),
        r matches Ok(res) ==> {
            let p = *parent->0;
            &&& forall|k: Seq<char>| #[trigger] conflict_ids(res.conflicts@).contains(k)
                <==> branch.changes@.dom().contains(k) && p.changes@.dom().contains(k)
            &&& conflict_ids(res.conflicts@).no_duplicates()
            &&& forall|i: int| 0 <= i < res.conflicts@.len() ==> (#[trigger] res.conflicts@[i]).description@
                == conflict_text(res.conflicts@[i].record_id@, branch.id@, p.id@)
            &&& (res.conflicts@.len() == 0 <==> merges_into(*branch, p))
            &&& merges_into(*branch, p) ==> id_views(res.merged_records@) == branch.changes.key_order()
            &&& merges_into(*branch, p) ==> forall|k: Seq<char>| #[trigger] id_views(res.merged_records@).contains(k)
                <==> branch.changes@.dom().contains(k)
            &&& !merges_into(*branch, p) ==> res.merged_records@.len() == 0
        },
{
    if branch.state != BranchState::Active {
        return Err(StorageError::BranchNotActive(branch.id.clone()));
    }
    let parent_id = match &branch.parent {
        Some(p) => p,
        None => {
            return Err(StorageError::BranchNotFound(String::from_str("cannot merge main branch")));
        },
    };
    let target = match parent {
        Some(t) => t,
        None => {
            return Err(StorageError::BranchNotFound(parent_id.clone()));
        },
    };
    let _ = branch.changes.len();
    let ghost keys = branch.changes.key_order();
    let result = match branch.fast_forward_merge(target) {
        Ok(m) => m,
        Err(_) => {
            return Err(StorageError::BranchNotActive(branch.id.clone()));
        },
    };
    let ghost in_target = |k: Seq<char>| target.changes@.dom().contains(k);
    let ghost not_in_target = |k: Seq<char>| !target.changes@.dom().contains(k);
    proof {
        lemma_filter_all_or_none(keys, in_target, not_in_target);
        branch.changes.lemma_key_order_keys();
    }
    if result.conflicts.len() > 0 {
        proof {
            let c = keys.filter(in_target);
            assert(c.len() > 0);
            keys.lemma_filter_pred(in_target, 0);
            assert(c.contains(c[0]));
            keys.lemma_filter_contains_rev(in_target, c[0]);
            assert(branch.changes@.dom().contains(c[0]));
            assert(!merges_into(*branch, *target));
        }
        return Ok(MergeResult { merged_records: Vec::new(), conflicts: result.conflicts });
    }
    proof {
        assert forall|k: Seq<char>| #[trigger] branch.changes@.dom().contains(k) implies !target.changes@.dom().contains(k) by {
            assert(keys.contains(k));
            let i = choose|i: int| 0 <= i < keys.len() && keys[i] == k;
            assert(!in_target(keys[i]));
        }
    }
    Ok(result)
}

} // verus!
