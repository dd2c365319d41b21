//! Git-like branching.
//!
//! `main` is committed reality. Branches are draft transactions, agent
//! workspaces, or sync conflict resolution spaces. A branch is metadata
//! only: it tracks which records were added or deleted on it, over
//! immutable records.

use vstd::prelude::*;
use vstd::string::*;
use crate::clock::current_time_ms;
use crate::error::CoreError;
use crate::keyed::StrMap;
use crate::namespace::NamespaceId;
use crate::record::{RecordId, opt_str_view};
use crate::strings::{concat, concat3};

verus! {

broadcast use vstd::std_specs::vec::group_vec_axioms, vstd::seq::group_seq_axioms;

/// Branch identifier.
pub type BranchId = String;

/// The state of a branch.
#[derive(Debug, Clone, Copy, PartialEq, Eq, Structural)]
pub enum BranchState {
    /// Active: accepts writes.
    Active,
    /// Merged into its parent.
    Merged,
    /// Abandoned.
    Abandoned,
}

/// A branch of the record graph.
#[derive(Debug)]
pub struct Branch {
    /// Unique branch identifier.
    pub id: BranchId,
    /// The namespace the branch belongs to.
    pub namespace: NamespaceId,
    /// Parent branch ID (`None` for main).
    pub parent: Option<BranchId>,
    /// Current state.
    pub state: BranchState,
    /// Creation time (ms since epoch).
    pub created_at_ms: u64,
    /// Human-readable label.
    pub label: String,
    /// Records changed on this branch: `true` for added or modified,
    /// `false` for deleted (tombstone).
    pub changes: StrMap<bool>,
}

/// The outcome of merging a branch into its parent.
#[derive(Debug)]
pub struct MergeResult {
    /// Records that merge cleanly.
    pub merged_records: Vec<RecordId>,
    /// Records changed on both branches.
    pub conflicts: Vec<MergeConflict>,
}

/// A record changed on both the source and the target branch.
#[derive(Debug)]
pub struct MergeConflict {
    pub record_id: RecordId,
    /// Description of the conflict.
    pub description: String,
}

/// The description of a conflict on record `rid` between `source` and `target`.
pub open spec fn conflict_text(rid: Seq<char>, source: Seq<char>, target: Seq<char>) -> Seq<char> {
    "record "@ + rid + " modified on both "@ + source + " and "@ + target
}

/// The ID of a namespace's main branch.
pub open spec fn main_branch_id(namespace: Seq<char>) -> Seq<char> {
    namespace + "/main"@
}

/// The record IDs of a list of conflicts.
pub open spec fn conflict_ids(cs: Seq<MergeConflict>) -> Seq<Seq<char>> {
    cs.map_values(|c: MergeConflict| c.record_id@)
}

/// The views of a list of record IDs.
pub open spec fn id_views(ids: Seq<String>) -> Seq<Seq<char>> {
    ids.map_values(|s: String| s@)
}

impl Branch {
    /// The main branch of a namespace: ID `"<namespace>/main"`, label
    /// `"main"`, no parent, active, no changes.
    pub fn main(namespace: NamespaceId) -> (r: Branch)
        ensures
            r.id@ == main_branch_id(namespace@),
            r.namespace@ == namespace@,
            r.parent is None,
            r.state == BranchState::Active,
            r.label@ == "main"@,
            r.changes@ == Map::<Seq<char>, bool>::empty(),
    {
        let created_at_ms = current_time_ms();
        let id = concat(namespace.as_str(), "/main");
        Branch {
            id,
            namespace,
            parent: None,
            state: BranchState::Active,
            created_at_ms,
            label: String::from_str("main"),
            changes: StrMap::new(),
        }
    }

    /// A new active branch off `parent`, with no changes.
    pub fn new(id: BranchId, namespace: NamespaceId, parent: BranchId, label: String) -> (r: Branch)
        ensures
            r.id@ == id@,
            r.namespace@ == namespace@,
            opt_str_view(r.parent) == Some(parent@),
            r.state == BranchState::Active,
            r.label@ == label@,
            r.changes@ == Map::<Seq<char>, bool>::empty(),
    {
        let created_at_ms = current_time_ms();
        Branch {
            id,
            namespace,
            parent: Some(parent),
            state: BranchState::Active,
            created_at_ms,
            label,
            changes: StrMap::new(),
        }
    }

    /// Records an addition or modification.
    pub fn add_change(&mut self, record_id: RecordId)
        ensures
            final(self).changes@ == old(self).changes@.insert(record_id@, true),
            final(self).id == old(self).id,
            final(self).namespace == old(self).namespace,
            final(self).parent == old(self).parent,
            final(self).state == old(self).state,
            final(self).created_at_ms == old(self).created_at_ms,
            final(self).label == old(self).label,
    {
        self.changes.insert(record_id, true);
    }

    /// Records a deletion (tombstone).
    pub fn add_deletion(&mut self, record_id: RecordId)
        ensures
            final(self).changes@ == old(self).changes@.insert(record_id@, false),
            final(self).id == old(self).id,
            final(self).namespace == old(self).namespace,
            final(self).parent == old(self).parent,
            final(self).state == old(self).state,
            final(self).created_at_ms == old(self).created_at_ms,
            final(self).label == old(self).label,
    {
        self.changes.insert(record_id, false);
    }

    /// Whether the branch has any changes relative to its parent.
    pub fn has_changes(&self) -> (r: bool)
        ensures
            r == (self.changes@.dom().len() > 0),
            self.changes@.dom().finite(),
    {
        !self.changes.is_empty()
    }

    /// Marks the branch merged.
    pub fn mark_merged(&mut self)
        ensures
            final(self).state == BranchState::Merged,
            final(self).id == old(self).id,
            final(self).namespace == old(self).namespace,
            final(self).parent == old(self).parent,
            final(self).created_at_ms == old(self).created_at_ms,
            final(self).label == old(self).label,
            final(self).changes == old(self).changes,
    {
        self.state = BranchState::Merged;
    }

    /// Marks the branch abandoned.
    pub fn mark_abandoned(&mut self)
        ensures
            final(self).state == BranchState::Abandoned,
            final(self).id == old(self).id,
            final(self).namespace == old(self).namespace,
            final(self).parent == old(self).parent,
            final(self).created_at_ms == old(self).created_at_ms,
            final(self).label == old(self).label,
            final(self).changes == old(self).changes,
    {
        self.state = BranchState::Abandoned;
    }

    /// A fast-forward merge of this branch into `target`: the records
    /// changed here and not on the target merge; those changed on both
    /// conflict. Both lists follow this branch's change order. Fails with
    /// `BranchNotActive` unless this branch is active.
    pub fn fast_forward_merge(&self, target: &Branch) -> (r: Result<MergeResult, CoreError>)
        ensures
            r is Err <==> self.state != BranchState::Active,
            r matches Err(e) ==> (e matches CoreError::BranchNotActive(m) && m@ == self.id@),
            r matches Ok(res) ==> {
                &&& id_views(res.merged_records@)
                    == self.changes.key_order().filter(|k: Seq<char>| !target.changes@.dom().contains(k))
                &&& conflict_ids(res.conflicts@)
                    == self.changes.key_order().filter(|k: Seq<char>| target.changes@.dom().contains(k))
                &&& forall|i: int| 0 <= i < res.conflicts@.len() ==> (#[trigger] res.conflicts@[i]).description@
                    == conflict_text(res.conflicts@[i].record_id@, self.id@, target.id@)
                &&& forall|k: Seq<char>| #[trigger] id_views(res.merged_records@).contains(k)
                    <==> self.changes@.dom().contains(k) && !target.changes@.dom().contains(k)
                &&& forall|k: Seq<char>| #[trigger] conflict_ids(res.conflicts@).contains(k)
                    <==> self.changes@.dom().contains(k) && target.changes@.dom().contains(k)
                &&& id_views(res.merged_records@).no_duplicates()
                &&& conflict_ids(res.conflicts@).no_duplicates()
            },
    {
        if self.state != BranchState::Active {
            return Err(CoreError::BranchNotActive(self.id.clone()));
        }
        let n = self.changes.len();
        let ghost keys = self.changes.key_order();
        let ghost in_target = |k: Seq<char>| target.changes@.dom().contains(k);
        let ghost not_in_target = |k: Seq<char>| !target.changes@.dom().contains(k);
        let mut merged: Vec<RecordId> = Vec::new();
        let mut conflicts: Vec<MergeConflict> = Vec::new();
        let mut i: usize = 0;
        proof {
            reveal(Seq::filter);
            assert(keys.take(0).filter(in_target) =~= Seq::<Seq<char>>::empty());
            assert(keys.take(0).filter(not_in_target) =~= Seq::<Seq<char>>::empty());
            assert(id_views(merged@) =~= Seq::<Seq<char>>::empty());
            assert(conflict_ids(conflicts@) =~= Seq::<Seq<char>>::empty());
        }
        while i < n
            invariant
                n == keys.len(),
                keys == self.changes.key_order(),
                i <= n,
                id_views(merged@) == keys.take(i as int).filter(not_in_target),
                conflict_ids(conflicts@) == keys.take(i as int).filter(in_target),
                forall|j: int| 0 <= j < conflicts@.len() ==> (#[trigger] conflicts@[j]).description@
                    == conflict_text(conflicts@[j].record_id@, self.id@, target.id@),
                in_target == (|k: Seq<char>| target.changes@.dom().contains(k)),
                not_in_target == (|k: Seq<char>| !target.changes@.dom().contains(k)),
            decreases n - i,
        {
            let (rid, _) = self.changes.entry_at(i);
            proof {
                assert(keys.take(i + 1) =~= keys.take(i as int).push(keys[i as int]));
            }
            if target.changes.contains_key(rid.as_str()) {
                let a = concat3("record ", rid.as_str(), " modified on both ");
                let b = concat3(self.id.as_str(), " and ", target.id.as_str());
                let description = concat(a.as_str(), b.as_str());
                let ghost before = conflicts@;
                conflicts.push(MergeConflict { record_id: rid.clone(), description });
                proof {
                    assert(keys.take(i as int).push(keys[i as int]).filter(in_target)
                        == keys.take(i as int).filter(in_target).push(keys[i as int])) by {
                        keys.take(i as int).lemma_filter_push(keys[i as int], in_target);
                    }
                    assert(keys.take(i as int).push(keys[i as int]).filter(not_in_target)
                        == keys.take(i as int).filter(not_in_target)) by {
                        keys.take(i as int).lemma_filter_push(keys[i as int], not_in_target);
                    }
                    assert(conflict_ids(conflicts@) =~= conflict_ids(before).push(rid@));
                }
            } else {
                let ghost before = merged@;
                merged.push(rid.clone());
                proof {
                    assert(keys.take(i as int).push(keys[i as int]).filter(in_target)
                        == keys.take(i as int).filter(in_target)) by {
                        keys.take(i as int).lemma_filter_push(keys[i as int], in_target);
                    }
                    assert(keys.take(i as int).push(keys[i as int]).filter(not_in_target)
                        == keys.take(i as int).filter(not_in_target).push(keys[i as int])) by {
                        keys.take(i as int).lemma_filter_push(keys[i as int], not_in_target);
                    }
                    assert(id_views(merged@) =~= id_views(before).push(rid@));
                }
            }
            i += 1;
        }
        proof {
            assert(keys.take(n as int) =~= keys);
            self.changes.lemma_key_order_keys();
            lemma_filter_members(keys, in_target);
            lemma_filter_members(keys, not_in_target);
            lemma_filter_no_duplicates(keys, in_target);
            lemma_filter_no_duplicates(keys, not_in_target);
        }
        Ok(MergeResult { merged_records: merged, conflicts })
    }
}

/// What a filter keeps of a sequence: exactly its members that pass.
pub(crate) proof fn lemma_filter_members<A>(s: Seq<A>, p: spec_fn(A) -> bool)
    ensures
        forall|x: A| #[trigger] s.filter(p).contains(x) <==> s.contains(x) && p(x),
{
    assert forall|x: A| #[trigger] s.filter(p).contains(x) <==> s.contains(x) && p(x) by {
        if s.filter(p).contains(x) {
            s.lemma_filter_contains_rev(p, x);
            let j = choose|j: int| 0 <= j < s.filter(p).len() && s.filter(p)[j] == x;
            s.lemma_filter_pred(p, j);
        }
        if s.contains(x) && p(x) {
            let i = choose|i: int| 0 <= i < s.len() && s[i] == x;
            s.lemma_filter_contains(p, i);
        }
    }
}

/// A filter of a sequence without repeats has no repeats.
pub(crate) proof fn lemma_filter_no_duplicates<A>(s: Seq<A>, p: spec_fn(A) -> bool)
    requires
        s.no_duplicates(),
    ensures
        s.filter(p).no_duplicates(),
    decreases s.len(),
{
    if s.len() > 0 {
        let s0 = s.drop_last();
        let x = s.last();
        assert(s0.no_duplicates()) by {
            assert forall|i: int, j: int| 0 <= i < s0.len() && 0 <= j < s0.len() && i != j implies s0[i] != s0[j] by {
                assert(s0[i] == s[i] && s0[j] == s[j]);
            }
        }
        lemma_filter_no_duplicates(s0, p);
        assert(s0.push(x) =~= s);
        s0.lemma_filter_push(x, p);
        if p(x) {
            let f = s0.filter(p);
            assert forall|i: int| 0 <= i < f.len() implies f[i] != x by {
                s0.lemma_filter_contains_rev(p, f[i]);
                assert(f.contains(f[i]));
                let j = choose|j: int| 0 <= j < s0.len() && s0[j] == f[i];
                assert(s[j] == f[i] && s[s.len() - 1] == x);
            }
            let g = f.push(x);
            assert forall|i: int, j: int| 0 <= i < g.len() && 0 <= j < g.len() && i != j implies g[i] != g[j] by {
                if i < f.len() && j < f.len() {
                    assert(g[i] == f[i] && g[j] == f[j]);
                } else if i < f.len() {
                    assert(g[i] == f[i]);
                } else {
                    assert(g[j] == f[j]);
                }
            }
        }
    }
}

impl Clone for Branch {
    fn clone(&self) -> (r: Self)
        ensures
            r.id == self.id,
            r.namespace == self.namespace,
            opt_str_view(r.parent) == opt_str_view(self.parent),
            r.state == self.state,
            r.created_at_ms == self.created_at_ms,
            r.label == self.label,
            r.changes@ == self.changes@,
            r.changes.key_order() == self.changes.key_order(),
    {
        let parent = match &self.parent {
            Some(p) => Some(p.clone()),
            None => None,
        };
        Branch {
            id: self.id.clone(),
            namespace: self.namespace.clone(),
            parent,
            state: self.state,
            created_at_ms: self.created_at_ms,
            label: self.label.clone(),
            changes: self.changes.clone(),
        }
    }
}

} // verus!
