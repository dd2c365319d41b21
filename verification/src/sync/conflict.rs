//! Conflict resolution for sync: when two devices changed the same record
//! independently, a strategy picks the version that is kept.

use vstd::prelude::*;
use crate::record::{Record, opt_str_view};

verus! {

/// How a sync conflict is resolved.
#[derive(Debug, Clone, Copy, PartialEq, Eq, Structural)]
pub enum ConflictStrategy {
    /// The most recent write (by `created_at_ms`) wins; a tie goes to the remote.
    LastWriterWins,
    /// The local version wins unless both versions have the same creator,
    /// in which case the most recent write wins.
    CreatorWins,
}

/// A conflict between the local and the remote version of a record.
#[derive(Debug)]
pub struct SyncConflict {
    /// The record ID in conflict.
    pub record_id: String,
    /// The local version.
    pub local_record: Record,
    /// The remote version.
    pub remote_record: Record,
    /// The resolved version, once resolved.
    pub resolved: Option<Record>,
}

/// Whether two records have the same content.
pub open spec fn same_record(a: Record, b: Record) -> bool {
    &&& a.record_id@ == b.record_id@
    &&& a.schema@ == b.schema@
    &&& a.namespace@ == b.namespace@
    &&& a.created_by@ == b.created_by@
    &&& a.created_at_ms == b.created_at_ms
    &&& a.data@ == b.data@
    &&& opt_str_view(a.previous_version) == opt_str_view(b.previous_version)
    &&& a.sig@ == b.sig@
}

/// Whether `strategy` keeps the remote version of a conflict.
pub open spec fn remote_wins(strategy: ConflictStrategy, local: Record, remote: Record) -> bool {
    match strategy {
        ConflictStrategy::LastWriterWins => remote.created_at_ms >= local.created_at_ms,
        ConflictStrategy::CreatorWins => local.created_by@ == remote.created_by@
            && remote.created_at_ms >= local.created_at_ms,
    }
}

/// The version that `strategy` keeps.
pub fn resolve_conflict(strategy: ConflictStrategy, local: &Record, remote: &Record) -> (r: Record)
    ensures
        same_record(r, if remote_wins(strategy, *local, *remote) { *remote } else { *local }),
{
    match strategy {
        ConflictStrategy::LastWriterWins => {
            if remote.created_at_ms >= local.created_at_ms {
                remote.clone()
            } else {
                local.clone()
            }
        },
        ConflictStrategy::CreatorWins => {
            if local.created_by.same_as(&remote.created_by) {
                if remote.created_at_ms >= local.created_at_ms {
                    remote.clone()
                } else {
                    local.clone()
                }
            } else {
                local.clone()
            }
        },
    }
}

/// Under last-writer-wins the kept version is the most recent one, and
/// resolving the conflict seen from the other device keeps the same
/// version unless both were written at the same time.
pub proof fn last_writer_wins_agrees(a: Record, b: Record)
    requires
        a.created_at_ms != b.created_at_ms,
    ensures
        remote_wins(ConflictStrategy::LastWriterWins, a, b) != remote_wins(ConflictStrategy::LastWriterWins, b, a),
        remote_wins(ConflictStrategy::LastWriterWins, a, b) <==> b.created_at_ms > a.created_at_ms,
{
}

/// Under creator-wins, versions by different creators keep the local
/// version, and versions by one creator keep the newer one (the remote on
/// a tie), exactly as last-writer-wins does; the kept record `res` (a
/// result of [`resolve_conflict`]) is then the newer version.
pub proof fn creator_wins_law(local: Record, remote: Record, res: Record)
    requires
        same_record(res, if remote_wins(ConflictStrategy::CreatorWins, local, remote) { remote } else { local }),
    ensures
        local.created_by@ != remote.created_by@ ==> same_record(res, local),
        local.created_by@ == remote.created_by@ ==> remote_wins(ConflictStrategy::CreatorWins, local, remote)
            == remote_wins(ConflictStrategy::LastWriterWins, local, remote),
        local.created_by@ == remote.created_by@ && local.created_at_ms > remote.created_at_ms ==> same_record(res, local),
        local.created_by@ == remote.created_by@ && remote.created_at_ms >= local.created_at_ms ==> same_record(res, remote),
        local.created_by@ == remote.created_by@ ==> res.created_at_ms == (if local.created_at_ms > remote.created_at_ms {
            local.created_at_ms
        } else {
            remote.created_at_ms
        }),
{
}

/// Under last-writer-wins the kept record `res` (a result of
/// [`resolve_conflict`]) is the newer version, the remote on a tie.
pub proof fn last_writer_wins_keeps_newer(local: Record, remote: Record, res: Record)
    requires
        same_record(res, if remote_wins(ConflictStrategy::LastWriterWins, local, remote) { remote } else { local }),
    ensures
        local.created_at_ms > remote.created_at_ms ==> same_record(res, local),
        remote.created_at_ms >= local.created_at_ms ==> same_record(res, remote),
{
}

} // verus!
