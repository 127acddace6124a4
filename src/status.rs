//! The status report: parse both sources, keep the active leases, merge.

use vstd::prelude::*;
use crate::error::StatusError;
use crate::lease::{LeaseRecord, LeaseView, lease_blocks, lease_of_block, parse_leases};
use crate::merge::{
    StatusEntry, entry_views, in_key_order, is_merge_of, key_sequence, lease_views, neighbor_views, merge,
};
use crate::neighbor::{NeighborView, neighbor_rows, neighbor_of_row, parse_neighbors, rows_of};
use crate::text::{lines, trim};

verus! {

/// The leases of `ls` still active at `now`, in order.
pub open spec fn active_leases(ls: Seq<LeaseView>, now: int) -> Seq<LeaseView>
    decreases ls.len(),
{
    if ls.len() == 0 {
        seq![]
    } else {
        let p = active_leases(ls.drop_last(), now);
        if ls.last().expires_at > now {
            p.push(ls.last())
        } else {
            p
        }
    }
}

/// The leases of a lease database text, where every block reads.
pub open spec fn parsed_leases(text: Seq<char>) -> Option<Seq<LeaseView>> {
    let b = lease_blocks(text);
    if forall|k: int| 0 <= k < b.len() ==> (#[trigger] lease_of_block(b[k])) is Some {
        Some(Seq::new(b.len(), |k: int| lease_of_block(b[k])->0))
    } else {
        None
    }
}

/// The entries of a neighbor table listing, where every row reads.
pub open spec fn parsed_neighbors(text: Seq<char>) -> Option<Seq<NeighborView>> {
    let rows = neighbor_rows(text);
    if forall|k: int| 0 <= k < rows.len() ==> (#[trigger] neighbor_of_row(rows[k])) is Some {
        Some(Seq::new(rows.len(), |k: int| neighbor_of_row(rows[k])->0))
    } else {
        None
    }
}

proof fn lemma_row_kept(s: Seq<Seq<char>>, idx: int)
    requires
        0 <= idx < s.len(),
        trim(s[idx]).len() > 0,
    ensures
        exists|k: int| 0 <= k < rows_of(s).len() && #[trigger] rows_of(s)[k] == trim(s[idx]),
    decreases s.len(),
{
    let p = rows_of(s.drop_last());
    if idx == s.len() - 1 {
        assert(rows_of(s)[p.len() as int] == trim(s[idx]));
    } else {
        assert(s.drop_last()[idx] == s[idx]);
        lemma_row_kept(s.drop_last(), idx);
        let k = choose|k: int| 0 <= k < p.len() && #[trigger] p[k] == trim(s[idx]);
        assert(rows_of(s)[k] == p[k]);
    }
}

/// The leases still active at `now`, in order.
pub fn filter_available(leases: &Vec<LeaseRecord>, now: i64) -> (r: Vec<LeaseRecord>)
    ensures
        lease_views(r@) == active_leases(lease_views(leases@), now as int),
{
    let ghost ls = lease_views(leases@);
    let mut out: Vec<LeaseRecord> = Vec::new();
    let mut k: usize = 0;
    while k < leases.len()
        invariant
            k <= leases@.len(),
            ls == lease_views(leases@),
            lease_views(out@) == active_leases(ls.subrange(0, k as int), now as int),
        decreases leases@.len() - k,
    {
        proof {
            assert(ls.subrange(0, k + 1).drop_last() =~= ls.subrange(0, k as int));
            assert(ls[k as int] == leases@[k as int]@);
        }
        if leases[k].is_available(now) {
            let ghost before = out@;
            out.push(leases[k].duplicate());
            assert(lease_views(out@) =~= lease_views(before).push(leases@[k as int]@));
        }
        k = k + 1;
    }
    assert(ls.subrange(0, k as int) =~= ls);
    out
}

/// The report for the lease database text `lease_text` and the neighbor table
/// listing `neighbor_text` at the time `now`.
///
/// It exists when both sources read; a lease block that does not read is
/// reported before a neighbor row that does not.
pub fn status_report(lease_text: &str, neighbor_text: &str, now: i64) -> (r: Result<
    Vec<StatusEntry>,
    StatusError,
>)
    ensures
        match r {
            Ok(v) => parsed_leases(lease_text@) matches Some(ls) && parsed_neighbors(neighbor_text@) matches Some(ns)
                && is_merge_of(entry_views(v@), active_leases(ls, now as int), ns)
                && in_key_order(entry_views(v@), key_sequence(active_leases(ls, now as int), ns)),
            Err(e) => if parsed_leases(lease_text@) is None {
                e is MalformedLease
            } else {
                parsed_neighbors(neighbor_text@) is None && e is MalformedNeighbor
            },
        },
{
    let leases = match parse_leases(lease_text) {
        Ok(v) => v,
        Err(e) => {
            return Err(e);
        },
    };
    proof {
        let b = lease_blocks(lease_text@);
        assert(lease_views(leases@) =~= Seq::new(b.len(), |k: int| lease_of_block(b[k])->0));
    }
    let neighbors = match parse_neighbors(neighbor_text) {
        Ok(v) => v,
        Err(e) => {
            proof {
                if let StatusError::MalformedNeighbor { line } = e {
                    let ls = lines(neighbor_text@);
                    assert(ls.drop_first()[line - 1] == ls[line as int]);
                    lemma_row_kept(ls.drop_first(), line - 1);
                }
            }
            return Err(e);
        },
    };
    proof {
        let rows = neighbor_rows(neighbor_text@);
        assert(neighbor_views(neighbors@) =~= Seq::new(rows.len(), |k: int| neighbor_of_row(rows[k])->0));
    }
    let active = filter_available(&leases, now);
    Ok(merge(&active, &neighbors))
}

} // verus!
