//! Listings are in their order, within their limit, and hold what they
//! should.

use vstd::prelude::*;
use crate::listing::{
    event_rank, issue_rank, lemma_event_rank_is_an_order, lemma_issue_rank_is_an_order,
};
use crate::order::{
    is_sorted, lemma_sort_members, lemma_sort_permutes, lemma_sort_sorted, limited, sort_by,
};
use crate::seqs::lemma_filter_members;
use crate::storage::model::StorageView;
use crate::storage::query::is_about;
use crate::types::{IssueFilterView, IssueView, WorkFilterView};

verus! {

/// Cutting an ordered listing short leaves an ordered listing whose elements
/// are elements of the whole.
pub proof fn lemma_limited_keeps_order<T>(all: Seq<T>, limit: Option<usize>, le: spec_fn(T, T) -> bool)
    requires
        is_sorted(all, le),
    ensures
        is_sorted(limited(all, limit), le),
        limited(all, limit).len() <= all.len(),
        limit matches Some(n) ==> limited(all, limit).len() <= n,
        forall|i: int| 0 <= i < limited(all, limit).len() ==> #[trigger] limited(all, limit)[i] == all[i],
{
    let cut = limited(all, limit);
    assert forall|i: int, j: int| 0 <= i < j < cut.len() implies le(#[trigger] cut[i], #[trigger] cut[j]) by {
        assert(le(all[i], all[j]));
    }
}

/// A search lists issues in listing order, never more than its limit, and
/// only stored issues that pass the filter; without a limit it lists every
/// stored issue that passes, as often as it is stored.
pub proof fn lemma_search_listing(s: StorageView, filter: IssueFilterView)
    ensures
        is_sorted(s.search(filter), issue_rank()),
        filter.limit matches Some(n) ==> s.search(filter).len() <= n,
        forall|x: IssueView| #[trigger]
            s.search(filter).contains(x) ==> s.issues.contains(x) && s.search_pick(filter)(x),
        filter.limit is None ==> forall|x: IssueView|
            s.issues.contains(x) && s.search_pick(filter)(x) ==> #[trigger] s.search(filter).contains(x),
        filter.limit is None ==> s.search(filter).len() == s.issues.filter(s.search_pick(filter)).len(),
{
    let pred = s.search_pick(filter);
    let picked = s.issues.filter(pred);
    let sorted = sort_by(picked, issue_rank());
    lemma_issue_rank_is_an_order();
    lemma_sort_sorted(picked, issue_rank());
    lemma_sort_members(picked, issue_rank());
    lemma_sort_permutes(picked, issue_rank());
    lemma_filter_members(s.issues, pred);
    lemma_limited_keeps_order(sorted, filter.limit, issue_rank());
    let listed = s.search(filter);
    assert forall|x: IssueView| #[trigger] listed.contains(x) implies s.issues.contains(x) && pred(x) by {
        let i = choose|i: int| 0 <= i < listed.len() && listed[i] == x;
        assert(sorted[i] == x);
        assert(sorted.contains(x));
        assert(picked.contains(x));
    }
    if filter.limit is None {
        assert forall|x: IssueView| s.issues.contains(x) && pred(x) implies #[trigger] listed.contains(
            x,
        ) by {
            assert(picked.contains(x));
            assert(sorted.contains(x));
        }
    }
}

/// Ready work is listed in listing order, never more than the limit.
pub proof fn lemma_ready_work_listing(s: StorageView, filter: WorkFilterView)
    ensures
        is_sorted(s.ready_work(filter), issue_rank()),
        filter.limit matches Some(n) ==> s.ready_work(filter).len() <= n,
{
    let picked = s.issues.filter(s.ready_pick(filter));
    lemma_issue_rank_is_an_order();
    lemma_sort_sorted(picked, issue_rank());
    lemma_limited_keeps_order(sort_by(picked, issue_rank()), filter.limit, issue_rank());
}

/// The audit records of an issue are listed the most recent first, at most
/// `limit` of them, and each is a record about that issue.
pub proof fn lemma_recent_events_listing(s: StorageView, id: Seq<char>, limit: usize)
    ensures
        is_sorted(s.recent_events(id, limit), event_rank()),
        s.recent_events(id, limit).len() <= limit,
        forall|i: int|
            0 <= i < s.recent_events(id, limit).len() ==> (#[trigger] s.recent_events(
                id,
                limit,
            )[i]).issue_id == id && s.events.contains(s.recent_events(id, limit)[i]),
{
    let pred = is_about(id);
    let picked = s.events.filter(pred);
    let sorted = sort_by(picked, event_rank());
    lemma_event_rank_is_an_order();
    lemma_sort_sorted(picked, event_rank());
    lemma_sort_members(picked, event_rank());
    lemma_filter_members(s.events, pred);
    lemma_limited_keeps_order(sorted, Some(limit), event_rank());
    let listed = s.recent_events(id, limit);
    assert forall|i: int| 0 <= i < listed.len() implies (#[trigger] listed[i]).issue_id == id
        && s.events.contains(listed[i]) by {
        assert(sorted[i] == listed[i]);
        assert(sorted.contains(listed[i]));
        assert(picked.contains(listed[i]));
    }
}

} // verus!
