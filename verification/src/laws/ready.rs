//! Which issues are listed as ready work, and what closing a blocker does
//! to that list.

use vstd::prelude::*;
use crate::listing::issue_rank;
use crate::order::{lemma_sort_members, sort_by};
use crate::seqs::lemma_filter_members;
use crate::storage::invariants::{lemma_closed, lemma_same_ids};
use crate::storage::model::StorageView;
use crate::types::{DependencyType, IssueView, Status, Timestamp, WorkFilterView};

verus! {

/// The filter that asks nothing.
pub open spec fn any_work() -> WorkFilterView {
    WorkFilterView { status: Status::Open, priority: None, assignee: None, limit: None }
}

/// An issue that is ready is listed as ready work, when the filter asks
/// nothing.
pub proof fn lemma_ready_issue_is_listed(s: StorageView, k: int)
    requires
        0 <= k < s.issues.len(),
        s.is_ready(s.issues[k]),
    ensures
        s.ready_work(any_work()).contains(s.issues[k]),
{
    let pred = s.ready_pick(any_work());
    let x = s.issues[k];
    assert(pred(x));
    assert(s.issues.contains(x));
    lemma_filter_members(s.issues, pred);
    assert(s.issues.filter(pred).contains(x));
    lemma_sort_members(s.issues.filter(pred), issue_rank());
    assert(sort_by(s.issues.filter(pred), issue_rank()).contains(x));
}

/// What is listed as ready work is a stored issue that is ready.
pub proof fn lemma_listed_issue_is_ready(s: StorageView, filter: WorkFilterView, x: IssueView)
    requires
        s.ready_work(filter).contains(x),
    ensures
        s.issues.contains(x),
        s.is_ready(x),
{
    let pred = s.ready_pick(filter);
    let sorted = sort_by(s.issues.filter(pred), issue_rank());
    let listed = s.ready_work(filter);
    let i = choose|i: int| 0 <= i < listed.len() && listed[i] == x;
    assert(sorted[i] == x);
    assert(sorted.contains(x));
    lemma_sort_members(s.issues.filter(pred), issue_rank());
    lemma_filter_members(s.issues, pred);
    assert(s.issues.filter(pred).contains(x));
}

/// An open issue none of whose edges is of the blocking type is ready, and
/// is listed as ready work.
pub proof fn lemma_informational_edges_do_not_block(s: StorageView, k: int)
    requires
        0 <= k < s.issues.len(),
        s.issues[k].status == Status::Open,
        forall|e: int|
            0 <= e < s.dependencies.len() && (#[trigger] s.dependencies[e]).issue_id == s.issues[k].id
                ==> s.dependencies[e].dep_type != DependencyType::Blocks,
    ensures
        !s.is_blocked(s.issues[k].id),
        s.is_ready(s.issues[k]),
        s.ready_work(any_work()).contains(s.issues[k]),
{
    let id = s.issues[k].id;
    lemma_no_active_blocker(s, id);
    lemma_ready_issue_is_listed(s, k);
}

/// An issue is held back exactly if one of its blocking edges leads to a
/// stored issue that is not closed.
pub proof fn lemma_blocked_means_open_blocker(s: StorageView, id: Seq<char>)
    ensures
        s.is_blocked(id) <==> exists|e: int|
            0 <= e < s.dependencies.len() && s.holds_back(id)(#[trigger] s.dependencies[e]),
{
    let pred = s.holds_back(id);
    lemma_filter_members(s.dependencies, pred);
    let f = s.dependencies.filter(pred);
    if s.is_blocked(id) {
        assert(f.contains(f[0]));
        assert(s.dependencies.contains(f[0]));
        let e = choose|e: int| 0 <= e < s.dependencies.len() && s.dependencies[e] == f[0];
        assert(s.holds_back(id)(s.dependencies[e]));
    }
    if exists|e: int| 0 <= e < s.dependencies.len() && s.holds_back(id)(#[trigger] s.dependencies[e]) {
        let e = choose|e: int|
            0 <= e < s.dependencies.len() && s.holds_back(id)(#[trigger] s.dependencies[e]);
        assert(s.dependencies.contains(s.dependencies[e]));
        assert(f.contains(s.dependencies[e]));
    }
}

/// An issue without an edge that holds it back is not held back.
proof fn lemma_no_active_blocker(s: StorageView, id: Seq<char>)
    requires
        forall|e: int|
            0 <= e < s.dependencies.len() ==> !s.holds_back(id)(#[trigger] s.dependencies[e]),
    ensures
        !s.is_blocked(id),
{
    lemma_blocked_means_open_blocker(s, id);
}

/// Closing the only issue that holds an open issue back makes that issue
/// ready: before, it is held back and not listed as ready work; after, it is
/// not held back and is listed.
pub proof fn lemma_closing_sole_blocker_readies(
    s: StorageView,
    id: Seq<char>,
    blocker: Seq<char>,
    reason: Seq<char>,
    actor: Seq<char>,
    now: Timestamp,
)
    requires
        s.wf(),
        s.has_issue(id),
        s.issue(id).status == Status::Open,
        s.blockers(id) == seq![blocker],
        id != blocker,
        s.record_outcome(blocker) is Ok,
    ensures
        s.is_blocked(id),
        !s.ready_work(any_work()).contains(s.issue(id)),
        !s.closed(blocker, reason, actor, now).is_blocked(id),
        s.closed(blocker, reason, actor, now).has_issue(id),
        s.closed(blocker, reason, actor, now).issue(id) == s.issue(id),
        s.closed(blocker, reason, actor, now).ready_work(any_work()).contains(s.issue(id)),
{
    let t = s.closed(blocker, reason, actor, now);
    assert(s.blockers(id).len() == 1);
    assert(s.is_blocked(id));
    if s.ready_work(any_work()).contains(s.issue(id)) {
        lemma_listed_issue_is_ready(s, any_work(), s.issue(id));
    }
    lemma_closed(s, blocker, reason, actor, now);
    lemma_same_ids(s, t);
    let kb = s.issue_index(blocker);
    let ki = s.issue_index(id);
    assert(t.issue_index(id) == ki);
    assert(t.issue_index(blocker) == kb);
    assert(s.issues[kb].id == blocker && s.issues[ki].id == id);
    assert(ki != kb);
    assert(t.issues[ki] == s.issues[ki]);
    assert(t.dependencies == s.dependencies);
    lemma_filter_members(s.dependencies, s.holds_back(id));
    assert forall|e: int| 0 <= e < t.dependencies.len() implies !t.holds_back(id)(
        #[trigger] t.dependencies[e],
    ) by {
        let d = t.dependencies[e];
        if t.holds_back(id)(d) {
            let x = d.depends_on_id;
            assert(s.has_issue(x));
            let kx = s.issue_index(x);
            assert(t.issue_index(x) == kx);
            if x == blocker {
                assert(t.issues[kb].status == Status::Closed);
            } else {
                assert(s.issues[kx].id == x);
                assert(kx != kb);
                assert(t.issues[kx] == s.issues[kx]);
                assert(s.holds_back(id)(d));
                assert(s.dependencies.contains(d));
                let f = s.blocking_edges(id);
                assert(f.contains(d));
                let q = choose|q: int| 0 <= q < f.len() && f[q] == d;
                assert(s.blockers(id)[q] == f[q].depends_on_id);
                assert(q == 0);
                assert(seq![blocker][0] == blocker);
            }
        }
    }
    lemma_no_active_blocker(t, id);
    lemma_ready_issue_is_listed(t, ki);
}

} // verus!
