//! What consistency means for single records, and what the lists of blocked
//! issues say.

use vstd::prelude::*;
use crate::seqs::lemma_filter_members;
use crate::storage::invariants::{lemma_closed, lemma_same_ids, lemma_updated};
use crate::storage::model::{close_time, IssueUpdatesView, StorageView};
use crate::types::{DependencyType, Status, Timestamp};

verus! {

/// In a consistent store an issue has a close time exactly if it is closed,
/// and its other fields obey the rules.
pub proof fn lemma_stored_issue_is_valid(s: StorageView, k: int)
    requires
        s.wf(),
        0 <= k < s.issues.len(),
    ensures
        (s.issues[k].closed_at is Some) == (s.issues[k].status == Status::Closed),
        0 < s.issues[k].title.len() <= crate::types::MAX_TITLE_CHARS,
        crate::types::MIN_PRIORITY <= s.issues[k].priority <= crate::types::MAX_PRIORITY,
        s.issues[k].estimated_minutes matches Some(m) ==> m >= 0,
{
    assert(s.issues[k].is_valid());
}

/// In a consistent store both ends of every edge are stored issues, and the
/// identifiers of the audit records grow along the trail.
pub proof fn lemma_references_hold(s: StorageView)
    requires
        s.wf(),
    ensures
        forall|a: Seq<char>, b: Seq<char>| #[trigger] s.has_edge(a, b) ==> s.has_issue(a) && s.has_issue(b),
        forall|id: Seq<char>, l: Seq<char>| #[trigger] s.has_label(id, l) ==> s.has_issue(id),
        forall|i: int| 0 <= i < s.dirty.len() ==> s.has_issue(#[trigger] s.dirty[i]),
        forall|i: int, j: int|
            0 <= i < j < s.events.len() ==> (#[trigger] s.events[i]).id < (#[trigger] s.events[j]).id,
{
    assert forall|a: Seq<char>, b: Seq<char>| #[trigger] s.has_edge(a, b) implies s.has_issue(a)
        && s.has_issue(b) by {
        let e = s.edge_index(a, b);
        assert(s.has_issue(s.dependencies[e].issue_id));
    }
    assert forall|id: Seq<char>, l: Seq<char>| #[trigger] s.has_label(id, l) implies s.has_issue(id) by {
        let e = s.label_index(id, l);
        assert(s.has_issue(s.labels[e].issue_id));
    }
}

/// What holds an issue back: each listed identifier is that of a stored
/// issue that is not closed and to which the issue has an edge of the
/// blocking type; and every such issue is listed.
pub proof fn lemma_blockers(s: StorageView, id: Seq<char>)
    ensures
        forall|i: int|
            0 <= i < s.blockers(id).len() ==> {
                let b = #[trigger] s.blockers(id)[i];
                &&& s.has_issue(b)
                &&& s.issue(b).status != Status::Closed
                &&& exists|e: int|
                    0 <= e < s.dependencies.len() && (#[trigger] s.dependencies[e]).issue_id == id
                        && s.dependencies[e].depends_on_id == b && s.dependencies[e].dep_type
                        == DependencyType::Blocks
            },
        forall|e: int|
            0 <= e < s.dependencies.len() && (#[trigger] s.dependencies[e]).issue_id == id
                && s.dependencies[e].dep_type == DependencyType::Blocks && s.has_issue(
                s.dependencies[e].depends_on_id,
            ) && s.issue(s.dependencies[e].depends_on_id).status != Status::Closed
                ==> s.blockers(id).contains(s.dependencies[e].depends_on_id),
{
    let pred = s.holds_back(id);
    let f = s.blocking_edges(id);
    lemma_filter_members(s.dependencies, pred);
    assert forall|i: int| 0 <= i < s.blockers(id).len() implies {
        let b = #[trigger] s.blockers(id)[i];
        &&& s.has_issue(b)
        &&& s.issue(b).status != Status::Closed
        &&& exists|e: int|
            0 <= e < s.dependencies.len() && (#[trigger] s.dependencies[e]).issue_id == id
                && s.dependencies[e].depends_on_id == b && s.dependencies[e].dep_type
                == DependencyType::Blocks
    } by {
        assert(f.contains(f[i]));
        assert(s.dependencies.contains(f[i]));
        assert(pred(f[i]));
        let e = choose|e: int| 0 <= e < s.dependencies.len() && s.dependencies[e] == f[i];
        assert(s.dependencies[e].issue_id == id && s.dependencies[e].depends_on_id == s.blockers(id)[i]
            && s.dependencies[e].dep_type == DependencyType::Blocks);
    }
    assert forall|e: int|
        0 <= e < s.dependencies.len() && (#[trigger] s.dependencies[e]).issue_id == id
            && s.dependencies[e].dep_type == DependencyType::Blocks && s.has_issue(
            s.dependencies[e].depends_on_id,
        ) && s.issue(s.dependencies[e].depends_on_id).status != Status::Closed implies s.blockers(
        id,
    ).contains(s.dependencies[e].depends_on_id) by {
        let d = s.dependencies[e];
        assert(pred(d));
        assert(s.dependencies.contains(d));
        assert(f.contains(d));
        let q = choose|q: int| 0 <= q < f.len() && f[q] == d;
        assert(s.blockers(id)[q] == d.depends_on_id);
    }
}

/// The list of blocked issues holds exactly the stored issues that
/// something holds back, each once and in stored order, with the
/// identifiers of what holds it back and their number.
pub proof fn lemma_blocked_work(s: StorageView)
    requires
        s.ids_unique(),
    ensures
        forall|i: int|
            0 <= i < s.blocked_work().len() ==> {
                let b = #[trigger] s.blocked_work()[i];
                &&& s.issues.contains(b.issue)
                &&& s.is_blocked(b.issue.id)
                &&& b.blocked_by == s.blockers(b.issue.id)
                &&& b.blocked_by_count == b.blocked_by.len()
                &&& b.blocked_by_count > 0
            },
        forall|k: int|
            0 <= k < s.issues.len() && s.is_blocked((#[trigger] s.issues[k]).id) ==> exists|i: int|
                0 <= i < s.blocked_work().len() && (#[trigger] s.blocked_work()[i]).issue == s.issues[k],
{
    let pred = s.blocked_pick();
    let f = s.issues.filter(pred);
    lemma_filter_members(s.issues, pred);
    assert forall|i: int| 0 <= i < s.blocked_work().len() implies {
        let b = #[trigger] s.blocked_work()[i];
        &&& s.issues.contains(b.issue)
        &&& s.is_blocked(b.issue.id)
        &&& b.blocked_by == s.blockers(b.issue.id)
        &&& b.blocked_by_count == b.blocked_by.len()
        &&& b.blocked_by_count > 0
    } by {
        assert(f.contains(f[i]));
        assert(pred(f[i]));
    }
    assert forall|k: int|
        0 <= k < s.issues.len() && s.is_blocked((#[trigger] s.issues[k]).id) implies exists|i: int|
        0 <= i < s.blocked_work().len() && (#[trigger] s.blocked_work()[i]).issue == s.issues[k] by {
        assert(pred(s.issues[k]));
        assert(s.issues.contains(s.issues[k]));
        assert(f.contains(s.issues[k]));
        let i = choose|i: int| 0 <= i < f.len() && f[i] == s.issues[k];
        assert(s.blocked_work()[i].issue == s.issues[k]);
    }
}

/// A close time is set once. Closing an issue leaves it closed, with the
/// close time it had, or with the time of the closing if it had none.
pub proof fn lemma_close_time_is_set_once(
    s: StorageView,
    id: Seq<char>,
    reason: Seq<char>,
    actor: Seq<char>,
    now: Timestamp,
)
    requires
        s.wf(),
        s.record_outcome(id) is Ok,
    ensures
        s.closed(id, reason, actor, now).has_issue(id),
        s.closed(id, reason, actor, now).issue(id).status == Status::Closed,
        s.closed(id, reason, actor, now).issue(id).closed_at == close_time(s.issue(id).closed_at, now),
        s.issue(id).status == Status::Closed ==> s.closed(id, reason, actor, now).issue(id).closed_at
            == s.issue(id).closed_at,
{
    let t = s.closed(id, reason, actor, now);
    let k = s.issue_index(id);
    lemma_closed(s, id, reason, actor, now);
    lemma_same_ids(s, t);
    assert(t.issue_index(id) == k);
    assert(s.issues[k].is_valid());
}

/// An update of a closed issue that leaves it closed leaves its close time
/// as it is.
pub proof fn lemma_update_keeps_close_time(
    s: StorageView,
    id: Seq<char>,
    updates: IssueUpdatesView,
    actor: Seq<char>,
    now: Timestamp,
)
    requires
        s.wf(),
        s.update_outcome(id, updates, now) is Ok,
        s.issue(id).status == Status::Closed,
        s.updated(id, updates, actor, now).issue(id).status == Status::Closed,
    ensures
        s.updated(id, updates, actor, now).issue(id).closed_at == s.issue(id).closed_at,
{
    let t = s.updated(id, updates, actor, now);
    let k = s.issue_index(id);
    lemma_updated(s, id, updates, actor, now);
    lemma_same_ids(s, t);
    assert(t.issue_index(id) == k);
    assert(s.issues[k].is_valid());
}

} // verus!
