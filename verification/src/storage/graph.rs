//! What the dependency edges of a store say: what an issue depends on, what
//! holds it back, and which work can start.

use vstd::prelude::*;
use vstd::string::*;
use crate::listing::issue_rank;
use crate::order::{limited, sort_by};
use crate::storage::model::StorageView;
use crate::types::{
    BlockedIssue, BlockedIssueView, DependencyType, DependencyView, IssueView, Status,
    WorkFilterView,
};

verus! {

/// The edge leaves the issue `id`.
pub open spec fn leaves_from(id: Seq<char>) -> spec_fn(DependencyView) -> bool {
    |d: DependencyView| d.issue_id == id
}

/// The edge arrives at the issue `id`.
pub open spec fn arrives_at(id: Seq<char>) -> spec_fn(DependencyView) -> bool {
    |d: DependencyView| d.depends_on_id == id
}

impl StorageView {
    /// The edges that leave the issue `id`, in stored order.
    pub open spec fn edges_from(self, id: Seq<char>) -> Seq<DependencyView> {
        self.dependencies.filter(leaves_from(id))
    }

    /// The edges that arrive at the issue `id`, in stored order.
    pub open spec fn edges_to(self, id: Seq<char>) -> Seq<DependencyView> {
        self.dependencies.filter(arrives_at(id))
    }

    /// The identifiers that the issue `id` depends on, in the order of its
    /// edges.
    pub open spec fn targets_of(self, id: Seq<char>) -> Seq<Seq<char>> {
        Seq::new(self.edges_from(id).len(), |k: int| self.edges_from(id)[k].depends_on_id)
    }

    /// The issues that the issue `id` depends on, in the order of its edges.
    pub open spec fn dependencies_of(self, id: Seq<char>) -> Seq<IssueView> {
        Seq::new(self.edges_from(id).len(), |k: int| self.issue(self.edges_from(id)[k].depends_on_id))
    }

    /// The issues that depend on the issue `id`, in the order of the edges.
    pub open spec fn dependents_of(self, id: Seq<char>) -> Seq<IssueView> {
        Seq::new(self.edges_to(id).len(), |k: int| self.issue(self.edges_to(id)[k].issue_id))
    }

    /// The edge holds the issue `id` back: it leaves `id`, it is of the
    /// blocking type, and the issue at its far end is stored and not closed.
    pub open spec fn holds_back(self, id: Seq<char>) -> spec_fn(DependencyView) -> bool {
        |d: DependencyView|
            d.issue_id == id && d.dep_type == DependencyType::Blocks && self.has_issue(d.depends_on_id)
                && self.issue(d.depends_on_id).status != Status::Closed
    }

    /// The edges that hold the issue `id` back, in stored order.
    pub open spec fn blocking_edges(self, id: Seq<char>) -> Seq<DependencyView> {
        self.dependencies.filter(self.holds_back(id))
    }

    /// The identifiers of the issues that hold the issue `id` back.
    pub open spec fn blockers(self, id: Seq<char>) -> Seq<Seq<char>> {
        Seq::new(self.blocking_edges(id).len(), |k: int| self.blocking_edges(id)[k].depends_on_id)
    }

    /// Something holds the issue `id` back.
    pub open spec fn is_blocked(self, id: Seq<char>) -> bool {
        self.blocking_edges(id).len() > 0
    }

    /// The issue can be started: it is open and nothing holds it back.
    pub open spec fn is_ready(self, issue: IssueView) -> bool {
        issue.status == Status::Open && !self.is_blocked(issue.id)
    }

    /// The issue is ready and has what the filter asks for.
    pub open spec fn ready_pick(self, filter: WorkFilterView) -> spec_fn(IssueView) -> bool {
        |i: IssueView|
            self.is_ready(i) && (filter.priority matches Some(p) ==> i.priority == p) && (
            filter.assignee matches Some(a) ==> i.assignee == a)
    }

    /// The ready issues that pass the filter, in listing order, cut at the
    /// filter's limit.
    pub open spec fn ready_work(self, filter: WorkFilterView) -> Seq<IssueView> {
        limited(sort_by(self.issues.filter(self.ready_pick(filter)), issue_rank()), filter.limit)
    }

    /// Something holds the issue back.
    pub open spec fn blocked_pick(self) -> spec_fn(IssueView) -> bool {
        |i: IssueView| self.is_blocked(i.id)
    }

    /// The issues that something holds back, in stored order, each with the
    /// identifiers of what holds it back and their number.
    pub open spec fn blocked_work(self) -> Seq<BlockedIssueView> {
        Seq::new(
            self.issues.filter(self.blocked_pick()).len(),
            |k: int|
                BlockedIssueView {
                    issue: self.issues.filter(self.blocked_pick())[k],
                    blocked_by_count: self.blockers(self.issues.filter(self.blocked_pick())[k].id).len(),
                    blocked_by: self.blockers(self.issues.filter(self.blocked_pick())[k].id),
                },
        )
    }
}

/// The views of a list of blocked issues.
pub open spec fn blocked_views(s: Seq<BlockedIssue>) -> Seq<BlockedIssueView> {
    s.map_values(|b: BlockedIssue| b@)
}

} // verus!
