//! What the listings and counts of a store hold: labels, searches, the
//! audit trail of an issue, and lead times.

use vstd::prelude::*;
use vstd::string::*;
use crate::listing::{event_rank, issue_rank};
use crate::order::{limited, sort_by};
use crate::storage::model::StorageView;
use crate::types::{EventView, IssueFilterView, IssueView, LabelView, Status};

verus! {

/// The label sits on the issue `id`.
pub open spec fn sits_on(id: Seq<char>) -> spec_fn(LabelView) -> bool {
    |l: LabelView| l.issue_id == id
}

/// The label reads `label`.
pub open spec fn reads(label: Seq<char>) -> spec_fn(LabelView) -> bool {
    |l: LabelView| l.label == label
}

/// The record is about the issue `id`.
pub open spec fn is_about(id: Seq<char>) -> spec_fn(EventView) -> bool {
    |e: EventView| e.issue_id == id
}

/// The issue has the status `status`.
pub open spec fn has_status(status: Status) -> spec_fn(IssueView) -> bool {
    |i: IssueView| i.status == status
}

/// The issue has a close time.
pub open spec fn has_close_time() -> spec_fn(IssueView) -> bool {
    |i: IssueView| i.closed_at is Some
}

/// The identifier is not among `ids`.
pub open spec fn not_among(ids: Seq<Seq<char>>) -> spec_fn(Seq<char>) -> bool {
    |d: Seq<char>| !ids.contains(d)
}

impl StorageView {
    /// The labels of the issue `id`, in the order in which they were
    /// attached.
    pub open spec fn labels_of(self, id: Seq<char>) -> Seq<Seq<char>> {
        Seq::new(self.labels.filter(sits_on(id)).len(), |k: int| self.labels.filter(sits_on(id))[k].label)
    }

    /// The issues that carry the label `label`, in the order in which it was
    /// attached to them.
    pub open spec fn issues_labelled(self, label: Seq<char>) -> Seq<IssueView> {
        Seq::new(
            self.labels.filter(reads(label)).len(),
            |k: int| self.issue(self.labels.filter(reads(label))[k].issue_id),
        )
    }

    /// The issue `id` carries one of the labels `wanted`.
    pub open spec fn label_hit(self, id: Seq<char>, wanted: Seq<Seq<char>>) -> bool {
        exists|k: int|
            0 <= k < self.labels.len() && (#[trigger] self.labels[k]).issue_id == id && wanted.contains(
                self.labels[k].label,
            )
    }

    /// The issue has what the filter asks for: each field that the filter
    /// names agrees, and, if the filter lists labels, the issue carries one
    /// of them.
    pub open spec fn search_pick(self, filter: IssueFilterView) -> spec_fn(IssueView) -> bool {
        |i: IssueView|
            (filter.status matches Some(s) ==> i.status == s) && (filter.priority matches Some(p)
                ==> i.priority == p) && (filter.issue_type matches Some(t) ==> i.issue_type == t) && (
            filter.assignee matches Some(a) ==> i.assignee == a) && (filter.labels.len() > 0
                ==> self.label_hit(i.id, filter.labels))
    }

    /// The issues that pass the filter, in listing order, cut at the filter's
    /// limit.
    pub open spec fn search(self, filter: IssueFilterView) -> Seq<IssueView> {
        limited(sort_by(self.issues.filter(self.search_pick(filter)), issue_rank()), filter.limit)
    }

    /// The audit records about the issue `id`, the most recent first, at most
    /// `limit` of them.
    pub open spec fn recent_events(self, id: Seq<char>, limit: usize) -> Seq<EventView> {
        limited(sort_by(self.events.filter(is_about(id)), event_rank()), Some(limit))
    }

    /// The issue can be started.
    pub open spec fn startable(self) -> spec_fn(IssueView) -> bool {
        |i: IssueView| self.is_ready(i)
    }

    /// For each issue with a close time, in stored order, the whole seconds
    /// from its creation to its closing.
    pub open spec fn lead_times(self) -> Seq<int> {
        Seq::new(
            self.issues.filter(has_close_time()).len(),
            |k: int|
                self.issues.filter(has_close_time())[k].created_at.seconds_until(
                    self.issues.filter(has_close_time())[k].closed_at->0,
                ),
        )
    }
}

} // verus!
