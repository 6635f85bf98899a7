//! The mathematical model of the store: what it holds, when it is
//! consistent, and what each operation makes of it.

use vstd::prelude::*;
use crate::error::{Missing, StorageFault, TraceError};
use crate::types::{
    DependencyView, EventType, EventView, IssueType, IssueView, LabelView, Status, Timestamp,
};

verus! {

/// One field of a partial update that can also be emptied.
#[derive(Debug)]
pub enum FieldPatch<T> {
    /// Leave the field as it is.
    Untouched,
    /// Give the field this value.
    Replace(T),
    /// Empty the field.
    Cleared,
}

impl<T> FieldPatch<T> {
    /// The field's next value, given its current one.
    pub open spec fn apply(self, current: Option<T>) -> Option<T> {
        match self {
            FieldPatch::Untouched => current,
            FieldPatch::Replace(v) => Some(v),
            FieldPatch::Cleared => None,
        }
    }
}

/// The mathematical value of a partial update.
pub ghost struct IssueUpdatesView {
    pub title: Option<Seq<char>>,
    pub description: Option<Seq<char>>,
    pub design: Option<Seq<char>>,
    pub acceptance_criteria: Option<Seq<char>>,
    pub notes: Option<Seq<char>>,
    pub status: Option<Status>,
    pub priority: Option<i32>,
    pub issue_type: Option<IssueType>,
    pub assignee: Option<Seq<char>>,
    pub estimated_minutes: FieldPatch<i32>,
    pub external_ref: FieldPatch<Seq<char>>,
}

/// The close time of an issue that is closed at `now`: the one it has, for a
/// close time is set once; else `now`.
pub open spec fn close_time(current: Option<Timestamp>, now: Timestamp) -> Option<Timestamp> {
    if current is Some {
        current
    } else {
        Some(now)
    }
}

/// `next` if it is there, else `current`.
pub open spec fn or_keep<T>(next: Option<T>, current: T) -> T {
    match next {
        Some(v) => v,
        None => current,
    }
}

impl IssueUpdatesView {
    /// The issue that `current` becomes: each field that the update names is
    /// replaced, every other one kept; the time of the last change is `now`;
    /// the close time is kept while the issue stays closed, set to `now` when
    /// it becomes closed, and dropped when it is no longer closed.
    pub open spec fn apply(self, current: IssueView, now: Timestamp) -> IssueView {
        let status = or_keep(self.status, current.status);
        IssueView {
            id: current.id,
            title: or_keep(self.title, current.title),
            description: or_keep(self.description, current.description),
            design: or_keep(self.design, current.design),
            acceptance_criteria: or_keep(self.acceptance_criteria, current.acceptance_criteria),
            notes: or_keep(self.notes, current.notes),
            status: status,
            priority: or_keep(self.priority, current.priority),
            issue_type: or_keep(self.issue_type, current.issue_type),
            assignee: or_keep(self.assignee, current.assignee),
            estimated_minutes: self.estimated_minutes.apply(current.estimated_minutes),
            created_at: current.created_at,
            updated_at: now,
            closed_at: if status == Status::Closed {
                close_time(current.closed_at, now)
            } else {
                None
            },
            external_ref: self.external_ref.apply(current.external_ref),
            dependencies: current.dependencies,
        }
    }

    /// How many audit records an update writes: one for the update, and one
    /// more when it names a status.
    pub open spec fn event_count(self) -> int {
        if self.status is Some {
            2
        } else {
            1
        }
    }
}

/// Everything the store holds, as plain mathematical values.
pub ghost struct StorageView {
    /// The issues, in the order in which they were stored.
    pub issues: Seq<IssueView>,
    /// The dependency edges, in the order in which their pairs first arrived.
    pub dependencies: Seq<DependencyView>,
    /// The labels, in the order in which they were attached.
    pub labels: Seq<LabelView>,
    /// The audit trail, oldest record first.
    pub events: Seq<EventView>,
    /// The issues changed since the last export, oldest mark first.
    pub dirty: Seq<Seq<char>>,
    /// The last number handed out for each prefix.
    pub counters: Map<Seq<char>, i64>,
    /// The configuration entries.
    pub config: Map<Seq<char>, Seq<char>>,
    /// The bookkeeping entries.
    pub metadata: Map<Seq<char>, Seq<char>>,
}

impl StorageView {
    /// A store that holds nothing.
    pub open spec fn empty() -> StorageView {
        StorageView {
            issues: Seq::empty(),
            dependencies: Seq::empty(),
            labels: Seq::empty(),
            events: Seq::empty(),
            dirty: Seq::empty(),
            counters: Map::empty(),
            config: Map::empty(),
            metadata: Map::empty(),
        }
    }

    // ----- looking things up -------------------------------------------

    /// An issue with this identifier is stored.
    pub open spec fn has_issue(self, id: Seq<char>) -> bool {
        exists|i: int| 0 <= i < self.issues.len() && (#[trigger] self.issues[i]).id == id
    }

    /// A position at which the issue with this identifier is stored.
    pub open spec fn issue_index(self, id: Seq<char>) -> int {
        choose|i: int| 0 <= i < self.issues.len() && (#[trigger] self.issues[i]).id == id
    }

    /// The stored issue with this identifier.
    pub open spec fn issue(self, id: Seq<char>) -> IssueView {
        self.issues[self.issue_index(id)]
    }

    /// The stored issue with this identifier, if there is one.
    pub open spec fn find_issue(self, id: Seq<char>) -> Option<IssueView> {
        if self.has_issue(id) {
            Some(self.issue(id))
        } else {
            None
        }
    }

    /// An edge from `from` to `to` is stored.
    pub open spec fn has_edge(self, from: Seq<char>, to: Seq<char>) -> bool {
        exists|k: int|
            0 <= k < self.dependencies.len() && (#[trigger] self.dependencies[k]).issue_id == from
                && self.dependencies[k].depends_on_id == to
    }

    /// A position at which the edge from `from` to `to` is stored.
    pub open spec fn edge_index(self, from: Seq<char>, to: Seq<char>) -> int {
        choose|k: int|
            0 <= k < self.dependencies.len() && (#[trigger] self.dependencies[k]).issue_id == from
                && self.dependencies[k].depends_on_id == to
    }

    /// The issue `id` carries the label `label`.
    pub open spec fn has_label(self, id: Seq<char>, label: Seq<char>) -> bool {
        exists|k: int|
            0 <= k < self.labels.len() && (#[trigger] self.labels[k]).issue_id == id
                && self.labels[k].label == label
    }

    /// A position at which the label `label` of issue `id` is stored.
    pub open spec fn label_index(self, id: Seq<char>, label: Seq<char>) -> int {
        choose|k: int|
            0 <= k < self.labels.len() && (#[trigger] self.labels[k]).issue_id == id
                && self.labels[k].label == label
    }

    /// The identifier that the next audit record gets.
    pub open spec fn next_event_id(self) -> int {
        if self.events.len() == 0 {
            1
        } else {
            self.events.last().id + 1
        }
    }

    /// The audit trail can take `n` more records.
    pub open spec fn event_room(self, n: int) -> bool {
        self.next_event_id() + n - 1 <= i64::MAX
    }

    // ----- consistency -------------------------------------------------

    /// No identifier is stored twice.
    pub open spec fn ids_unique(self) -> bool {
        forall|i: int, j: int|
            0 <= i < j < self.issues.len() ==> (#[trigger] self.issues[i]).id != (
            #[trigger] self.issues[j]).id
    }

    /// Every stored issue obeys the field rules and carries no edge list.
    pub open spec fn issues_valid(self) -> bool {
        forall|i: int|
            0 <= i < self.issues.len() ==> (#[trigger] self.issues[i]).is_valid()
                && self.issues[i].dependencies.len() == 0
    }

    /// Both ends of every edge are stored issues, and no ordered pair has two
    /// edges.
    pub open spec fn edges_sound(self) -> bool {
        &&& forall|k: int|
            0 <= k < self.dependencies.len() ==> self.has_issue(
                (#[trigger] self.dependencies[k]).issue_id,
            ) && self.has_issue(self.dependencies[k].depends_on_id)
        &&& forall|k: int, l: int|
            0 <= k < l < self.dependencies.len() ==> !((#[trigger] self.dependencies[k]).issue_id
                == (#[trigger] self.dependencies[l]).issue_id && self.dependencies[k].depends_on_id
                == self.dependencies[l].depends_on_id)
    }

    /// Every label sits on a stored issue, and no issue carries a label twice.
    pub open spec fn labels_sound(self) -> bool {
        &&& forall|k: int|
            0 <= k < self.labels.len() ==> self.has_issue((#[trigger] self.labels[k]).issue_id)
        &&& forall|k: int, l: int|
            0 <= k < l < self.labels.len() ==> !((#[trigger] self.labels[k]).issue_id == (
            #[trigger] self.labels[l]).issue_id && self.labels[k].label == self.labels[l].label)
    }

    /// Every audit record is about a stored issue, and the identifiers of the
    /// records grow strictly along the trail.
    pub open spec fn events_sound(self) -> bool {
        &&& forall|k: int|
            0 <= k < self.events.len() ==> self.has_issue((#[trigger] self.events[k]).issue_id)
        &&& forall|k: int, l: int|
            0 <= k < l < self.events.len() ==> (#[trigger] self.events[k]).id < (
            #[trigger] self.events[l]).id
    }

    /// Every mark is on a stored issue, and no issue is marked twice.
    pub open spec fn dirty_sound(self) -> bool {
        &&& forall|k: int| 0 <= k < self.dirty.len() ==> self.has_issue(#[trigger] self.dirty[k])
        &&& self.dirty.no_duplicates()
    }

    /// No counter is negative.
    pub open spec fn counters_sound(self) -> bool {
        forall|p: Seq<char>| self.counters.contains_key(p) ==> #[trigger] self.counters[p] >= 0
    }

    /// The store is consistent.
    pub open spec fn wf(self) -> bool {
        &&& self.ids_unique()
        &&& self.issues_valid()
        &&& self.edges_sound()
        &&& self.labels_sound()
        &&& self.events_sound()
        &&& self.dirty_sound()
        &&& self.counters_sound()
    }

    // ----- the three steps that every change shares ---------------------

    /// The store after the issue `id` got `now` as the time of its last
    /// change.
    pub open spec fn touched(self, id: Seq<char>, now: Timestamp) -> StorageView {
        let k = self.issue_index(id);
        StorageView {
            issues: self.issues.update(k, IssueView { updated_at: now, ..self.issues[k] }),
            ..self
        }
    }

    /// The store after one more audit record.
    pub open spec fn logged(
        self,
        issue_id: Seq<char>,
        event_type: EventType,
        actor: Seq<char>,
        new_value: Option<Seq<char>>,
        comment: Option<Seq<char>>,
        now: Timestamp,
    ) -> StorageView {
        StorageView {
            events: self.events.push(
                EventView {
                    id: self.next_event_id() as i64,
                    issue_id: issue_id,
                    event_type: event_type,
                    actor: actor,
                    old_value: None,
                    new_value: new_value,
                    comment: comment,
                    created_at: now,
                },
            ),
            ..self
        }
    }

    /// The store after the issue `id` was marked as changed; a second mark
    /// changes nothing.
    pub open spec fn marked(self, id: Seq<char>) -> StorageView {
        if self.dirty.contains(id) {
            self
        } else {
            StorageView { dirty: self.dirty.push(id), ..self }
        }
    }

    // ----- the issue repository ----------------------------------------

    /// Whether `issue` can be stored: its fields obey the rules, its
    /// identifier is new, and the audit trail has room.
    pub open spec fn create_outcome(self, issue: IssueView) -> Result<(), TraceError> {
        if issue.check() is Err {
            issue.check()
        } else if self.has_issue(issue.id) {
            Err(TraceError::Storage(StorageFault::DuplicateId))
        } else if !self.event_room(1) {
            Err(TraceError::Storage(StorageFault::EventLogFull))
        } else {
            Ok(())
        }
    }

    /// The store after `issue` was stored: the issue is last, without its edge
    /// list; the trail reports the creation; the issue is marked.
    pub open spec fn created(self, issue: IssueView, actor: Seq<char>, now: Timestamp) -> StorageView {
        StorageView { issues: self.issues.push(issue.without_dependencies()), ..self }.logged(
            issue.id,
            EventType::Created,
            actor,
            None,
            None,
            now,
        ).marked(issue.id)
    }

    /// Whether the update can be applied: the issue exists, what it becomes
    /// obeys the field rules, and the audit trail has room.
    pub open spec fn update_outcome(
        self,
        id: Seq<char>,
        updates: IssueUpdatesView,
        now: Timestamp,
    ) -> Result<(), TraceError> {
        if !self.has_issue(id) {
            Err(TraceError::NotFound(Missing::Issue))
        } else if updates.apply(self.issue(id), now).check() is Err {
            updates.apply(self.issue(id), now).check()
        } else if !self.event_room(updates.event_count()) {
            Err(TraceError::Storage(StorageFault::EventLogFull))
        } else {
            Ok(())
        }
    }

    /// The store after the update: the issue holds the new field values; the
    /// trail reports the new status, if the update names one, and then the
    /// update; the issue is marked.
    pub open spec fn updated(
        self,
        id: Seq<char>,
        updates: IssueUpdatesView,
        actor: Seq<char>,
        now: Timestamp,
    ) -> StorageView {
        let k = self.issue_index(id);
        let stored = StorageView {
            issues: self.issues.update(k, updates.apply(self.issues[k], now)),
            ..self
        };
        let reported = match updates.status {
            Some(s) => stored.logged(id, EventType::StatusChanged, actor, Some(s.name()), None, now),
            None => stored,
        };
        reported.logged(id, EventType::Updated, actor, None, None, now).marked(id)
    }

    /// Whether `issue` can take the place of the stored issue with its
    /// identifier: that issue exists, the fields of `issue` obey the rules,
    /// and the audit trail has room for two records.
    pub open spec fn replace_outcome(self, issue: IssueView) -> Result<(), TraceError> {
        if !self.has_issue(issue.id) {
            Err(TraceError::NotFound(Missing::Issue))
        } else if issue.check() is Err {
            issue.check()
        } else if !self.event_room(2) {
            Err(TraceError::Storage(StorageFault::EventLogFull))
        } else {
            Ok(())
        }
    }

    /// The store after `issue` took the place of the stored issue with its
    /// identifier: every field of the stored issue is that of `issue`, but
    /// for the time of the last change, which is `now`, and the edge list,
    /// which is empty; the trail reports the status and then the update; the
    /// issue is marked.
    pub open spec fn replaced(self, issue: IssueView, actor: Seq<char>, now: Timestamp) -> StorageView {
        let k = self.issue_index(issue.id);
        StorageView {
            issues: self.issues.update(
                k,
                IssueView { updated_at: now, ..issue.without_dependencies() },
            ),
            ..self
        }.logged(issue.id, EventType::StatusChanged, actor, Some(issue.status.name()), None, now).logged(
            issue.id,
            EventType::Updated,
            actor,
            None,
            None,
            now,
        ).marked(issue.id)
    }

    /// Whether something can be recorded on the issue `id`: it exists and the
    /// audit trail has room for one record.
    pub open spec fn record_outcome(self, id: Seq<char>) -> Result<(), TraceError> {
        if !self.has_issue(id) {
            Err(TraceError::NotFound(Missing::Issue))
        } else if !self.event_room(1) {
            Err(TraceError::Storage(StorageFault::EventLogFull))
        } else {
            Ok(())
        }
    }

    /// The store after the issue was closed at `now`: its status is closed, its
    /// time of last change is `now`, and its close time is `now` unless it had
    /// one already, which it keeps; the trail reports the closing with the
    /// reason as its comment; the issue is marked.
    pub open spec fn closed(
        self,
        id: Seq<char>,
        reason: Seq<char>,
        actor: Seq<char>,
        now: Timestamp,
    ) -> StorageView {
        let k = self.issue_index(id);
        StorageView {
            issues: self.issues.update(
                k,
                IssueView {
                    status: Status::Closed,
                    closed_at: close_time(self.issues[k].closed_at, now),
                    updated_at: now,
                    ..self.issues[k]
                },
            ),
            ..self
        }.logged(id, EventType::Closed, actor, None, Some(reason), now).marked(id)
    }

    /// The store after a comment: the issue's time of last change is `now`;
    /// the trail holds the comment; the issue is marked.
    pub open spec fn commented(
        self,
        id: Seq<char>,
        actor: Seq<char>,
        comment: Seq<char>,
        now: Timestamp,
    ) -> StorageView {
        self.touched(id, now).logged(id, EventType::Commented, actor, None, Some(comment), now).marked(
            id,
        )
    }

    /// The store after the label was attached: the label is there once; the
    /// issue's time of last change is `now`; the trail reports the label; the
    /// issue is marked.
    pub open spec fn labelled(
        self,
        id: Seq<char>,
        label: Seq<char>,
        actor: Seq<char>,
        now: Timestamp,
    ) -> StorageView {
        let attached = if self.has_label(id, label) {
            self
        } else {
            StorageView { labels: self.labels.push(LabelView { issue_id: id, label: label }), ..self }
        };
        attached.touched(id, now).logged(id, EventType::LabelAdded, actor, Some(label), None, now).marked(
            id,
        )
    }

    /// The store after the label was taken off: the label is gone, if it was
    /// there; the issue's time of last change is `now`; the trail reports the
    /// removal; the issue is marked.
    pub open spec fn unlabelled(
        self,
        id: Seq<char>,
        label: Seq<char>,
        actor: Seq<char>,
        now: Timestamp,
    ) -> StorageView {
        let detached = if self.has_label(id, label) {
            StorageView { labels: self.labels.remove(self.label_index(id, label)), ..self }
        } else {
            self
        };
        detached.touched(id, now).logged(
            id,
            EventType::LabelRemoved,
            actor,
            Some(label),
            None,
            now,
        ).marked(id)
    }

    // ----- dependency edges ----------------------------------------------

    /// Whether the edge can be stored: both ends exist and the audit trail
    /// has room.
    pub open spec fn link_outcome(self, from: Seq<char>, to: Seq<char>) -> Result<(), TraceError> {
        if !self.has_issue(from) {
            Err(TraceError::NotFound(Missing::Issue))
        } else if !self.has_issue(to) {
            Err(TraceError::NotFound(Missing::DependsOn))
        } else if !self.event_room(1) {
            Err(TraceError::Storage(StorageFault::EventLogFull))
        } else {
            Ok(())
        }
    }

    /// The store after the edge was stored, with `actor` as its author: it
    /// takes the place of an edge between the same pair, or else comes last;
    /// the depending issue's time of last change is `now`; the trail reports
    /// the edge; the depending issue is marked.
    pub open spec fn linked(self, dep: DependencyView, actor: Seq<char>, now: Timestamp) -> StorageView {
        let edge = DependencyView { created_by: actor, ..dep };
        let stored = if self.has_edge(dep.issue_id, dep.depends_on_id) {
            StorageView {
                dependencies: self.dependencies.update(
                    self.edge_index(dep.issue_id, dep.depends_on_id),
                    edge,
                ),
                ..self
            }
        } else {
            StorageView { dependencies: self.dependencies.push(edge), ..self }
        };
        stored.touched(dep.issue_id, now).logged(
            dep.issue_id,
            EventType::DependencyAdded,
            actor,
            Some(dep.depends_on_id),
            None,
            now,
        ).marked(dep.issue_id)
    }

    /// The store after the edge was removed: the edge is gone, if it was
    /// there; the depending issue's time of last change is `now`; the trail
    /// reports the removal; the depending issue is marked.
    pub open spec fn unlinked(
        self,
        from: Seq<char>,
        to: Seq<char>,
        actor: Seq<char>,
        now: Timestamp,
    ) -> StorageView {
        let cut = if self.has_edge(from, to) {
            StorageView { dependencies: self.dependencies.remove(self.edge_index(from, to)), ..self }
        } else {
            self
        };
        cut.touched(from, now).logged(
            from,
            EventType::DependencyRemoved,
            actor,
            Some(to),
            None,
            now,
        ).marked(from)
    }
}

} // verus!
