//! The store: issues, dependency edges, labels, the audit trail, the marks
//! of changed issues, the identifier counters and two small key/value maps.
//!
//! [`Storage`] says what every store offers and what each operation
//! promises, over the mathematical model of [`model`]; [`memory`] holds a
//! store that keeps everything in memory.

pub mod counters;
pub mod graph;
pub mod invariants;
pub mod memory;
pub mod model;
pub mod query;
pub mod traverse;

pub use crate::storage::memory::MemoryStorage;

use vstd::prelude::*;
use vstd::string::*;
use crate::clock;
use crate::error::TraceError;
use crate::ident::identifier;
use crate::storage::graph::blocked_views;
use crate::storage::model::{FieldPatch, IssueUpdatesView, StorageView};
use crate::storage::query::{has_status, not_among};
use crate::storage::traverse::cycle_views;
use crate::text::{copy_string, opt_text, texts};
use crate::types::{
    dependency_views, event_views, issue_views, tree_node_views, BlockedIssue, Dependency, Event,
    Issue, IssueFilter, IssueType, Statistics, Status, Timestamp, TreeNode, WorkFilter,
};

verus! {

/// The characters of a patch on a string field.
pub open spec fn patch_text(p: FieldPatch<String>) -> FieldPatch<Seq<char>> {
    match p {
        FieldPatch::Untouched => FieldPatch::Untouched,
        FieldPatch::Replace(s) => FieldPatch::Replace(s@),
        FieldPatch::Cleared => FieldPatch::Cleared,
    }
}

/// A partial update of an issue: a field that is absent stays as it is.
#[derive(Debug)]
pub struct IssueUpdates {
    pub title: Option<String>,
    pub description: Option<String>,
    pub design: Option<String>,
    pub acceptance_criteria: Option<String>,
    pub notes: Option<String>,
    pub status: Option<Status>,
    pub priority: Option<i32>,
    pub issue_type: Option<IssueType>,
    pub assignee: Option<String>,
    pub estimated_minutes: FieldPatch<i32>,
    pub external_ref: FieldPatch<String>,
}

impl View for IssueUpdates {
    type V = IssueUpdatesView;

    open spec fn view(&self) -> IssueUpdatesView {
        IssueUpdatesView {
            title: opt_text(self.title),
            description: opt_text(self.description),
            design: opt_text(self.design),
            acceptance_criteria: opt_text(self.acceptance_criteria),
            notes: opt_text(self.notes),
            status: self.status,
            priority: self.priority,
            issue_type: self.issue_type,
            assignee: opt_text(self.assignee),
            estimated_minutes: self.estimated_minutes,
            external_ref: patch_text(self.external_ref),
        }
    }
}

impl Default for IssueUpdates {
    fn default() -> (r: IssueUpdates)
        ensures
            r@ == (IssueUpdatesView {
                title: None,
                description: None,
                design: None,
                acceptance_criteria: None,
                notes: None,
                status: None,
                priority: None,
                issue_type: None,
                assignee: None,
                estimated_minutes: FieldPatch::Untouched,
                external_ref: FieldPatch::Untouched,
            }),
    {
        IssueUpdates {
            title: None,
            description: None,
            design: None,
            acceptance_criteria: None,
            notes: None,
            status: None,
            priority: None,
            issue_type: None,
            assignee: None,
            estimated_minutes: FieldPatch::Untouched,
            external_ref: FieldPatch::Untouched,
        }
    }
}

/// What every store offers, with what each operation promises. A store
/// has a mathematical view; the operations are stated over it.
pub trait Storage: View<V = StorageView> + Sized {
    /// The store is consistent.
    spec fn wf(&self) -> bool;

    /// A consistent store has a consistent view.
    proof fn lemma_wf(&self)
        requires
            self.wf(),
        ensures
            self@.wf(),
    ;

    /// Whether an issue with the identifier `id` is stored.
    fn contains_issue(&self, id: &str) -> (r: bool)
        requires
            self.wf(),
        ensures
            r == self@.has_issue(id@),
    ;

    /// Every issue, without its edges, in stored order.
    fn all_issues(&self) -> (r: Vec<Issue>)
        ensures
            issue_views(r@) == self@.issues,
    ;

    /// The issue `id`, without its edges, if it is stored.
    fn get_issue(&self, id: &str) -> (r: Option<Issue>)
        requires
            self.wf(),
        ensures
            match r {
                Some(issue) => self@.find_issue(id@) == Some(issue@),
                None => self@.find_issue(id@) is None,
            },
    ;

    /// Stores `issue`, at the time `now`, if [`StorageView::create_outcome`]
    /// allows it; otherwise the store is unchanged.
    fn create_issue_at(&mut self, issue: &Issue, actor: &str, now: Timestamp) -> (r: Result<
        (),
        TraceError,
    >)
        requires
            old(self).wf(),
        ensures
            final(self).wf(),
            r == old(self)@.create_outcome(issue@),
            final(self)@ == if r is Ok {
                old(self)@.created(issue@, actor@, now)
            } else {
                old(self)@
            },
    ;

    /// Stores `issue` at the current time.
    fn create_issue(&mut self, issue: &Issue, actor: &str) -> (r: Result<(), TraceError>)
        requires
            old(self).wf(),
        ensures
            final(self).wf(),
            r == old(self)@.create_outcome(issue@),
            r is Err ==> final(self)@ == old(self)@,
            r is Ok ==> exists|now: Timestamp|
                final(self)@ == #[trigger] old(self)@.created(issue@, actor@, now),
    {
        let now = clock::now();
        self.create_issue_at(issue, actor, now)
    }

    /// Applies `updates` to the issue `id`, at the time `now`, if
    /// [`StorageView::update_outcome`] allows it; otherwise the store is
    /// unchanged.
    fn update_issue_at(&mut self, id: &str, updates: &IssueUpdates, actor: &str, now: Timestamp) -> (r:
        Result<(), TraceError>)
        requires
            old(self).wf(),
        ensures
            final(self).wf(),
            r == old(self)@.update_outcome(id@, updates@, now),
            final(self)@ == if r is Ok {
                old(self)@.updated(id@, updates@, actor@, now)
            } else {
                old(self)@
            },
    ;

    /// Applies `updates` to the issue `id` at the current time.
    fn update_issue(&mut self, id: &str, updates: &IssueUpdates, actor: &str) -> (r: Result<
        (),
        TraceError,
    >)
        requires
            old(self).wf(),
        ensures
            final(self).wf(),
            r is Err ==> final(self)@ == old(self)@,
            exists|now: Timestamp|
                r == old(self)@.update_outcome(id@, updates@, now) && (r is Ok ==> final(self)@
                    == #[trigger] old(self)@.updated(id@, updates@, actor@, now)),
    {
        let now = clock::now();
        let r = self.update_issue_at(id, updates, actor, now);
        proof {
            let t = old(self)@.updated(id@, updates@, actor@, now);
            assert(r == old(self)@.update_outcome(id@, updates@, now) && (r is Ok ==> self@ == t));
        }
        r
    }

    /// Puts `issue` in the place of the stored issue with its identifier, at
    /// the time `now`, if [`StorageView::replace_outcome`] allows it;
    /// otherwise the store is unchanged. Every field is superseded; only the
    /// time of the last change is `now`.
    fn replace_issue_at(&mut self, issue: &Issue, actor: &str, now: Timestamp) -> (r: Result<
        (),
        TraceError,
    >)
        requires
            old(self).wf(),
        ensures
            final(self).wf(),
            r == old(self)@.replace_outcome(issue@),
            final(self)@ == if r is Ok {
                old(self)@.replaced(issue@, actor@, now)
            } else {
                old(self)@
            },
    ;

    /// Puts `issue` in the place of the stored issue with its identifier, at
    /// the current time.
    fn replace_issue(&mut self, issue: &Issue, actor: &str) -> (r: Result<(), TraceError>)
        requires
            old(self).wf(),
        ensures
            final(self).wf(),
            r == old(self)@.replace_outcome(issue@),
            r is Err ==> final(self)@ == old(self)@,
            r is Ok ==> exists|now: Timestamp|
                final(self)@ == #[trigger] old(self)@.replaced(issue@, actor@, now),
    {
        let now = clock::now();
        self.replace_issue_at(issue, actor, now)
    }

    /// Closes the issue `id`, at the time `now`, with `reason` as the comment
    /// of the audit record, if [`StorageView::record_outcome`] allows it;
    /// otherwise the store is unchanged. An issue that has a close time
    /// keeps it.
    fn close_issue_at(&mut self, id: &str, reason: &str, actor: &str, now: Timestamp) -> (r: Result<
        (),
        TraceError,
    >)
        requires
            old(self).wf(),
        ensures
            final(self).wf(),
            r == old(self)@.record_outcome(id@),
            final(self)@ == if r is Ok {
                old(self)@.closed(id@, reason@, actor@, now)
            } else {
                old(self)@
            },
    ;

    /// Closes the issue `id` at the current time.
    fn close_issue(&mut self, id: &str, reason: &str, actor: &str) -> (r: Result<(), TraceError>)
        requires
            old(self).wf(),
        ensures
            final(self).wf(),
            r == old(self)@.record_outcome(id@),
            r is Err ==> final(self)@ == old(self)@,
            r is Ok ==> exists|now: Timestamp|
                final(self)@ == #[trigger] old(self)@.closed(id@, reason@, actor@, now),
    {
        let now = clock::now();
        self.close_issue_at(id, reason, actor, now)
    }

    /// Records a comment on the issue `id`, at the time `now`, if
    /// [`StorageView::record_outcome`] allows it; otherwise the store is
    /// unchanged.
    fn add_comment_at(&mut self, issue_id: &str, actor: &str, comment: &str, now: Timestamp) -> (r:
        Result<(), TraceError>)
        requires
            old(self).wf(),
        ensures
            final(self).wf(),
            r == old(self)@.record_outcome(issue_id@),
            final(self)@ == if r is Ok {
                old(self)@.commented(issue_id@, actor@, comment@, now)
            } else {
                old(self)@
            },
    ;

    /// Records a comment on the issue `id` at the current time.
    fn add_comment(&mut self, issue_id: &str, actor: &str, comment: &str) -> (r: Result<
        (),
        TraceError,
    >)
        requires
            old(self).wf(),
        ensures
            final(self).wf(),
            r == old(self)@.record_outcome(issue_id@),
            r is Err ==> final(self)@ == old(self)@,
            r is Ok ==> exists|now: Timestamp|
                final(self)@ == #[trigger] old(self)@.commented(issue_id@, actor@, comment@, now),
    {
        let now = clock::now();
        self.add_comment_at(issue_id, actor, comment, now)
    }

    /// Attaches `label` to the issue `id`, at the time `now`, if
    /// [`StorageView::record_outcome`] allows it; otherwise the store is
    /// unchanged.
    fn add_label_at(&mut self, issue_id: &str, label: &str, actor: &str, now: Timestamp) -> (r: Result<
        (),
        TraceError,
    >)
        requires
            old(self).wf(),
        ensures
            final(self).wf(),
            r == old(self)@.record_outcome(issue_id@),
            final(self)@ == if r is Ok {
                old(self)@.labelled(issue_id@, label@, actor@, now)
            } else {
                old(self)@
            },
    ;

    /// Attaches `label` to the issue `id` at the current time.
    fn add_label(&mut self, issue_id: &str, label: &str, actor: &str) -> (r: Result<(), TraceError>)
        requires
            old(self).wf(),
        ensures
            final(self).wf(),
            r == old(self)@.record_outcome(issue_id@),
            r is Err ==> final(self)@ == old(self)@,
            r is Ok ==> exists|now: Timestamp|
                final(self)@ == #[trigger] old(self)@.labelled(issue_id@, label@, actor@, now),
    {
        let now = clock::now();
        self.add_label_at(issue_id, label, actor, now)
    }

    /// Takes `label` off the issue `id`, at the time `now`, if
    /// [`StorageView::record_outcome`] allows it; otherwise the store is
    /// unchanged.
    fn remove_label_at(&mut self, issue_id: &str, label: &str, actor: &str, now: Timestamp) -> (r:
        Result<(), TraceError>)
        requires
            old(self).wf(),
        ensures
            final(self).wf(),
            r == old(self)@.record_outcome(issue_id@),
            final(self)@ == if r is Ok {
                old(self)@.unlabelled(issue_id@, label@, actor@, now)
            } else {
                old(self)@
            },
    ;

    /// Takes `label` off the issue `id` at the current time.
    fn remove_label(&mut self, issue_id: &str, label: &str, actor: &str) -> (r: Result<
        (),
        TraceError,
    >)
        requires
            old(self).wf(),
        ensures
            final(self).wf(),
            r == old(self)@.record_outcome(issue_id@),
            r is Err ==> final(self)@ == old(self)@,
            r is Ok ==> exists|now: Timestamp|
                final(self)@ == #[trigger] old(self)@.unlabelled(issue_id@, label@, actor@, now),
    {
        let now = clock::now();
        self.remove_label_at(issue_id, label, actor, now)
    }

    /// Stores the edge `dep`, at the time `now`, with `actor` as its author,
    /// if [`StorageView::link_outcome`] allows it; otherwise the store is
    /// unchanged. Nothing is asked about cycles.
    fn add_dependency_at(&mut self, dep: &Dependency, actor: &str, now: Timestamp) -> (r: Result<
        (),
        TraceError,
    >)
        requires
            old(self).wf(),
        ensures
            final(self).wf(),
            r == old(self)@.link_outcome(dep@.issue_id, dep@.depends_on_id),
            final(self)@ == if r is Ok {
                old(self)@.linked(dep@, actor@, now)
            } else {
                old(self)@
            },
    ;

    /// Stores the edge `dep` at the current time.
    fn add_dependency(&mut self, dep: &Dependency, actor: &str) -> (r: Result<(), TraceError>)
        requires
            old(self).wf(),
        ensures
            final(self).wf(),
            r == old(self)@.link_outcome(dep@.issue_id, dep@.depends_on_id),
            r is Err ==> final(self)@ == old(self)@,
            r is Ok ==> exists|now: Timestamp|
                final(self)@ == #[trigger] old(self)@.linked(dep@, actor@, now),
    {
        let now = clock::now();
        self.add_dependency_at(dep, actor, now)
    }

    /// Removes the edge from `issue_id` to `depends_on_id`, at the time `now`,
    /// if [`StorageView::record_outcome`] allows it; otherwise the store is
    /// unchanged. That there is no such edge is no failure.
    fn remove_dependency_at(
        &mut self,
        issue_id: &str,
        depends_on_id: &str,
        actor: &str,
        now: Timestamp,
    ) -> (r: Result<(), TraceError>)
        requires
            old(self).wf(),
        ensures
            final(self).wf(),
            r == old(self)@.record_outcome(issue_id@),
            final(self)@ == if r is Ok {
                old(self)@.unlinked(issue_id@, depends_on_id@, actor@, now)
            } else {
                old(self)@
            },
    ;

    /// Removes the edge from `issue_id` to `depends_on_id` at the current
    /// time.
    fn remove_dependency(&mut self, issue_id: &str, depends_on_id: &str, actor: &str) -> (r: Result<
        (),
        TraceError,
    >)
        requires
            old(self).wf(),
        ensures
            final(self).wf(),
            r == old(self)@.record_outcome(issue_id@),
            r is Err ==> final(self)@ == old(self)@,
            r is Ok ==> exists|now: Timestamp|
                final(self)@ == #[trigger] old(self)@.unlinked(issue_id@, depends_on_id@, actor@, now),
    {
        let now = clock::now();
        self.remove_dependency_at(issue_id, depends_on_id, actor, now)
    }

    /// The edges that leave the issue `issue_id`.
    fn get_dependency_records(&self, issue_id: &str) -> (r: Vec<Dependency>)
        ensures
            dependency_views(r@) == self@.edges_from(issue_id@),
    ;

    /// Every edge, in stored order.
    fn get_all_dependency_records(&self) -> (r: Vec<Dependency>)
        ensures
            dependency_views(r@) == self@.dependencies,
    ;

    /// The issues that the issue `issue_id` depends on.
    fn get_dependencies(&self, issue_id: &str) -> (r: Vec<Issue>)
        requires
            self.wf(),
        ensures
            issue_views(r@) == self@.dependencies_of(issue_id@),
    ;

    /// The issues that depend on the issue `issue_id`.
    fn get_dependents(&self, issue_id: &str) -> (r: Vec<Issue>)
        requires
            self.wf(),
        ensures
            issue_views(r@) == self@.dependents_of(issue_id@),
    ;

    /// The identifiers of the issues that hold the issue `id` back.
    fn blockers_of(&self, id: &str) -> (r: Vec<String>)
        requires
            self.wf(),
        ensures
            texts(r@) == self@.blockers(id@),
    ;

    /// The issues that can be started and pass the filter, in listing order,
    /// cut at the filter's limit.
    fn get_ready_work(&self, filter: &WorkFilter) -> (r: Vec<Issue>)
        requires
            self.wf(),
        ensures
            issue_views(r@) == self@.ready_work(filter@),
    ;

    /// The issues that something holds back, each with what holds it back.
    fn get_blocked_issues(&self) -> (r: Vec<BlockedIssue>)
        requires
            self.wf(),
        ensures
            blocked_views(r@) == self@.blocked_work(),
    ;

    /// The tree below the issue `issue_id`, down to `max_depth`.
    fn get_dependency_tree(&self, issue_id: &str, max_depth: i32) -> (r: Vec<TreeNode>)
        requires
            self.wf(),
        ensures
            tree_node_views(r@) == self@.dependency_tree(issue_id@, max_depth as int),
    ;

    /// The cycles among the dependency edges.
    fn detect_cycles(&self) -> (r: Vec<Vec<Issue>>)
        requires
            self.wf(),
        ensures
            cycle_views(r@) == self@.detect_cycles(),
    ;

    /// The labels of the issue `issue_id`.
    fn get_labels(&self, issue_id: &str) -> (r: Vec<String>)
        ensures
            texts(r@) == self@.labels_of(issue_id@),
    ;

    /// The issues that carry the label `label`.
    fn get_issues_by_label(&self, label: &str) -> (r: Vec<Issue>)
        requires
            self.wf(),
        ensures
            issue_views(r@) == self@.issues_labelled(label@),
    ;

    /// The issues that pass the filter, in listing order, cut at the filter's
    /// limit. The query text is not looked at.
    fn search_issues(&self, query: &str, filter: &IssueFilter) -> (r: Vec<Issue>)
        ensures
            issue_views(r@) == self@.search(filter@),
    ;

    /// The audit records about the issue `issue_id`, the most recent first, at
    /// most `limit` of them.
    fn get_events(&self, issue_id: &str, limit: usize) -> (r: Vec<Event>)
        ensures
            event_views(r@) == self@.recent_events(issue_id@, limit),
    ;

    /// How many issues there are, how many in each status, how many are held
    /// back and how many can be started.
    fn get_statistics(&self) -> (r: Statistics)
        requires
            self.wf(),
        ensures
            r.total_issues == self@.issues.len(),
            r.open_issues == self@.issues.filter(has_status(Status::Open)).len(),
            r.in_progress_issues == self@.issues.filter(has_status(Status::InProgress)).len(),
            r.closed_issues == self@.issues.filter(has_status(Status::Closed)).len(),
            r.blocked_issues == self@.issues.filter(self@.blocked_pick()).len(),
            r.ready_issues == self@.issues.filter(self@.startable()).len(),
    ;

    /// For each issue with a close time, the whole seconds from its creation
    /// to its closing; their mean is the average lead time.
    fn lead_times(&self) -> (r: Vec<i128>)
        ensures
            r@.len() == self@.lead_times().len(),
            forall|k: int| 0 <= k < r@.len() ==> #[trigger] r@[k] == self@.lead_times()[k],
    ;

    /// The issues changed since the last export, oldest mark first.
    fn get_dirty_issues(&self) -> (r: Vec<String>)
        ensures
            texts(r@) == self@.dirty,
    ;

    /// Takes every mark away.
    fn clear_dirty_issues(&mut self)
        requires
            old(self).wf(),
        ensures
            final(self).wf(),
            final(self)@ == (StorageView { dirty: Seq::empty(), ..old(self)@ }),
    ;

    /// Takes the marks of the issues `issue_ids` away.
    fn clear_dirty_issues_by_id(&mut self, issue_ids: &Vec<String>)
        requires
            old(self).wf(),
        ensures
            final(self).wf(),
            final(self)@ == (StorageView {
                dirty: old(self)@.dirty.filter(not_among(texts(issue_ids@))),
                ..old(self)@
            }),
    ;

    /// Stores `value` under `key` in the configuration.
    fn set_config(&mut self, key: &str, value: &str)
        requires
            old(self).wf(),
        ensures
            final(self).wf(),
            final(self)@ == (StorageView {
                config: old(self)@.config.insert(key@, value@),
                ..old(self)@
            }),
    ;

    /// The configuration value stored under `key`, if there is one.
    fn get_config(&self, key: &str) -> (r: Option<String>)
        requires
            self.wf(),
        ensures
            opt_text(r) == if self@.config.contains_key(key@) {
                Some(self@.config[key@])
            } else {
                None
            },
    ;

    /// Stores `value` under `key` in the bookkeeping entries.
    fn set_metadata(&mut self, key: &str, value: &str)
        requires
            old(self).wf(),
        ensures
            final(self).wf(),
            final(self)@ == (StorageView {
                metadata: old(self)@.metadata.insert(key@, value@),
                ..old(self)@
            }),
    ;

    /// The bookkeeping value stored under `key`, if there is one.
    fn get_metadata(&self, key: &str) -> (r: Option<String>)
        requires
            self.wf(),
        ensures
            opt_text(r) == if self@.metadata.contains_key(key@) {
                Some(self@.metadata[key@])
            } else {
                None
            },
    ;

    /// Hands out the next identifier with this prefix: the prefix, a hyphen,
    /// and the number after the last one handed out for it, or 1 for a prefix
    /// that is new. Fails, and changes nothing, when the counter has reached
    /// its last number.
    fn generate_id(&mut self, prefix: &str) -> (r: Result<String, TraceError>)
        requires
            old(self).wf(),
        ensures
            final(self).wf(),
            match r {
                Ok(id) => old(self)@.allocate_outcome(prefix@) is Ok && id@ == identifier(
                    prefix@,
                    old(self)@.next_number(prefix@) as nat,
                ) && final(self)@ == old(self)@.allocated(prefix@),
                Err(e) => old(self)@.allocate_outcome(prefix@) == Err::<(), TraceError>(e)
                    && final(self)@ == old(self)@,
            },
    ;

    /// Fills the counters of a store that has none: each prefix gets the
    /// greatest number that a stored identifier with that prefix carries. A
    /// store that has counters keeps them.
    fn sync_counters(&mut self)
        requires
            old(self).wf(),
        ensures
            final(self).wf(),
            final(self)@ == old(self)@.counters_synced(),
    ;
}

/// The issue that `current` becomes under `updates` at the time `now`.
pub fn apply_updates(current: &Issue, updates: &IssueUpdates, now: Timestamp) -> (r: Issue)
    ensures
        r@ == updates@.apply(current@, now),
{
    let mut next = current.clone();
    if let Some(v) = &updates.title {
        next.title = copy_string(v);
    }
    if let Some(v) = &updates.description {
        next.description = copy_string(v);
    }
    if let Some(v) = &updates.design {
        next.design = copy_string(v);
    }
    if let Some(v) = &updates.acceptance_criteria {
        next.acceptance_criteria = copy_string(v);
    }
    if let Some(v) = &updates.notes {
        next.notes = copy_string(v);
    }
    if let Some(v) = updates.status {
        next.status = v;
    }
    if let Some(v) = updates.priority {
        next.priority = v;
    }
    if let Some(v) = updates.issue_type {
        next.issue_type = v;
    }
    if let Some(v) = &updates.assignee {
        next.assignee = copy_string(v);
    }
    match &updates.estimated_minutes {
        FieldPatch::Untouched => {},
        FieldPatch::Replace(v) => {
            next.estimated_minutes = Some(*v);
        },
        FieldPatch::Cleared => {
            next.estimated_minutes = None;
        },
    }
    match &updates.external_ref {
        FieldPatch::Untouched => {},
        FieldPatch::Replace(v) => {
            next.external_ref = Some(copy_string(v));
        },
        FieldPatch::Cleared => {
            next.external_ref = None;
        },
    }
    next.updated_at = now;
    let closed = match next.status {
        Status::Closed => true,
        _ => false,
    };
    if closed {
        if next.closed_at.is_none() {
            next.closed_at = Some(now);
        }
    } else {
        next.closed_at = None;
    }
    next
}

} // verus!
