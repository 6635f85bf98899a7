//! The store held in memory: what it keeps, and how it carries out each
//! operation.

pub mod finders;
pub mod load;
pub mod walks;

use vstd::prelude::*;
use vstd::string::*;
use crate::error::{Missing, StorageFault, TraceError};
use crate::ident::{format_identifier, split_identifier};
use crate::listing::{limit_events, limit_issues, sort_events, sort_issues};
use crate::seqs::{
    lemma_filter_empty, lemma_filter_members, lemma_filter_no_duplicates, lemma_filter_take_step,
};
use crate::storage::{apply_updates, IssueUpdates, Storage};
use crate::storage::counters::{lemma_seeded_counters, seeded_counters};
use crate::storage::graph::{arrives_at, blocked_views, leaves_from};
use crate::storage::invariants::{
    lemma_closed, lemma_commented, lemma_created, lemma_labelled, lemma_linked, lemma_records_kept,
    lemma_same_ids, lemma_unlabelled, lemma_unlinked, lemma_updated, same_ids,
};
use crate::storage::model::StorageView;
use crate::storage::query::{has_close_time, has_status, is_about, not_among, reads, sits_on};
use crate::storage::traverse::{cycle_views, CycleSearch};
use crate::text::{contains_text, copy_string, copy_strings, opt_text, str_eq, texts};
use crate::textmap::TextMap;
use crate::types::{
    copy_dependencies, dependency_views, event_views, issue_views, label_views, tree_node_views,
    BlockedIssue, BlockedIssueView, Dependency, DependencyType, DependencyView, Event, EventType,
    EventView, Issue, IssueFilter, IssueView, Label, LabelView, Statistics, Status, Timestamp,
    TreeNode, TreeNodeView, WorkFilter,
};

verus! {

/// The store, held in memory.
pub struct MemoryStorage {
    issues: Vec<Issue>,
    dependencies: Vec<Dependency>,
    labels: Vec<Label>,
    events: Vec<Event>,
    dirty: Vec<String>,
    counters: TextMap<i64>,
    config: TextMap<String>,
    metadata: TextMap<String>,
}

impl View for MemoryStorage {
    type V = StorageView;

    closed spec fn view(&self) -> StorageView {
        StorageView {
            issues: issue_views(self.issues@),
            dependencies: dependency_views(self.dependencies@),
            labels: label_views(self.labels@),
            events: event_views(self.events@),
            dirty: texts(self.dirty@),
            counters: self.counters@,
            config: self.config@,
            metadata: self.metadata@,
        }
    }
}

impl MemoryStorage {
    /// The three maps are in order.
    pub closed spec fn maps_wf(&self) -> bool {
        &&& self.counters.wf()
        &&& self.config.wf()
        &&& self.metadata.wf()
    }

    /// A store that holds nothing.
    pub fn new() -> (r: MemoryStorage)
        ensures
            r.wf(),
            r@ == StorageView::empty(),
    {
        let r = MemoryStorage {
            issues: Vec::new(),
            dependencies: Vec::new(),
            labels: Vec::new(),
            events: Vec::new(),
            dirty: Vec::new(),
            counters: TextMap::new(),
            config: TextMap::new(),
            metadata: TextMap::new(),
        };
        proof {
            assert(r@.issues =~= Seq::empty());
            assert(r@.dependencies =~= Seq::empty());
            assert(r@.labels =~= Seq::empty());
            assert(r@.events =~= Seq::empty());
            assert(r@.dirty =~= Seq::empty());
        }
        r
    }

    /// Where the issue `id` is stored, if it is.
    pub(crate) fn find_index(&self, id: &str) -> (r: Option<usize>)
        requires
            self@.ids_unique(),
        ensures
            match r {
                Some(k) => k < self@.issues.len() && self@.has_issue(id@) && self@.issue_index(id@) == k
                    && self@.issues[k as int] == self@.issue(id@),
                None => !self@.has_issue(id@),
            },
    {
        let mut i: usize = 0;
        while i < self.issues.len()
            invariant
                i <= self.issues.len(),
                self@.ids_unique(),
                forall|k: int| 0 <= k < i ==> (#[trigger] self@.issues[k]).id != id@,
            decreases self.issues.len() - i,
        {
            if str_eq(self.issues[i].id.as_str(), id) {
                proof {
                    assert(self@.issues[i as int].id == id@);
                    crate::storage::invariants::lemma_issue_at(self@, i as int);
                }
                return Some(i);
            }
            i += 1;
        }
        None
    }

    /// Whether the audit trail can take `n` more records.
    pub(crate) fn has_event_room(&self, n: i64) -> (r: bool)
        requires
            0 <= n,
        ensures
            r == self@.event_room(n as int),
    {
        let len = self.events.len();
        if len == 0 {
            true
        } else {
            assert(self@.events.last().id == self.events[len - 1].id);
            self.events[len - 1].id <= i64::MAX - n
        }
    }

    /// Appends one audit record.
    pub(crate) fn log(
        &mut self,
        issue_id: &str,
        event_type: EventType,
        actor: &str,
        new_value: Option<String>,
        comment: Option<String>,
        now: Timestamp,
    )
        requires
            old(self)@.event_room(1),
        ensures
            final(self)@ == old(self)@.logged(
                issue_id@,
                event_type,
                actor@,
                opt_text(new_value),
                opt_text(comment),
                now,
            ),
            final(self).maps_wf() == old(self).maps_wf(),
    {
        let len = self.events.len();
        let id: i64 = if len == 0 {
            1
        } else {
            assert(self@.events.last().id == self.events[len - 1].id);
            self.events[len - 1].id + 1
        };
        let event = Event {
            id: id,
            issue_id: issue_id.to_owned(),
            event_type: event_type,
            actor: actor.to_owned(),
            old_value: None,
            new_value: new_value,
            comment: comment,
            created_at: now,
        };
        self.events.push(event);
        proof {
            assert(self@.events =~= old(self)@.logged(
                issue_id@,
                event_type,
                actor@,
                opt_text(new_value),
                opt_text(comment),
                now,
            ).events);
        }
    }

    /// Marks the issue `id` as changed.
    pub(crate) fn mark_dirty(&mut self, id: &str)
        ensures
            final(self)@ == old(self)@.marked(id@),
            final(self).maps_wf() == old(self).maps_wf(),
    {
        if !contains_text(&self.dirty, id) {
            self.dirty.push(id.to_owned());
            proof {
                assert(self@.dirty =~= old(self)@.dirty.push(id@));
            }
        }
    }

    /// Gives the issue at position `k` a new time of last change.
    pub(crate) fn touch(&mut self, k: usize, now: Timestamp)
        requires
            k < old(self)@.issues.len(),
        ensures
            final(self)@ == (StorageView {
                issues: old(self)@.issues.update(
                    k as int,
                    crate::types::IssueView { updated_at: now, ..old(self)@.issues[k as int] },
                ),
                ..old(self)@
            }),
            final(self).maps_wf() == old(self).maps_wf(),
    {
        self.issues[k].updated_at = now;
        proof {
            assert(self@.issues =~= old(self)@.issues.update(
                k as int,
                crate::types::IssueView { updated_at: now, ..old(self)@.issues[k as int] },
            ));
        }
    }
}

impl Storage for MemoryStorage {
    open spec fn wf(&self) -> bool {
        &&& self.maps_wf()
        &&& self@.wf()
    }

    proof fn lemma_wf(&self) {
    }

    fn contains_issue(&self, id: &str) -> (r: bool)
    {
        self.find_index(id).is_some()
    }

    fn all_issues(&self) -> (r: Vec<Issue>)
    {
        let mut out: Vec<Issue> = Vec::new();
        let mut i: usize = 0;
        while i < self.issues.len()
            invariant
                i <= self.issues.len(),
                out.len() == i,
                forall|k: int| 0 <= k < i ==> (#[trigger] out[k])@ == self.issues[k]@,
            decreases self.issues.len() - i,
        {
            out.push(self.issues[i].clone());
            i += 1;
        }
        assert(crate::types::issue_views(out@) =~= self@.issues);
        out
    }

    fn get_issue(&self, id: &str) -> (r: Option<Issue>)
    {
        match self.find_index(id) {
            Some(k) => Some(self.issues[k].clone()),
            None => None,
        }
    }

    fn create_issue_at(&mut self, issue: &Issue, actor: &str, now: Timestamp) -> (r: Result<
        (),
        TraceError,
    >)
    {
        if let Err(e) = issue.validate() {
            return Err(e);
        }
        if self.find_index(issue.id.as_str()).is_some() {
            return Err(TraceError::Storage(StorageFault::DuplicateId));
        }
        if !self.has_event_room(1) {
            return Err(TraceError::Storage(StorageFault::EventLogFull));
        }
        proof {
            lemma_created(self@, issue@, actor@, now);
        }
        self.issues.push(issue.stripped());
        proof {
            assert(self@.issues =~= old(self)@.issues.push(issue@.without_dependencies()));
        }
        self.log(issue.id.as_str(), EventType::Created, actor, None, None, now);
        self.mark_dirty(issue.id.as_str());
        Ok(())
    }

    fn update_issue_at(&mut self, id: &str, updates: &IssueUpdates, actor: &str, now: Timestamp) -> (r:
        Result<(), TraceError>)
    {
        let k = match self.find_index(id) {
            Some(k) => k,
            None => {
                return Err(TraceError::NotFound(Missing::Issue));
            },
        };
        let next = apply_updates(&self.issues[k], updates, now);
        if let Err(e) = next.validate() {
            return Err(e);
        }
        let records: i64 = if updates.status.is_some() {
            2
        } else {
            1
        };
        if !self.has_event_room(records) {
            return Err(TraceError::Storage(StorageFault::EventLogFull));
        }
        proof {
            lemma_updated(self@, id@, updates@, actor@, now);
        }
        self.issues[k] = next;
        proof {
            assert(self@.issues =~= old(self)@.issues.update(
                k as int,
                updates@.apply(old(self)@.issues[k as int], now),
            ));
        }
        if let Some(s) = updates.status {
            self.log(id, EventType::StatusChanged, actor, Some(s.to_string()), None, now);
        }
        self.log(id, EventType::Updated, actor, None, None, now);
        self.mark_dirty(id);
        Ok(())
    }

    fn replace_issue_at(&mut self, issue: &Issue, actor: &str, now: Timestamp) -> (r: Result<
        (),
        TraceError,
    >)
    {
        let k = match self.find_index(issue.id.as_str()) {
            Some(k) => k,
            None => {
                return Err(TraceError::NotFound(Missing::Issue));
            },
        };
        if let Err(e) = issue.validate() {
            return Err(e);
        }
        if !self.has_event_room(2) {
            return Err(TraceError::Storage(StorageFault::EventLogFull));
        }
        proof {
            crate::storage::invariants::lemma_replaced(self@, issue@, actor@, now);
        }
        let mut next = issue.stripped();
        next.updated_at = now;
        self.issues[k] = next;
        proof {
            assert(self@.issues =~= old(self)@.issues.update(
                k as int,
                IssueView { updated_at: now, ..issue@.without_dependencies() },
            ));
        }
        self.log(
            issue.id.as_str(),
            EventType::StatusChanged,
            actor,
            Some(issue.status.to_string()),
            None,
            now,
        );
        self.log(issue.id.as_str(), EventType::Updated, actor, None, None, now);
        self.mark_dirty(issue.id.as_str());
        Ok(())
    }

    fn close_issue_at(&mut self, id: &str, reason: &str, actor: &str, now: Timestamp) -> (r: Result<
        (),
        TraceError,
    >)
    {
        let k = match self.find_index(id) {
            Some(k) => k,
            None => {
                return Err(TraceError::NotFound(Missing::Issue));
            },
        };
        if !self.has_event_room(1) {
            return Err(TraceError::Storage(StorageFault::EventLogFull));
        }
        proof {
            lemma_closed(self@, id@, reason@, actor@, now);
        }
        self.issues[k].status = Status::Closed;
        if self.issues[k].closed_at.is_none() {
            self.issues[k].closed_at = Some(now);
        }
        self.issues[k].updated_at = now;
        proof {
            assert(self@.issues =~= old(self)@.issues.update(
                k as int,
                IssueView {
                    status: Status::Closed,
                    closed_at: crate::storage::model::close_time(
                        old(self)@.issues[k as int].closed_at,
                        now,
                    ),
                    updated_at: now,
                    ..old(self)@.issues[k as int]
                },
            ));
        }
        self.log(id, EventType::Closed, actor, None, Some(reason.to_owned()), now);
        self.mark_dirty(id);
        Ok(())
    }

    fn add_comment_at(&mut self, issue_id: &str, actor: &str, comment: &str, now: Timestamp) -> (r:
        Result<(), TraceError>)
    {
        let k = match self.find_index(issue_id) {
            Some(k) => k,
            None => {
                return Err(TraceError::NotFound(Missing::Issue));
            },
        };
        if !self.has_event_room(1) {
            return Err(TraceError::Storage(StorageFault::EventLogFull));
        }
        proof {
            lemma_commented(self@, issue_id@, actor@, comment@, now);
        }
        self.touch(k, now);
        self.log(issue_id, EventType::Commented, actor, None, Some(comment.to_owned()), now);
        self.mark_dirty(issue_id);
        Ok(())
    }

    fn add_label_at(&mut self, issue_id: &str, label: &str, actor: &str, now: Timestamp) -> (r: Result<
        (),
        TraceError,
    >)
    {
        let k = match self.find_index(issue_id) {
            Some(k) => k,
            None => {
                return Err(TraceError::NotFound(Missing::Issue));
            },
        };
        if !self.has_event_room(1) {
            return Err(TraceError::Storage(StorageFault::EventLogFull));
        }
        proof {
            lemma_labelled(self@, issue_id@, label@, actor@, now);
        }
        if self.find_label(issue_id, label).is_none() {
            self.labels.push(Label { issue_id: issue_id.to_owned(), label: label.to_owned() });
            proof {
                assert(self@.labels =~= old(self)@.labels.push(
                    crate::types::LabelView { issue_id: issue_id@, label: label@ },
                ));
            }
        }
        proof {
            let a = self@;
            assert(crate::storage::invariants::same_ids(old(self)@, a));
            crate::storage::invariants::lemma_same_ids(old(self)@, a);
        }
        self.touch(k, now);
        self.log(issue_id, EventType::LabelAdded, actor, Some(label.to_owned()), None, now);
        self.mark_dirty(issue_id);
        Ok(())
    }

    fn remove_label_at(&mut self, issue_id: &str, label: &str, actor: &str, now: Timestamp) -> (r:
        Result<(), TraceError>)
    {
        let k = match self.find_index(issue_id) {
            Some(k) => k,
            None => {
                return Err(TraceError::NotFound(Missing::Issue));
            },
        };
        if !self.has_event_room(1) {
            return Err(TraceError::Storage(StorageFault::EventLogFull));
        }
        proof {
            lemma_unlabelled(self@, issue_id@, label@, actor@, now);
        }
        if let Some(p) = self.find_label(issue_id, label) {
            self.labels.remove(p);
            proof {
                assert(self@.labels =~= old(self)@.labels.remove(p as int));
            }
        }
        proof {
            let a = self@;
            assert(crate::storage::invariants::same_ids(old(self)@, a));
            crate::storage::invariants::lemma_same_ids(old(self)@, a);
        }
        self.touch(k, now);
        self.log(issue_id, EventType::LabelRemoved, actor, Some(label.to_owned()), None, now);
        self.mark_dirty(issue_id);
        Ok(())
    }

    fn add_dependency_at(&mut self, dep: &Dependency, actor: &str, now: Timestamp) -> (r: Result<
        (),
        TraceError,
    >)
    {
        let k = match self.find_index(dep.issue_id.as_str()) {
            Some(k) => k,
            None => {
                return Err(TraceError::NotFound(Missing::Issue));
            },
        };
        if self.find_index(dep.depends_on_id.as_str()).is_none() {
            return Err(TraceError::NotFound(Missing::DependsOn));
        }
        if !self.has_event_room(1) {
            return Err(TraceError::Storage(StorageFault::EventLogFull));
        }
        proof {
            lemma_linked(self@, dep@, actor@, now);
        }
        let edge = Dependency {
            issue_id: copy_string(&dep.issue_id),
            depends_on_id: copy_string(&dep.depends_on_id),
            dep_type: dep.dep_type,
            created_at: dep.created_at,
            created_by: actor.to_owned(),
        };
        assert(edge@ == (DependencyView { created_by: actor@, ..dep@ }));
        match self.find_edge(dep.issue_id.as_str(), dep.depends_on_id.as_str()) {
            Some(p) => {
                self.dependencies[p] = edge;
                proof {
                    assert(self@.dependencies =~= old(self)@.dependencies.update(p as int, edge@));
                }
            },
            None => {
                self.dependencies.push(edge);
                proof {
                    assert(self@.dependencies =~= old(self)@.dependencies.push(edge@));
                }
            },
        }
        proof {
            assert(same_ids(old(self)@, self@));
            lemma_same_ids(old(self)@, self@);
        }
        self.touch(k, now);
        self.log(
            dep.issue_id.as_str(),
            EventType::DependencyAdded,
            actor,
            Some(copy_string(&dep.depends_on_id)),
            None,
            now,
        );
        self.mark_dirty(dep.issue_id.as_str());
        Ok(())
    }

    fn remove_dependency_at(
        &mut self,
        issue_id: &str,
        depends_on_id: &str,
        actor: &str,
        now: Timestamp,
    ) -> (r: Result<(), TraceError>)
    {
        let k = match self.find_index(issue_id) {
            Some(k) => k,
            None => {
                return Err(TraceError::NotFound(Missing::Issue));
            },
        };
        if !self.has_event_room(1) {
            return Err(TraceError::Storage(StorageFault::EventLogFull));
        }
        proof {
            lemma_unlinked(self@, issue_id@, depends_on_id@, actor@, now);
        }
        if let Some(p) = self.find_edge(issue_id, depends_on_id) {
            self.dependencies.remove(p);
            proof {
                assert(self@.dependencies =~= old(self)@.dependencies.remove(p as int));
            }
        }
        proof {
            assert(same_ids(old(self)@, self@));
            lemma_same_ids(old(self)@, self@);
        }
        self.touch(k, now);
        self.log(
            issue_id,
            EventType::DependencyRemoved,
            actor,
            Some(depends_on_id.to_owned()),
            None,
            now,
        );
        self.mark_dirty(issue_id);
        Ok(())
    }

    fn get_dependency_records(&self, issue_id: &str) -> (r: Vec<Dependency>)
    {
        let mut out: Vec<Dependency> = Vec::new();
        let mut i: usize = 0;
        proof {
            lemma_filter_empty(leaves_from(issue_id@));
            assert(self@.dependencies.take(0) =~= Seq::<DependencyView>::empty());
            assert(dependency_views(out@) =~= Seq::<DependencyView>::empty());
        }
        while i < self.dependencies.len()
            invariant
                i <= self.dependencies.len(),
                dependency_views(out@) == self@.dependencies.take(i as int).filter(
                    leaves_from(issue_id@),
                ),
            decreases self.dependencies.len() - i,
        {
            proof {
                lemma_filter_take_step(self@.dependencies, i as int, leaves_from(issue_id@));
            }
            if str_eq(self.dependencies[i].issue_id.as_str(), issue_id) {
                let ghost before = dependency_views(out@);
                out.push(self.dependencies[i].clone());
                proof {
                    assert(dependency_views(out@) =~= before.push(self@.dependencies[i as int]));
                }
            }
            i += 1;
        }
        assert(self@.dependencies.take(self.dependencies.len() as int) =~= self@.dependencies);
        out
    }

    fn get_all_dependency_records(&self) -> (r: Vec<Dependency>)
    {
        crate::types::copy_dependencies(&self.dependencies)
    }

    fn get_dependencies(&self, issue_id: &str) -> (r: Vec<Issue>)
    {
        let records = self.get_dependency_records(issue_id);
        let mut out: Vec<Issue> = Vec::new();
        let mut k: usize = 0;
        proof {
            lemma_filter_members(self@.dependencies, leaves_from(issue_id@));
        }
        while k < records.len()
            invariant
                k <= records.len(),
                out.len() == k,
                self.wf(),
                dependency_views(records@) == self@.edges_from(issue_id@),
                forall|x: DependencyView| #[trigger]
                    self@.edges_from(issue_id@).contains(x) ==> self@.dependencies.contains(x),
                forall|j: int|
                    0 <= j < k ==> (#[trigger] out[j])@ == self@.issue(records[j]@.depends_on_id),
            decreases records.len() - k,
        {
            proof {
                let d = records[k as int]@;
                assert(dependency_views(records@)[k as int] == d);
                assert(self@.edges_from(issue_id@).contains(d));
                assert(self@.dependencies.contains(d));
                let p = choose|p: int| 0 <= p < self@.dependencies.len() && self@.dependencies[p] == d;
                assert(self@.has_issue(self@.dependencies[p].depends_on_id));
            }
            match self.find_index(records[k].depends_on_id.as_str()) {
                Some(p) => {
                    out.push(self.issues[p].clone());
                },
                None => {
                    assert(false);
                },
            }
            k += 1;
        }
        proof {
            assert forall|j: int| 0 <= j < out.len() implies issue_views(out@)[j]
                == self@.dependencies_of(issue_id@)[j] by {
                assert(dependency_views(records@)[j] == records[j]@);
            }
            assert(issue_views(out@) =~= self@.dependencies_of(issue_id@));
        }
        out
    }

    fn get_dependents(&self, issue_id: &str) -> (r: Vec<Issue>)
    {
        let records = self.incoming_records(issue_id);
        let mut out: Vec<Issue> = Vec::new();
        let mut k: usize = 0;
        proof {
            lemma_filter_members(self@.dependencies, arrives_at(issue_id@));
        }
        while k < records.len()
            invariant
                k <= records.len(),
                out.len() == k,
                self.wf(),
                dependency_views(records@) == self@.edges_to(issue_id@),
                forall|x: DependencyView| #[trigger]
                    self@.edges_to(issue_id@).contains(x) ==> self@.dependencies.contains(x),
                forall|j: int| 0 <= j < k ==> (#[trigger] out[j])@ == self@.issue(records[j]@.issue_id),
            decreases records.len() - k,
        {
            proof {
                let d = records[k as int]@;
                assert(dependency_views(records@)[k as int] == d);
                assert(self@.edges_to(issue_id@).contains(d));
                assert(self@.dependencies.contains(d));
                let p = choose|p: int| 0 <= p < self@.dependencies.len() && self@.dependencies[p] == d;
                assert(self@.has_issue(self@.dependencies[p].issue_id));
            }
            match self.find_index(records[k].issue_id.as_str()) {
                Some(p) => {
                    out.push(self.issues[p].clone());
                },
                None => {
                    assert(false);
                },
            }
            k += 1;
        }
        proof {
            assert forall|j: int| 0 <= j < out.len() implies issue_views(out@)[j] == self@.dependents_of(
                issue_id@,
            )[j] by {
                assert(dependency_views(records@)[j] == records[j]@);
            }
            assert(issue_views(out@) =~= self@.dependents_of(issue_id@));
        }
        out
    }

    fn blockers_of(&self, id: &str) -> (r: Vec<String>)
    {
        let mut out: Vec<String> = Vec::new();
        let mut i: usize = 0;
        let ghost pred = self@.holds_back(id@);
        proof {
            lemma_filter_empty(pred);
            assert(self@.dependencies.take(0) =~= Seq::<DependencyView>::empty());
        }
        while i < self.dependencies.len()
            invariant
                i <= self.dependencies.len(),
                self.wf(),
                pred == self@.holds_back(id@),
                out.len() == self@.dependencies.take(i as int).filter(pred).len(),
                forall|j: int|
                    0 <= j < out.len() ==> (#[trigger] out[j])@ == self@.dependencies.take(i as int).filter(
                        pred,
                    )[j].depends_on_id,
            decreases self.dependencies.len() - i,
        {
            proof {
                lemma_filter_take_step(self@.dependencies, i as int, pred);
            }
            let d = &self.dependencies[i];
            assert(d@ == self@.dependencies[i as int]);
            let blocks = match d.dep_type {
                DependencyType::Blocks => true,
                _ => false,
            };
            if blocks && str_eq(d.issue_id.as_str(), id) {
                match self.find_index(d.depends_on_id.as_str()) {
                    Some(p) => {
                        let closed = match self.issues[p].status {
                            Status::Closed => true,
                            _ => false,
                        };
                        assert(self@.issues[p as int] == self.issues[p as int]@);
                        if !closed {
                            assert(pred(d@));
                            out.push(copy_string(&d.depends_on_id));
                        } else {
                            assert(!pred(d@));
                        }
                    },
                    None => {
                        assert(!pred(d@));
                    },
                }
            } else {
                assert(!pred(d@));
            }
            i += 1;
        }
        proof {
            assert(self@.dependencies.take(self.dependencies.len() as int) =~= self@.dependencies);
            assert(texts(out@) =~= self@.blockers(id@));
        }
        out
    }

    fn get_ready_work(&self, filter: &WorkFilter) -> (r: Vec<Issue>)
    {
        let mut picked: Vec<Issue> = Vec::new();
        let mut i: usize = 0;
        let ghost pred = self@.ready_pick(filter@);
        proof {
            lemma_filter_empty(pred);
            assert(self@.issues.take(0) =~= Seq::<IssueView>::empty());
            assert(issue_views(picked@) =~= Seq::<IssueView>::empty());
        }
        while i < self.issues.len()
            invariant
                i <= self.issues.len(),
                self.wf(),
                pred == self@.ready_pick(filter@),
                issue_views(picked@) == self@.issues.take(i as int).filter(pred),
            decreases self.issues.len() - i,
        {
            proof {
                lemma_filter_take_step(self@.issues, i as int, pred);
            }
            let issue = &self.issues[i];
            assert(issue@ == self@.issues[i as int]);
            let open = match issue.status {
                Status::Open => true,
                _ => false,
            };
            if open && Self::work_filter_accepts(issue, filter) {
                let blockers = self.blockers_of(issue.id.as_str());
                proof {
                    assert(texts(blockers@).len() == blockers.len());
                    assert(self@.blockers(issue@.id).len() == self@.blocking_edges(issue@.id).len());
                }
                if blockers.len() == 0 {
                    assert(pred(issue@));
                    let ghost before = issue_views(picked@);
                    picked.push(issue.clone());
                    proof {
                        assert(issue_views(picked@) =~= before.push(issue@));
                    }
                } else {
                    assert(!pred(issue@));
                }
            } else {
                assert(!pred(issue@));
            }
            i += 1;
        }
        assert(self@.issues.take(self.issues.len() as int) =~= self@.issues);
        let sorted = sort_issues(&picked);
        limit_issues(sorted, filter.limit)
    }

    fn get_blocked_issues(&self) -> (r: Vec<BlockedIssue>)
    {
        let mut out: Vec<BlockedIssue> = Vec::new();
        let mut i: usize = 0;
        let ghost pred = self@.blocked_pick();
        proof {
            lemma_filter_empty(pred);
            assert(self@.issues.take(0) =~= Seq::<IssueView>::empty());
        }
        while i < self.issues.len()
            invariant
                i <= self.issues.len(),
                self.wf(),
                pred == self@.blocked_pick(),
                out.len() == self@.issues.take(i as int).filter(pred).len(),
                forall|j: int|
                    0 <= j < out.len() ==> (#[trigger] out[j])@ == (BlockedIssueView {
                        issue: self@.issues.take(i as int).filter(pred)[j],
                        blocked_by_count: self@.blockers(
                            self@.issues.take(i as int).filter(pred)[j].id,
                        ).len(),
                        blocked_by: self@.blockers(self@.issues.take(i as int).filter(pred)[j].id),
                    }),
            decreases self.issues.len() - i,
        {
            proof {
                lemma_filter_take_step(self@.issues, i as int, pred);
            }
            let issue = &self.issues[i];
            assert(issue@ == self@.issues[i as int]);
            let blockers = self.blockers_of(issue.id.as_str());
            proof {
                assert(texts(blockers@).len() == blockers.len());
                assert(self@.blockers(issue@.id).len() == self@.blocking_edges(issue@.id).len());
            }
            if blockers.len() > 0 {
                assert(pred(issue@));
                out.push(
                    BlockedIssue {
                        issue: issue.clone(),
                        blocked_by_count: blockers.len(),
                        blocked_by: blockers,
                    },
                );
            } else {
                assert(!pred(issue@));
            }
            i += 1;
        }
        proof {
            assert(self@.issues.take(self.issues.len() as int) =~= self@.issues);
            assert(blocked_views(out@) =~= self@.blocked_work());
        }
        out
    }

    fn get_dependency_tree(&self, issue_id: &str, max_depth: i32) -> (r: Vec<TreeNode>)
    {
        let mut nodes: Vec<TreeNode> = Vec::new();
        let mut visited: Vec<String> = Vec::new();
        assert(tree_node_views(nodes@) =~= Seq::<TreeNodeView>::empty());
        assert(texts(visited@) =~= Seq::<Seq<char>>::empty());
        self.build_tree(issue_id, 0, max_depth, &mut nodes, &mut visited);
        nodes
    }

    fn detect_cycles(&self) -> (r: Vec<Vec<Issue>>)
    {
        let mut cycles: Vec<Vec<Issue>> = Vec::new();
        let mut visited: Vec<String> = Vec::new();
        let mut path: Vec<String> = Vec::new();
        assert(cycle_views(cycles@) =~= Seq::<Seq<IssueView>>::empty());
        assert(texts(visited@) =~= Seq::<Seq<char>>::empty());
        assert(texts(path@) =~= Seq::<Seq<char>>::empty());
        let ghost begin = CycleSearch {
            visited: texts(visited@),
            path: texts(path@),
            cycles: cycle_views(cycles@),
        };
        let budget: u128 = 2 * (self.dependencies.len() as u128);
        let mut k: usize = 0;
        while k < self.dependencies.len()
            invariant
                k <= self.dependencies.len(),
                self.wf(),
                budget == self@.cycle_budget(),
                self@.cycle_starts(
                    k as int,
                    budget as nat,
                    CycleSearch {
                        visited: texts(visited@),
                        path: texts(path@),
                        cycles: cycle_views(cycles@),
                    },
                ) == self@.cycle_starts(0, budget as nat, begin),
            decreases self.dependencies.len() - k,
        {
            assert(self@.dependencies[k as int] == self.dependencies[k as int]@);
            let node = self.dependencies[k].issue_id.as_str();
            if !contains_text(&visited, node) {
                self.dfs_cycle(node, budget, &mut visited, &mut path, &mut cycles);
            }
            k += 1;
        }
        cycles
    }

    fn get_labels(&self, issue_id: &str) -> (r: Vec<String>)
    {
        let mut out: Vec<String> = Vec::new();
        let mut i: usize = 0;
        let ghost pred = sits_on(issue_id@);
        proof {
            lemma_filter_empty(pred);
            assert(self@.labels.take(0) =~= Seq::<LabelView>::empty());
        }
        while i < self.labels.len()
            invariant
                i <= self.labels.len(),
                pred == sits_on(issue_id@),
                out.len() == self@.labels.take(i as int).filter(pred).len(),
                forall|j: int|
                    0 <= j < out.len() ==> (#[trigger] out[j])@ == self@.labels.take(i as int).filter(
                        pred,
                    )[j].label,
            decreases self.labels.len() - i,
        {
            proof {
                lemma_filter_take_step(self@.labels, i as int, pred);
            }
            assert(self@.labels[i as int] == self.labels[i as int]@);
            if str_eq(self.labels[i].issue_id.as_str(), issue_id) {
                out.push(copy_string(&self.labels[i].label));
            }
            i += 1;
        }
        proof {
            assert(self@.labels.take(self.labels.len() as int) =~= self@.labels);
            assert(texts(out@) =~= self@.labels_of(issue_id@));
        }
        out
    }

    fn get_issues_by_label(&self, label: &str) -> (r: Vec<Issue>)
    {
        let mut out: Vec<Issue> = Vec::new();
        let mut i: usize = 0;
        let ghost pred = reads(label@);
        proof {
            lemma_filter_empty(pred);
            assert(self@.labels.take(0) =~= Seq::<LabelView>::empty());
        }
        while i < self.labels.len()
            invariant
                i <= self.labels.len(),
                self.wf(),
                pred == reads(label@),
                out.len() == self@.labels.take(i as int).filter(pred).len(),
                forall|j: int|
                    0 <= j < out.len() ==> (#[trigger] out[j])@ == self@.issue(
                        self@.labels.take(i as int).filter(pred)[j].issue_id,
                    ),
            decreases self.labels.len() - i,
        {
            proof {
                lemma_filter_take_step(self@.labels, i as int, pred);
            }
            assert(self@.labels[i as int] == self.labels[i as int]@);
            if str_eq(self.labels[i].label.as_str(), label) {
                assert(self@.has_issue(self@.labels[i as int].issue_id));
                match self.find_index(self.labels[i].issue_id.as_str()) {
                    Some(p) => {
                        out.push(self.issues[p].clone());
                    },
                    None => {
                        assert(false);
                    },
                }
            }
            i += 1;
        }
        proof {
            assert(self@.labels.take(self.labels.len() as int) =~= self@.labels);
            assert(issue_views(out@) =~= self@.issues_labelled(label@));
        }
        out
    }

    fn search_issues(&self, query: &str, filter: &IssueFilter) -> (r: Vec<Issue>)
    {
        let mut picked: Vec<Issue> = Vec::new();
        let mut i: usize = 0;
        let ghost pred = self@.search_pick(filter@);
        proof {
            lemma_filter_empty(pred);
            assert(self@.issues.take(0) =~= Seq::<IssueView>::empty());
            assert(issue_views(picked@) =~= Seq::<IssueView>::empty());
        }
        while i < self.issues.len()
            invariant
                i <= self.issues.len(),
                pred == self@.search_pick(filter@),
                issue_views(picked@) == self@.issues.take(i as int).filter(pred),
            decreases self.issues.len() - i,
        {
            proof {
                lemma_filter_take_step(self@.issues, i as int, pred);
            }
            assert(self@.issues[i as int] == self.issues[i as int]@);
            if self.filter_accepts(&self.issues[i], filter) {
                let ghost before = issue_views(picked@);
                picked.push(self.issues[i].clone());
                proof {
                    assert(issue_views(picked@) =~= before.push(self@.issues[i as int]));
                }
            }
            i += 1;
        }
        assert(self@.issues.take(self.issues.len() as int) =~= self@.issues);
        let sorted = sort_issues(&picked);
        limit_issues(sorted, filter.limit)
    }

    fn get_events(&self, issue_id: &str, limit: usize) -> (r: Vec<Event>)
    {
        let mut picked: Vec<Event> = Vec::new();
        let mut i: usize = 0;
        let ghost pred = is_about(issue_id@);
        proof {
            lemma_filter_empty(pred);
            assert(self@.events.take(0) =~= Seq::<EventView>::empty());
            assert(event_views(picked@) =~= Seq::<EventView>::empty());
        }
        while i < self.events.len()
            invariant
                i <= self.events.len(),
                pred == is_about(issue_id@),
                event_views(picked@) == self@.events.take(i as int).filter(pred),
            decreases self.events.len() - i,
        {
            proof {
                lemma_filter_take_step(self@.events, i as int, pred);
            }
            assert(self@.events[i as int] == self.events[i as int]@);
            if str_eq(self.events[i].issue_id.as_str(), issue_id) {
                let ghost before = event_views(picked@);
                picked.push(self.events[i].clone());
                proof {
                    assert(event_views(picked@) =~= before.push(self@.events[i as int]));
                }
            }
            i += 1;
        }
        assert(self@.events.take(self.events.len() as int) =~= self@.events);
        let sorted = sort_events(&picked);
        limit_events(sorted, limit)
    }

    fn get_statistics(&self) -> (r: Statistics)
    {
        let mut open: usize = 0;
        let mut in_progress: usize = 0;
        let mut closed: usize = 0;
        let mut blocked: usize = 0;
        let mut ready: usize = 0;
        let mut i: usize = 0;
        proof {
            lemma_filter_empty(has_status(Status::Open));
            lemma_filter_empty(has_status(Status::InProgress));
            lemma_filter_empty(has_status(Status::Closed));
            lemma_filter_empty(self@.blocked_pick());
            lemma_filter_empty(self@.startable());
            assert(self@.issues.take(0) =~= Seq::<IssueView>::empty());
        }
        while i < self.issues.len()
            invariant
                i <= self.issues.len(),
                self.wf(),
                open == self@.issues.take(i as int).filter(has_status(Status::Open)).len(),
                in_progress == self@.issues.take(i as int).filter(has_status(Status::InProgress)).len(),
                closed == self@.issues.take(i as int).filter(has_status(Status::Closed)).len(),
                blocked == self@.issues.take(i as int).filter(self@.blocked_pick()).len(),
                ready == self@.issues.take(i as int).filter(self@.startable()).len(),
                open <= i,
                in_progress <= i,
                closed <= i,
                blocked <= i,
                ready <= i,
            decreases self.issues.len() - i,
        {
            proof {
                lemma_filter_take_step(self@.issues, i as int, has_status(Status::Open));
                lemma_filter_take_step(self@.issues, i as int, has_status(Status::InProgress));
                lemma_filter_take_step(self@.issues, i as int, has_status(Status::Closed));
                lemma_filter_take_step(self@.issues, i as int, self@.blocked_pick());
                lemma_filter_take_step(self@.issues, i as int, self@.startable());
            }
            let issue = &self.issues[i];
            assert(issue@ == self@.issues[i as int]);
            let blockers = self.blockers_of(issue.id.as_str());
            proof {
                assert(texts(blockers@).len() == blockers.len());
                assert(self@.blockers(issue@.id).len() == self@.blocking_edges(issue@.id).len());
            }
            let held = blockers.len() > 0;
            if held {
                blocked += 1;
            }
            match issue.status {
                Status::Open => {
                    open += 1;
                    if !held {
                        ready += 1;
                    }
                },
                Status::InProgress => {
                    in_progress += 1;
                },
                Status::Closed => {
                    closed += 1;
                },
                Status::Blocked => {},
            }
            i += 1;
        }
        assert(self@.issues.take(self.issues.len() as int) =~= self@.issues);
        Statistics {
            total_issues: self.issues.len(),
            open_issues: open,
            in_progress_issues: in_progress,
            closed_issues: closed,
            blocked_issues: blocked,
            ready_issues: ready,
        }
    }

    fn lead_times(&self) -> (r: Vec<i128>)
    {
        let mut out: Vec<i128> = Vec::new();
        let mut i: usize = 0;
        let ghost pred = has_close_time();
        proof {
            lemma_filter_empty(pred);
            assert(self@.issues.take(0) =~= Seq::<IssueView>::empty());
        }
        while i < self.issues.len()
            invariant
                i <= self.issues.len(),
                pred == has_close_time(),
                out.len() == self@.issues.take(i as int).filter(pred).len(),
                forall|j: int|
                    0 <= j < out.len() ==> (#[trigger] out[j]) == self@.issues.take(i as int).filter(
                        pred,
                    )[j].created_at.seconds_until(
                        self@.issues.take(i as int).filter(pred)[j].closed_at->0,
                    ),
            decreases self.issues.len() - i,
        {
            proof {
                lemma_filter_take_step(self@.issues, i as int, pred);
            }
            let issue = &self.issues[i];
            assert(issue@ == self@.issues[i as int]);
            if let Some(closed_at) = issue.closed_at {
                let from: i128 = issue.created_at.secs as i128;
                let to: i128 = closed_at.secs as i128;
                out.push(to - from);
            }
            i += 1;
        }
        proof {
            assert(self@.issues.take(self.issues.len() as int) =~= self@.issues);
        }
        out
    }

    fn get_dirty_issues(&self) -> (r: Vec<String>)
    {
        crate::text::copy_strings(&self.dirty)
    }

    fn clear_dirty_issues(&mut self)
    {
        self.dirty = Vec::new();
        proof {
            assert(self@.dirty =~= Seq::<Seq<char>>::empty());
        }
    }

    fn clear_dirty_issues_by_id(&mut self, issue_ids: &Vec<String>)
    {
        let mut kept: Vec<String> = Vec::new();
        let mut i: usize = 0;
        let ghost pred = not_among(texts(issue_ids@));
        proof {
            lemma_filter_empty(pred);
            assert(self@.dirty.take(0) =~= Seq::<Seq<char>>::empty());
            assert(texts(kept@) =~= Seq::<Seq<char>>::empty());
        }
        while i < self.dirty.len()
            invariant
                i <= self.dirty.len(),
                pred == not_among(texts(issue_ids@)),
                texts(kept@) == self@.dirty.take(i as int).filter(pred),
            decreases self.dirty.len() - i,
        {
            proof {
                lemma_filter_take_step(self@.dirty, i as int, pred);
            }
            assert(self@.dirty[i as int] == self.dirty[i as int]@);
            if !contains_text(issue_ids, self.dirty[i].as_str()) {
                let ghost before = texts(kept@);
                kept.push(copy_string(&self.dirty[i]));
                proof {
                    assert(texts(kept@) =~= before.push(self@.dirty[i as int]));
                }
            }
            i += 1;
        }
        proof {
            assert(self@.dirty.take(self.dirty.len() as int) =~= self@.dirty);
            let old_dirty = self@.dirty;
            let new_dirty = old_dirty.filter(pred);
            lemma_filter_members(old_dirty, pred);
            assert forall|k: int| 0 <= k < new_dirty.len() implies self@.has_issue(
                #[trigger] new_dirty[k],
            ) by {
                assert(new_dirty.contains(new_dirty[k]));
                assert(old_dirty.contains(new_dirty[k]));
                let p = choose|p: int| 0 <= p < old_dirty.len() && old_dirty[p] == new_dirty[k];
                assert(self@.has_issue(old_dirty[p]));
            }
            crate::seqs::lemma_filter_no_duplicates(old_dirty, pred);
        }
        self.dirty = kept;
    }

    fn set_config(&mut self, key: &str, value: &str)
    {
        self.config.set(key, value.to_owned());
        proof {
            crate::storage::invariants::lemma_records_kept(old(self)@, self@);
        }
    }

    fn get_config(&self, key: &str) -> (r: Option<String>)
    {
        match self.config.get(key) {
            Some(v) => Some(copy_string(v)),
            None => None,
        }
    }

    fn set_metadata(&mut self, key: &str, value: &str)
    {
        self.metadata.set(key, value.to_owned());
        proof {
            crate::storage::invariants::lemma_records_kept(old(self)@, self@);
        }
    }

    fn get_metadata(&self, key: &str) -> (r: Option<String>)
    {
        match self.metadata.get(key) {
            Some(v) => Some(copy_string(v)),
            None => None,
        }
    }

    fn generate_id(&mut self, prefix: &str) -> (r: Result<String, TraceError>)
    {
        let last: i64 = match self.counters.get(prefix) {
            Some(n) => *n,
            None => 0,
        };
        assert(last >= 0) by {
            if self@.counters.contains_key(prefix@) {
                assert(self@.counters[prefix@] >= 0);
            }
        }
        if last == i64::MAX {
            return Err(TraceError::Storage(StorageFault::CounterExhausted));
        }
        let next: i64 = last + 1;
        self.counters.set(prefix, next);
        proof {
            let t = self@;
            assert forall|p: Seq<char>| t.counters.contains_key(p) implies #[trigger] t.counters[p]
                >= 0 by {
                if p != prefix@ {
                    assert(old(self)@.counters.contains_key(p));
                    assert(old(self)@.counters[p] >= 0);
                }
            }
            lemma_records_kept(old(self)@, t);
        }
        Ok(format_identifier(prefix, next as u64))
    }

    fn sync_counters(&mut self)
    {
        if !self.counters.is_empty() {
            return ;
        }
        let ghost ids = self@.issue_ids();
        let mut i: usize = 0;
        proof {
            assert(ids.take(0) =~= Seq::<Seq<char>>::empty());
        }
        while i < self.issues.len()
            invariant
                i <= self.issues.len(),
                self.counters.wf(),
                self.config == old(self).config,
                self.metadata == old(self).metadata,
                self.issues == old(self).issues,
                self.dependencies == old(self).dependencies,
                self.labels == old(self).labels,
                self.events == old(self).events,
                self.dirty == old(self).dirty,
                ids == old(self)@.issue_ids(),
                self.counters@ == seeded_counters(ids.take(i as int)),
            decreases self.issues.len() - i,
        {
            proof {
                assert(ids.take(i + 1).drop_last() =~= ids.take(i as int));
                assert(ids.take(i + 1).last() == self.issues[i as int]@.id);
            }
            match split_identifier(self.issues[i].id.as_str()) {
                Some((prefix, number)) => {
                    let known = match self.counters.get(prefix.as_str()) {
                        Some(n) => *n >= number,
                        None => false,
                    };
                    if !known {
                        self.counters.set(prefix.as_str(), number);
                    }
                },
                None => {},
            }
            i += 1;
        }
        proof {
            assert(ids.take(self.issues.len() as int) =~= ids);
            lemma_seeded_counters(ids);
            lemma_records_kept(old(self)@, self@);
        }
    }
}

} // verus!
