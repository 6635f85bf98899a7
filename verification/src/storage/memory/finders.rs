//! Finding records in the lists of the store, and testing issues against
//! filters.

use vstd::prelude::*;
use vstd::string::*;
use crate::seqs::{lemma_filter_empty, lemma_filter_take_step};
use crate::storage::Storage;
use crate::storage::graph::arrives_at;
use crate::storage::invariants::{lemma_edge_at, lemma_label_at};
use crate::storage::memory::MemoryStorage;
use crate::text::{contains_text, copy_string, str_eq, texts};
use crate::types::{dependency_views, Dependency, DependencyView, Issue, IssueFilter, WorkFilter};

verus! {

impl MemoryStorage {
    /// Where the label `label` of the issue `id` is stored, if it is.
    pub(crate) fn find_label(&self, id: &str, label: &str) -> (r: Option<usize>)
        requires
            self@.labels_sound(),
        ensures
            match r {
                Some(k) => k < self@.labels.len() && self@.has_label(id@, label@) && self@.label_index(
                    id@,
                    label@,
                ) == k,
                None => !self@.has_label(id@, label@),
            },
    {
        let mut i: usize = 0;
        while i < self.labels.len()
            invariant
                i <= self.labels.len(),
                self@.labels_sound(),
                forall|k: int|
                    0 <= k < i ==> !((#[trigger] self@.labels[k]).issue_id == id@ && self@.labels[k].label
                        == label@),
            decreases self.labels.len() - i,
        {
            if str_eq(self.labels[i].issue_id.as_str(), id) && str_eq(
                self.labels[i].label.as_str(),
                label,
            ) {
                proof {
                    assert(self@.labels[i as int].issue_id == id@ && self@.labels[i as int].label
                        == label@);
                    crate::storage::invariants::lemma_label_at(self@, i as int);
                }
                return Some(i);
            }
            i += 1;
        }
        None
    }

    /// Where the edge from `from` to `to` is stored, if it is.
    pub(crate) fn find_edge(&self, from: &str, to: &str) -> (r: Option<usize>)
        requires
            self@.edges_sound(),
        ensures
            match r {
                Some(k) => k < self@.dependencies.len() && self@.has_edge(from@, to@) && self@.edge_index(
                    from@,
                    to@,
                ) == k,
                None => !self@.has_edge(from@, to@),
            },
    {
        let mut i: usize = 0;
        while i < self.dependencies.len()
            invariant
                i <= self.dependencies.len(),
                self@.edges_sound(),
                forall|k: int|
                    0 <= k < i ==> !((#[trigger] self@.dependencies[k]).issue_id == from@
                        && self@.dependencies[k].depends_on_id == to@),
            decreases self.dependencies.len() - i,
        {
            if str_eq(self.dependencies[i].issue_id.as_str(), from) && str_eq(
                self.dependencies[i].depends_on_id.as_str(),
                to,
            ) {
                proof {
                    assert(self@.dependencies[i as int].issue_id == from@ && self@.dependencies[i as int].depends_on_id
                        == to@);
                    lemma_edge_at(self@, i as int);
                }
                return Some(i);
            }
            i += 1;
        }
        None
    }

    /// The edges that arrive at the issue `issue_id`.
    pub(crate) fn incoming_records(&self, issue_id: &str) -> (r: Vec<Dependency>)
        ensures
            dependency_views(r@) == self@.edges_to(issue_id@),
    {
        let mut out: Vec<Dependency> = Vec::new();
        let mut i: usize = 0;
        proof {
            lemma_filter_empty(arrives_at(issue_id@));
            assert(self@.dependencies.take(0) =~= Seq::<DependencyView>::empty());
            assert(dependency_views(out@) =~= Seq::<DependencyView>::empty());
        }
        while i < self.dependencies.len()
            invariant
                i <= self.dependencies.len(),
                dependency_views(out@) == self@.dependencies.take(i as int).filter(
                    arrives_at(issue_id@),
                ),
            decreases self.dependencies.len() - i,
        {
            proof {
                lemma_filter_take_step(self@.dependencies, i as int, arrives_at(issue_id@));
            }
            if str_eq(self.dependencies[i].depends_on_id.as_str(), issue_id) {
                let ghost before = dependency_views(out@);
                out.push(self.dependencies[i].clone());
                proof {
                    assert(dependency_views(out@) =~= before.push(self@.dependencies[i as int]));
                }
            }
            i += 1;
        }
        assert(self@.dependencies.take(self.dependencies.len() as int) =~= self@.dependencies);
        out
    }

    /// The identifiers that the issue `issue_id` depends on.
    pub(crate) fn targets(&self, issue_id: &str) -> (r: Vec<String>)
        ensures
            texts(r@) == self@.targets_of(issue_id@),
    {
        let records = self.get_dependency_records(issue_id);
        let mut out: Vec<String> = Vec::new();
        let mut k: usize = 0;
        while k < records.len()
            invariant
                k <= records.len(),
                out.len() == k,
                dependency_views(records@) == self@.edges_from(issue_id@),
                forall|j: int| 0 <= j < k ==> (#[trigger] out[j])@ == records[j]@.depends_on_id,
            decreases records.len() - k,
        {
            out.push(copy_string(&records[k].depends_on_id));
            k += 1;
        }
        proof {
            assert forall|j: int| 0 <= j < out.len() implies texts(out@)[j] == self@.targets_of(
                issue_id@,
            )[j] by {
                assert(dependency_views(records@)[j] == records[j]@);
            }
            assert(texts(out@) =~= self@.targets_of(issue_id@));
        }
        out
    }

    /// Whether the issue passes the filter's demands on priority and assignee.
    pub(crate) fn work_filter_accepts(issue: &Issue, filter: &WorkFilter) -> (r: bool)
        ensures
            r == ((filter@.priority matches Some(p) ==> issue@.priority == p) && (
            filter@.assignee matches Some(a) ==> issue@.assignee == a)),
    {
        let priority_ok = match filter.priority {
            Some(p) => issue.priority == p,
            None => true,
        };
        let assignee_ok = match &filter.assignee {
            Some(a) => str_eq(issue.assignee.as_str(), a.as_str()),
            None => true,
        };
        priority_ok && assignee_ok
    }

    /// Whether the issue `id` carries one of the labels `wanted`.
    pub(crate) fn has_any_label(&self, id: &str, wanted: &Vec<String>) -> (r: bool)
        ensures
            r == self@.label_hit(id@, texts(wanted@)),
    {
        let mut i: usize = 0;
        while i < self.labels.len()
            invariant
                i <= self.labels.len(),
                forall|k: int|
                    0 <= k < i ==> !((#[trigger] self@.labels[k]).issue_id == id@ && texts(
                        wanted@,
                    ).contains(self@.labels[k].label)),
            decreases self.labels.len() - i,
        {
            assert(self@.labels[i as int] == self.labels[i as int]@);
            if str_eq(self.labels[i].issue_id.as_str(), id) && contains_text(
                wanted,
                self.labels[i].label.as_str(),
            ) {
                return true;
            }
            i += 1;
        }
        false
    }

    /// Whether the issue has what the filter asks for.
    pub(crate) fn filter_accepts(&self, issue: &Issue, filter: &IssueFilter) -> (r: bool)
        ensures
            r == self@.search_pick(filter@)(issue@),
    {
        let status_ok = match filter.status {
            Some(s) => issue.status == s,
            None => true,
        };
        let priority_ok = match filter.priority {
            Some(p) => issue.priority == p,
            None => true,
        };
        let type_ok = match filter.issue_type {
            Some(t) => issue.issue_type == t,
            None => true,
        };
        let assignee_ok = match &filter.assignee {
            Some(a) => str_eq(issue.assignee.as_str(), a.as_str()),
            None => true,
        };
        if !(status_ok && priority_ok && type_ok && assignee_ok) {
            return false;
        }
        if filter.labels.len() > 0 {
            assert(texts(filter.labels@).len() == filter.labels.len());
            self.has_any_label(issue.id.as_str(), &filter.labels)
        } else {
            assert(texts(filter.labels@).len() == 0);
            true
        }
    }
}

} // verus!
