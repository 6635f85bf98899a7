//! What holds of every change of the store, and of every run of changes.
//!
//! The changes are gathered into one type, so that a law can speak of any
//! of them.

use vstd::prelude::*;
use crate::error::TraceError;
use crate::storage::invariants::{
    lemma_closed, lemma_commented, lemma_created, lemma_labelled, lemma_linked, lemma_recorded,
    lemma_records_kept, lemma_replaced, lemma_same_ids, lemma_unlabelled, lemma_unlinked,
    lemma_updated, same_ids,
};
use crate::storage::model::{IssueUpdatesView, StorageView};
use crate::types::{DependencyView, EventType, IssueView, LabelView, Timestamp};

verus! {

/// One change of the store.
pub ghost enum Change {
    Create { issue: IssueView },
    Update { id: Seq<char>, updates: IssueUpdatesView },
    Replace { issue: IssueView },
    Close { id: Seq<char>, reason: Seq<char> },
    Comment { id: Seq<char>, comment: Seq<char> },
    AddLabel { id: Seq<char>, label: Seq<char> },
    RemoveLabel { id: Seq<char>, label: Seq<char> },
    Link { dep: DependencyView },
    Unlink { from: Seq<char>, to: Seq<char> },
}

impl Change {
    /// The issue that the change is about.
    pub open spec fn target(self) -> Seq<char> {
        match self {
            Change::Create { issue } => issue.id,
            Change::Update { id, .. } => id,
            Change::Replace { issue } => issue.id,
            Change::Close { id, .. } => id,
            Change::Comment { id, .. } => id,
            Change::AddLabel { id, .. } => id,
            Change::RemoveLabel { id, .. } => id,
            Change::Link { dep } => dep.issue_id,
            Change::Unlink { from, .. } => from,
        }
    }

    /// Whether the store takes the change.
    pub open spec fn outcome(self, s: StorageView, now: Timestamp) -> Result<(), TraceError> {
        match self {
            Change::Create { issue } => s.create_outcome(issue),
            Change::Update { id, updates } => s.update_outcome(id, updates, now),
            Change::Replace { issue } => s.replace_outcome(issue),
            Change::Close { id, .. } => s.record_outcome(id),
            Change::Comment { id, .. } => s.record_outcome(id),
            Change::AddLabel { id, .. } => s.record_outcome(id),
            Change::RemoveLabel { id, .. } => s.record_outcome(id),
            Change::Link { dep } => s.link_outcome(dep.issue_id, dep.depends_on_id),
            Change::Unlink { from, .. } => s.record_outcome(from),
        }
    }

    /// The store after the change, which is the store before it if the
    /// change is not taken.
    pub open spec fn step(self, s: StorageView, actor: Seq<char>, now: Timestamp) -> StorageView {
        if self.outcome(s, now) is Err {
            s
        } else {
            match self {
                Change::Create { issue } => s.created(issue, actor, now),
                Change::Update { id, updates } => s.updated(id, updates, actor, now),
                Change::Replace { issue } => s.replaced(issue, actor, now),
                Change::Close { id, reason } => s.closed(id, reason, actor, now),
                Change::Comment { id, comment } => s.commented(id, actor, comment, now),
                Change::AddLabel { id, label } => s.labelled(id, label, actor, now),
                Change::RemoveLabel { id, label } => s.unlabelled(id, label, actor, now),
                Change::Link { dep } => s.linked(dep, actor, now),
                Change::Unlink { from, to } => s.unlinked(from, to, actor, now),
            }
        }
    }
}

/// Every change leads from a consistent store to a consistent store.
pub proof fn lemma_step_keeps_consistency(c: Change, s: StorageView, actor: Seq<char>, now: Timestamp)
    requires
        s.wf(),
    ensures
        c.step(s, actor, now).wf(),
{
    if c.outcome(s, now) is Ok {
        match c {
            Change::Create { issue } => lemma_created(s, issue, actor, now),
            Change::Update { id, updates } => lemma_updated(s, id, updates, actor, now),
            Change::Replace { issue } => lemma_replaced(s, issue, actor, now),
            Change::Close { id, reason } => lemma_closed(s, id, reason, actor, now),
            Change::Comment { id, comment } => lemma_commented(s, id, actor, comment, now),
            Change::AddLabel { id, label } => lemma_labelled(s, id, label, actor, now),
            Change::RemoveLabel { id, label } => lemma_unlabelled(s, id, label, actor, now),
            Change::Link { dep } => lemma_linked(s, dep, actor, now),
            Change::Unlink { from, to } => lemma_unlinked(s, from, to, actor, now),
        }
    }
}

/// A change that is taken marks the issue it is about, and marks nothing
/// else; a change that is not taken marks nothing.
pub proof fn lemma_step_marks_its_target(c: Change, s: StorageView, actor: Seq<char>, now: Timestamp)
    ensures
        c.step(s, actor, now).dirty == if c.outcome(s, now) is Ok {
            s.marked(c.target()).dirty
        } else {
            s.dirty
        },
{
}

/// No change takes a record out of the audit trail or alters one: the trail
/// before the change is the beginning of the trail after it.
pub proof fn lemma_step_appends_to_trail(c: Change, s: StorageView, actor: Seq<char>, now: Timestamp)
    ensures
        s.events.len() <= c.step(s, actor, now).events.len(),
        c.step(s, actor, now).events.take(s.events.len() as int) == s.events,
        c.outcome(s, now) is Ok ==> s.events.len() < c.step(s, actor, now).events.len(),
{
    let t = c.step(s, actor, now);
    assert(t.events.take(s.events.len() as int) =~= s.events);
}

/// No change but the handing out of an identifier touches a counter.
pub proof fn lemma_step_keeps_counters(c: Change, s: StorageView, actor: Seq<char>, now: Timestamp)
    ensures
        c.step(s, actor, now).counters == s.counters,
        c.step(s, actor, now).config == s.config,
        c.step(s, actor, now).metadata == s.metadata,
{
}

/// A change of a stored issue that is taken sets the time of the issue's
/// last change.
pub proof fn lemma_step_refreshes(c: Change, s: StorageView, actor: Seq<char>, now: Timestamp)
    requires
        s.wf(),
        c.outcome(s, now) is Ok,
        !(c is Create),
    ensures
        c.step(s, actor, now).has_issue(c.target()),
        c.step(s, actor, now).issue(c.target()).updated_at == now,
{
    let t = c.step(s, actor, now);
    let id = c.target();
    let k = s.issue_index(id);
    lemma_step_keeps_consistency(c, s, actor, now);
    match c {
        Change::Create { issue } => {},
        Change::Update { id, updates } => {
            lemma_updated(s, id, updates, actor, now);
        },
        Change::Replace { issue } => {
            lemma_replaced(s, issue, actor, now);
        },
        Change::Close { id, reason } => {
            lemma_closed(s, id, reason, actor, now);
        },
        Change::Comment { id, comment } => {
            lemma_recorded(
                s,
                id,
                EventType::Commented,
                actor,
                None,
                Some(comment),
                now,
            );
        },
        Change::AddLabel { id, label } => {
            lemma_labelled(s, id, label, actor, now);
            let a = if s.has_label(id, label) {
                s
            } else {
                StorageView {
                    labels: s.labels.push(LabelView { issue_id: id, label: label }),
                    ..s
                }
            };
            assert(same_ids(s, a));
            lemma_same_ids(s, a);
        },
        Change::RemoveLabel { id, label } => {
            lemma_unlabelled(s, id, label, actor, now);
            let a = if s.has_label(id, label) {
                StorageView { labels: s.labels.remove(s.label_index(id, label)), ..s }
            } else {
                s
            };
            assert(same_ids(s, a));
            lemma_same_ids(s, a);
        },
        Change::Link { dep } => {
            lemma_linked(s, dep, actor, now);
            let edge = DependencyView { created_by: actor, ..dep };
            let a = if s.has_edge(dep.issue_id, dep.depends_on_id) {
                StorageView {
                    dependencies: s.dependencies.update(
                        s.edge_index(dep.issue_id, dep.depends_on_id),
                        edge,
                    ),
                    ..s
                }
            } else {
                StorageView { dependencies: s.dependencies.push(edge), ..s }
            };
            assert(same_ids(s, a));
            lemma_same_ids(s, a);
        },
        Change::Unlink { from, to } => {
            lemma_unlinked(s, from, to, actor, now);
            let a = if s.has_edge(from, to) {
                StorageView { dependencies: s.dependencies.remove(s.edge_index(from, to)), ..s }
            } else {
                s
            };
            assert(same_ids(s, a));
            lemma_same_ids(s, a);
        },
    }
    assert(same_ids(s, t));
    lemma_same_ids(s, t);
    assert(t.issue_index(id) == k);
    assert(t.issues[k].updated_at == now);
}

/// The store after the changes `changes`, each made by `actor` at the time
/// that `times` gives for it.
pub open spec fn run(s: StorageView, changes: Seq<Change>, actor: Seq<char>, times: Seq<Timestamp>) -> StorageView
    decreases changes.len(),
{
    if changes.len() == 0 {
        s
    } else {
        changes.last().step(
            run(s, changes.drop_last(), actor, times),
            actor,
            times[changes.len() - 1],
        )
    }
}

/// The issues that the changes which were taken are about, in the order of
/// the changes.
pub open spec fn affected(s: StorageView, changes: Seq<Change>, actor: Seq<char>, times: Seq<Timestamp>) -> Seq<
    Seq<char>,
>
    decreases changes.len(),
{
    if changes.len() == 0 {
        Seq::empty()
    } else if changes.last().outcome(
        run(s, changes.drop_last(), actor, times),
        times[changes.len() - 1],
    ) is Ok {
        affected(s, changes.drop_last(), actor, times).push(changes.last().target())
    } else {
        affected(s, changes.drop_last(), actor, times)
    }
}

/// A run reads only the times of its own changes.
pub proof fn lemma_run_reads_its_times(
    s: StorageView,
    changes: Seq<Change>,
    actor: Seq<char>,
    a: Seq<Timestamp>,
    b: Seq<Timestamp>,
)
    requires
        changes.len() <= a.len(),
        changes.len() <= b.len(),
        forall|i: int| 0 <= i < changes.len() ==> a[i] == b[i],
    ensures
        run(s, changes, actor, a) == run(s, changes, actor, b),
        affected(s, changes, actor, a) == affected(s, changes, actor, b),
    decreases changes.len(),
{
    if changes.len() > 0 {
        lemma_run_reads_its_times(s, changes.drop_last(), actor, a, b);
    }
}

/// After any run of changes on a store without marks, the marked issues are
/// exactly those that the changes which were taken are about, each marked
/// once; and the store is consistent.
pub proof fn lemma_marks_are_the_affected_issues(
    s: StorageView,
    changes: Seq<Change>,
    actor: Seq<char>,
    times: Seq<Timestamp>,
)
    requires
        s.wf(),
        s.dirty.len() == 0,
        times.len() == changes.len(),
    ensures
        run(s, changes, actor, times).wf(),
        run(s, changes, actor, times).dirty.no_duplicates(),
        forall|id: Seq<char>|
            run(s, changes, actor, times).dirty.contains(id) <==> affected(
                s,
                changes,
                actor,
                times,
            ).contains(id),
    decreases changes.len(),
{
    if changes.len() == 0 {
    } else {
        let before = run(s, changes.drop_last(), actor, times);
        let c = changes.last();
        let now = times[changes.len() - 1];
        let after = c.step(before, actor, now);
        lemma_marks_are_the_affected_issues(s, changes.drop_last(), actor, times.drop_last());
        lemma_run_reads_its_times(s, changes.drop_last(), actor, times, times.drop_last());
        lemma_step_keeps_consistency(c, before, actor, now);
        lemma_step_marks_its_target(c, before, actor, now);
        let earlier = affected(s, changes.drop_last(), actor, times);
        let all = affected(s, changes, actor, times);
        assert forall|id: Seq<char>| after.dirty.contains(id) <==> all.contains(id) by {
            if c.outcome(before, now) is Ok {
                let t = c.target();
                assert(all == earlier.push(t));
                if before.dirty.contains(t) {
                    assert(after.dirty == before.dirty);
                } else {
                    assert(after.dirty == before.dirty.push(t));
                }
                if after.dirty.contains(id) {
                    let i = choose|i: int| 0 <= i < after.dirty.len() && after.dirty[i] == id;
                    if i < before.dirty.len() {
                        assert(before.dirty[i] == id);
                        assert(earlier.contains(id));
                        let j = choose|j: int| 0 <= j < earlier.len() && earlier[j] == id;
                        assert(all[j] == id);
                    } else {
                        assert(all[all.len() - 1] == id);
                    }
                }
                if all.contains(id) {
                    let j = choose|j: int| 0 <= j < all.len() && all[j] == id;
                    if j < earlier.len() {
                        assert(earlier[j] == id);
                        assert(earlier.contains(id));
                        assert(before.dirty.contains(id));
                        let i = choose|i: int| 0 <= i < before.dirty.len() && before.dirty[i] == id;
                        assert(after.dirty[i] == id);
                    } else {
                        assert(id == t);
                        if before.dirty.contains(t) {
                        } else {
                            assert(after.dirty[after.dirty.len() - 1] == t);
                        }
                    }
                }
            }
        }
    }
}

/// Taking every mark away after an export leaves no mark.
pub proof fn lemma_cleared_store_has_no_marks(s: StorageView)
    requires
        s.wf(),
    ensures
        (StorageView { dirty: Seq::empty(), ..s }).wf(),
        (StorageView { dirty: Seq::empty(), ..s }).dirty.len() == 0,
{
    lemma_records_kept(s, StorageView { dirty: Seq::empty(), ..s });
}

} // verus!
