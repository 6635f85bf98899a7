//! Consistency is kept: each change of the model leads from a consistent
//! store to a consistent store.

use vstd::prelude::*;
use crate::storage::model::{IssueUpdatesView, StorageView};
use crate::types::{DependencyView, EventType, IssueView, Timestamp};

verus! {

/// In a store without repeated identifiers, the issue at position `k` is
/// found under its identifier at `k` and nowhere else.
pub proof fn lemma_issue_at(s: StorageView, k: int)
    requires
        s.ids_unique(),
        0 <= k < s.issues.len(),
    ensures
        s.has_issue(s.issues[k].id),
        s.issue_index(s.issues[k].id) == k,
        s.issue(s.issues[k].id) == s.issues[k],
{
    let id = s.issues[k].id;
    assert(s.has_issue(id));
    let p = s.issue_index(id);
    assert(0 <= p < s.issues.len() && s.issues[p].id == id);
    if p < k {
        assert(s.issues[p].id != s.issues[k].id);
    } else if k < p {
        assert(s.issues[k].id != s.issues[p].id);
    }
}

/// A stored issue is found at its index.
pub proof fn lemma_issue_found(s: StorageView, id: Seq<char>)
    requires
        s.has_issue(id),
    ensures
        0 <= s.issue_index(id) < s.issues.len(),
        s.issue(id).id == id,
{
}

/// The two stores hold issues with the same identifiers at the same places.
pub open spec fn same_ids(a: StorageView, b: StorageView) -> bool {
    &&& a.issues.len() == b.issues.len()
    &&& forall|i: int| 0 <= i < a.issues.len() ==> (#[trigger] a.issues[i]).id == b.issues[i].id
}

/// Stores with the same identifiers at the same places find the same issues
/// at the same indices.
pub proof fn lemma_same_ids(a: StorageView, b: StorageView)
    requires
        same_ids(a, b),
        a.ids_unique(),
    ensures
        b.ids_unique(),
        forall|id: Seq<char>| a.has_issue(id) == #[trigger] b.has_issue(id),
        forall|id: Seq<char>| a.has_issue(id) ==> a.issue_index(id) == #[trigger] b.issue_index(id),
{
    assert forall|i: int, j: int| 0 <= i < j < b.issues.len() implies (#[trigger] b.issues[i]).id != (
    #[trigger] b.issues[j]).id by {
        assert(a.issues[i].id != a.issues[j].id);
    }
    assert forall|id: Seq<char>| a.has_issue(id) == #[trigger] b.has_issue(id) by {
        if a.has_issue(id) {
            let k = a.issue_index(id);
            assert(b.issues[k].id == id);
        }
        if b.has_issue(id) {
            let k = b.issue_index(id);
            assert(a.issues[k].id == id);
        }
    }
    assert forall|id: Seq<char>| a.has_issue(id) implies a.issue_index(id) == #[trigger] b.issue_index(
        id,
    ) by {
        let k = a.issue_index(id);
        assert(b.issues[k].id == id);
        lemma_issue_at(b, k);
    }
}

/// What is consistent apart from the issues stays so when the issues keep
/// their identifiers and places.
proof fn lemma_rest_carries(a: StorageView, b: StorageView)
    requires
        a.wf(),
        same_ids(a, b),
        b.dependencies == a.dependencies,
        b.labels == a.labels,
        b.events == a.events,
        b.dirty == a.dirty,
        b.counters == a.counters,
    ensures
        b.ids_unique(),
        b.edges_sound(),
        b.labels_sound(),
        b.events_sound(),
        b.dirty_sound(),
        b.counters_sound(),
{
    lemma_same_ids(a, b);
    assert forall|k: int| 0 <= k < b.dependencies.len() implies b.has_issue(
        (#[trigger] b.dependencies[k]).issue_id,
    ) && b.has_issue(b.dependencies[k].depends_on_id) by {
        assert(a.has_issue(a.dependencies[k].issue_id));
        assert(a.has_issue(a.dependencies[k].depends_on_id));
    }
    assert forall|k: int| 0 <= k < b.labels.len() implies b.has_issue(
        (#[trigger] b.labels[k]).issue_id,
    ) by {
        assert(a.has_issue(a.labels[k].issue_id));
    }
    assert forall|k: int| 0 <= k < b.events.len() implies b.has_issue(
        (#[trigger] b.events[k]).issue_id,
    ) by {
        assert(a.has_issue(a.events[k].issue_id));
    }
    assert forall|k: int| 0 <= k < b.dirty.len() implies b.has_issue(#[trigger] b.dirty[k]) by {
        assert(a.has_issue(a.dirty[k]));
    }
}

/// Replacing one stored issue by a valid one with the same identifier and no
/// edge list keeps the store consistent.
pub proof fn lemma_replace_issue(s: StorageView, k: int, next: IssueView)
    requires
        s.wf(),
        0 <= k < s.issues.len(),
        next.id == s.issues[k].id,
        next.is_valid(),
        next.dependencies.len() == 0,
    ensures
        (StorageView { issues: s.issues.update(k, next), ..s }).wf(),
        same_ids(s, StorageView { issues: s.issues.update(k, next), ..s }),
{
    let t = StorageView { issues: s.issues.update(k, next), ..s };
    assert(same_ids(s, t));
    lemma_rest_carries(s, t);
    assert forall|i: int| 0 <= i < t.issues.len() implies (#[trigger] t.issues[i]).is_valid()
        && t.issues[i].dependencies.len() == 0 by {
        if i != k {
            assert(s.issues[i].is_valid());
        }
    }
}

/// A new time of last change keeps the store consistent.
pub proof fn lemma_touched(s: StorageView, id: Seq<char>, now: Timestamp)
    requires
        s.wf(),
        s.has_issue(id),
    ensures
        s.touched(id, now).wf(),
        same_ids(s, s.touched(id, now)),
        forall|x: Seq<char>| s.has_issue(x) == #[trigger] s.touched(id, now).has_issue(x),
        s.touched(id, now).event_room(1) == s.event_room(1),
{
    let k = s.issue_index(id);
    assert(s.issues[k].is_valid());
    lemma_replace_issue(s, k, IssueView { updated_at: now, ..s.issues[k] });
    lemma_same_ids(s, s.touched(id, now));
}

/// One more audit record about a stored issue keeps the store consistent.
pub proof fn lemma_logged(
    s: StorageView,
    issue_id: Seq<char>,
    event_type: EventType,
    actor: Seq<char>,
    new_value: Option<Seq<char>>,
    comment: Option<Seq<char>>,
    now: Timestamp,
)
    requires
        s.wf(),
        s.has_issue(issue_id),
        s.event_room(1),
    ensures
        s.logged(issue_id, event_type, actor, new_value, comment, now).wf(),
        s.logged(issue_id, event_type, actor, new_value, comment, now).issues == s.issues,
        s.logged(issue_id, event_type, actor, new_value, comment, now).next_event_id()
            == s.next_event_id() + 1,
{
    let t = s.logged(issue_id, event_type, actor, new_value, comment, now);
    let n = s.events.len() as int;
    assert(t.events[n].id == s.next_event_id());
    assert forall|k: int| 0 <= k < t.events.len() implies t.has_issue(
        (#[trigger] t.events[k]).issue_id,
    ) by {
        if k < n {
            assert(s.has_issue(s.events[k].issue_id));
        }
    }
    assert forall|k: int, l: int| 0 <= k < l < t.events.len() implies (#[trigger] t.events[k]).id < (
    #[trigger] t.events[l]).id by {
        if l < n {
            assert(s.events[k].id < s.events[l].id);
        } else {
            if k < n - 1 {
                assert(s.events[k].id < s.events[n - 1].id);
            }
            assert(t.events[k] == s.events[k]);
        }
    }
}

/// A mark on a stored issue keeps the store consistent.
pub proof fn lemma_marked(s: StorageView, id: Seq<char>)
    requires
        s.wf(),
        s.has_issue(id),
    ensures
        s.marked(id).wf(),
        s.marked(id).issues == s.issues,
        s.marked(id).events == s.events,
        s.marked(id).dirty.contains(id),
{
    let t = s.marked(id);
    if s.dirty.contains(id) {
    } else {
        let n = s.dirty.len() as int;
        assert(t.dirty[n] == id);
        assert forall|k: int| 0 <= k < t.dirty.len() implies t.has_issue(#[trigger] t.dirty[k]) by {
            if k < n {
                assert(s.has_issue(s.dirty[k]));
            }
        }
        assert forall|i: int, j: int| 0 <= i < t.dirty.len() && 0 <= j < t.dirty.len() && i != j implies t.dirty[i]
            != t.dirty[j] by {
            if i < n && j < n {
                assert(s.dirty[i] != s.dirty[j]);
            } else if i < n {
                assert(s.dirty[i] != id);
            } else {
                assert(s.dirty[j] != id);
            }
        }
    }
}

/// Storing a new issue keeps the store consistent.
pub proof fn lemma_created(s: StorageView, issue: IssueView, actor: Seq<char>, now: Timestamp)
    requires
        s.wf(),
        s.create_outcome(issue) is Ok,
    ensures
        s.created(issue, actor, now).wf(),
        s.created(issue, actor, now).has_issue(issue.id),
        forall|x: Seq<char>|
            #[trigger] s.created(issue, actor, now).has_issue(x) == (s.has_issue(x) || x == issue.id),
{
    let a = StorageView { issues: s.issues.push(issue.without_dependencies()), ..s };
    let n = s.issues.len() as int;
    assert(a.issues[n].id == issue.id);
    assert forall|x: Seq<char>| #[trigger] a.has_issue(x) == (s.has_issue(x) || x == issue.id) by {
        if s.has_issue(x) {
            let k = s.issue_index(x);
            assert(a.issues[k].id == x);
        }
        if a.has_issue(x) {
            let k = a.issue_index(x);
            if k < n {
                assert(s.issues[k].id == x);
            }
        }
    }
    assert forall|i: int, j: int| 0 <= i < j < a.issues.len() implies (#[trigger] a.issues[i]).id != (
    #[trigger] a.issues[j]).id by {
        if j < n {
            assert(s.issues[i].id != s.issues[j].id);
        } else {
            assert(s.issues[i].id != issue.id);
        }
    }
    assert forall|i: int| 0 <= i < a.issues.len() implies (#[trigger] a.issues[i]).is_valid()
        && a.issues[i].dependencies.len() == 0 by {
        if i < n {
            assert(s.issues[i].is_valid());
        }
    }
    assert forall|k: int| 0 <= k < a.dependencies.len() implies a.has_issue(
        (#[trigger] a.dependencies[k]).issue_id,
    ) && a.has_issue(a.dependencies[k].depends_on_id) by {
        assert(s.has_issue(s.dependencies[k].issue_id));
        assert(s.has_issue(s.dependencies[k].depends_on_id));
    }
    assert forall|k: int| 0 <= k < a.labels.len() implies a.has_issue(
        (#[trigger] a.labels[k]).issue_id,
    ) by {
        assert(s.has_issue(s.labels[k].issue_id));
    }
    assert forall|k: int| 0 <= k < a.events.len() implies a.has_issue(
        (#[trigger] a.events[k]).issue_id,
    ) by {
        assert(s.has_issue(s.events[k].issue_id));
    }
    assert forall|k: int| 0 <= k < a.dirty.len() implies a.has_issue(#[trigger] a.dirty[k]) by {
        assert(s.has_issue(s.dirty[k]));
    }
    assert(a.wf());
    lemma_logged(a, issue.id, EventType::Created, actor, None, None, now);
    let b = a.logged(issue.id, EventType::Created, actor, None, None, now);
    assert(forall|x: Seq<char>| a.has_issue(x) == b.has_issue(x));
    lemma_marked(b, issue.id);
    let c = b.marked(issue.id);
    assert(forall|x: Seq<char>| b.has_issue(x) == c.has_issue(x));
}

/// An update keeps the store consistent.
pub proof fn lemma_updated(
    s: StorageView,
    id: Seq<char>,
    updates: IssueUpdatesView,
    actor: Seq<char>,
    now: Timestamp,
)
    requires
        s.wf(),
        s.update_outcome(id, updates, now) is Ok,
    ensures
        s.updated(id, updates, actor, now).wf(),
        same_ids(s, s.updated(id, updates, actor, now)),
{
    let k = s.issue_index(id);
    let next = updates.apply(s.issues[k], now);
    assert(s.issues[k].dependencies.len() == 0);
    lemma_replace_issue(s, k, next);
    let a = StorageView { issues: s.issues.update(k, next), ..s };
    lemma_same_ids(s, a);
    let b = match updates.status {
        Some(st) => a.logged(id, EventType::StatusChanged, actor, Some(st.name()), None, now),
        None => a,
    };
    if updates.status is Some {
        lemma_logged(
            a,
            id,
            EventType::StatusChanged,
            actor,
            Some(updates.status->0.name()),
            None,
            now,
        );
    }
    assert(b.issues == a.issues);
    assert(b.has_issue(id));
    lemma_logged(b, id, EventType::Updated, actor, None, None, now);
    let c = b.logged(id, EventType::Updated, actor, None, None, now);
    assert(c.has_issue(id));
    lemma_marked(c, id);
}

/// Putting an issue in the place of a stored one keeps the store
/// consistent.
pub proof fn lemma_replaced(s: StorageView, issue: IssueView, actor: Seq<char>, now: Timestamp)
    requires
        s.wf(),
        s.replace_outcome(issue) is Ok,
    ensures
        s.replaced(issue, actor, now).wf(),
        same_ids(s, s.replaced(issue, actor, now)),
{
    let k = s.issue_index(issue.id);
    let next = IssueView { updated_at: now, ..issue.without_dependencies() };
    assert(issue.is_valid());
    lemma_replace_issue(s, k, next);
    let a = StorageView { issues: s.issues.update(k, next), ..s };
    lemma_same_ids(s, a);
    lemma_logged(a, issue.id, EventType::StatusChanged, actor, Some(issue.status.name()), None, now);
    let b = a.logged(issue.id, EventType::StatusChanged, actor, Some(issue.status.name()), None, now);
    assert(b.has_issue(issue.id));
    lemma_logged(b, issue.id, EventType::Updated, actor, None, None, now);
    let c = b.logged(issue.id, EventType::Updated, actor, None, None, now);
    assert(c.has_issue(issue.id));
    lemma_marked(c, issue.id);
}

/// Closing an issue keeps the store consistent.
pub proof fn lemma_closed(s: StorageView, id: Seq<char>, reason: Seq<char>, actor: Seq<char>, now: Timestamp)
    requires
        s.wf(),
        s.record_outcome(id) is Ok,
    ensures
        s.closed(id, reason, actor, now).wf(),
        same_ids(s, s.closed(id, reason, actor, now)),
{
    let k = s.issue_index(id);
    let next = IssueView {
        status: crate::types::Status::Closed,
        closed_at: crate::storage::model::close_time(s.issues[k].closed_at, now),
        updated_at: now,
        ..s.issues[k]
    };
    assert(s.issues[k].is_valid());
    lemma_replace_issue(s, k, next);
    let a = StorageView { issues: s.issues.update(k, next), ..s };
    lemma_same_ids(s, a);
    lemma_logged(a, id, EventType::Closed, actor, None, Some(reason), now);
    let b = a.logged(id, EventType::Closed, actor, None, Some(reason), now);
    assert(b.has_issue(id));
    lemma_marked(b, id);
}

/// The three shared steps, one after the other, keep the store consistent.
pub proof fn lemma_recorded(
    s: StorageView,
    id: Seq<char>,
    event_type: EventType,
    actor: Seq<char>,
    new_value: Option<Seq<char>>,
    comment: Option<Seq<char>>,
    now: Timestamp,
)
    requires
        s.wf(),
        s.record_outcome(id) is Ok,
    ensures
        s.touched(id, now).logged(id, event_type, actor, new_value, comment, now).marked(id).wf(),
        same_ids(s, s.touched(id, now).logged(id, event_type, actor, new_value, comment, now).marked(id)),
{
    lemma_touched(s, id, now);
    let a = s.touched(id, now);
    assert(a.has_issue(id));
    lemma_logged(a, id, event_type, actor, new_value, comment, now);
    let b = a.logged(id, event_type, actor, new_value, comment, now);
    assert(b.has_issue(id));
    lemma_marked(b, id);
}

/// A comment keeps the store consistent.
pub proof fn lemma_commented(s: StorageView, id: Seq<char>, actor: Seq<char>, comment: Seq<char>, now: Timestamp)
    requires
        s.wf(),
        s.record_outcome(id) is Ok,
    ensures
        s.commented(id, actor, comment, now).wf(),
{
    lemma_recorded(s, id, EventType::Commented, actor, None, Some(comment), now);
}

/// Attaching a label keeps the store consistent.
pub proof fn lemma_labelled(s: StorageView, id: Seq<char>, label: Seq<char>, actor: Seq<char>, now: Timestamp)
    requires
        s.wf(),
        s.record_outcome(id) is Ok,
    ensures
        s.labelled(id, label, actor, now).wf(),
        s.labelled(id, label, actor, now).has_label(id, label),
{
    let a = if s.has_label(id, label) {
        s
    } else {
        StorageView {
            labels: s.labels.push(crate::types::LabelView { issue_id: id, label: label }),
            ..s
        }
    };
    if !s.has_label(id, label) {
        let n = s.labels.len() as int;
        assert(a.labels[n].issue_id == id && a.labels[n].label == label);
        assert forall|k: int| 0 <= k < a.labels.len() implies a.has_issue(
            (#[trigger] a.labels[k]).issue_id,
        ) by {
            if k < n {
                assert(s.has_issue(s.labels[k].issue_id));
            }
        }
        assert forall|k: int, l: int| 0 <= k < l < a.labels.len() implies !((
        #[trigger] a.labels[k]).issue_id == (#[trigger] a.labels[l]).issue_id && a.labels[k].label
            == a.labels[l].label) by {
            if l < n {
                assert(!(s.labels[k].issue_id == s.labels[l].issue_id && s.labels[k].label
                    == s.labels[l].label));
            } else {
                assert(s.labels[k] == a.labels[k]);
            }
        }
    }
    assert(a.has_label(id, label));
    assert(a.wf());
    lemma_recorded(a, id, EventType::LabelAdded, actor, Some(label), None, now);
    let k = a.label_index(id, label);
    let t = s.labelled(id, label, actor, now);
    assert(t.labels == a.labels);
    assert(t.labels[k].issue_id == id && t.labels[k].label == label);
}

/// Taking a label off keeps the store consistent.
pub proof fn lemma_unlabelled(s: StorageView, id: Seq<char>, label: Seq<char>, actor: Seq<char>, now: Timestamp)
    requires
        s.wf(),
        s.record_outcome(id) is Ok,
    ensures
        s.unlabelled(id, label, actor, now).wf(),
        !s.unlabelled(id, label, actor, now).has_label(id, label),
{
    let a = if s.has_label(id, label) {
        StorageView { labels: s.labels.remove(s.label_index(id, label)), ..s }
    } else {
        s
    };
    if s.has_label(id, label) {
        let p = s.label_index(id, label);
        assert forall|k: int| 0 <= k < a.labels.len() implies a.has_issue(
            (#[trigger] a.labels[k]).issue_id,
        ) by {
            if k < p {
                assert(s.has_issue(s.labels[k].issue_id));
            } else {
                assert(s.has_issue(s.labels[k + 1].issue_id));
            }
        }
        assert forall|k: int, l: int| 0 <= k < l < a.labels.len() implies !((
        #[trigger] a.labels[k]).issue_id == (#[trigger] a.labels[l]).issue_id && a.labels[k].label
            == a.labels[l].label) by {
            let k2 = if k < p { k } else { k + 1 };
            let l2 = if l < p { l } else { l + 1 };
            assert(a.labels[k] == s.labels[k2] && a.labels[l] == s.labels[l2]);
            assert(!(s.labels[k2].issue_id == s.labels[l2].issue_id && s.labels[k2].label
                == s.labels[l2].label));
        }
        if a.has_label(id, label) {
            let k = a.label_index(id, label);
            let k2 = if k < p { k } else { k + 1 };
            assert(a.labels[k] == s.labels[k2]);
            if k2 < p {
                assert(!(s.labels[k2].issue_id == s.labels[p].issue_id && s.labels[k2].label
                    == s.labels[p].label));
            } else {
                assert(!(s.labels[p].issue_id == s.labels[k2].issue_id && s.labels[p].label
                    == s.labels[k2].label));
            }
        }
    }
    assert(!a.has_label(id, label));
    assert(a.wf());
    lemma_recorded(a, id, EventType::LabelRemoved, actor, Some(label), None, now);
    let t = s.unlabelled(id, label, actor, now);
    assert(t.labels == a.labels);
    if t.has_label(id, label) {
        let k = t.label_index(id, label);
        assert(a.labels[k].issue_id == id && a.labels[k].label == label);
    }
}

/// In a consistent store an edge is found at its index and nowhere else.
pub proof fn lemma_edge_at(s: StorageView, k: int)
    requires
        s.edges_sound(),
        0 <= k < s.dependencies.len(),
    ensures
        s.has_edge(s.dependencies[k].issue_id, s.dependencies[k].depends_on_id),
        s.edge_index(s.dependencies[k].issue_id, s.dependencies[k].depends_on_id) == k,
{
    let d = s.dependencies[k];
    assert(s.has_edge(d.issue_id, d.depends_on_id));
    let p = s.edge_index(d.issue_id, d.depends_on_id);
    assert(0 <= p < s.dependencies.len() && s.dependencies[p].issue_id == d.issue_id
        && s.dependencies[p].depends_on_id == d.depends_on_id);
    if p < k {
        assert(!(s.dependencies[p].issue_id == s.dependencies[k].issue_id
            && s.dependencies[p].depends_on_id == s.dependencies[k].depends_on_id));
    } else if k < p {
        assert(!(s.dependencies[k].issue_id == s.dependencies[p].issue_id
            && s.dependencies[k].depends_on_id == s.dependencies[p].depends_on_id));
    }
}

/// In a consistent store a label is found at its index and nowhere else.
pub proof fn lemma_label_at(s: StorageView, k: int)
    requires
        s.labels_sound(),
        0 <= k < s.labels.len(),
    ensures
        s.has_label(s.labels[k].issue_id, s.labels[k].label),
        s.label_index(s.labels[k].issue_id, s.labels[k].label) == k,
{
    let d = s.labels[k];
    assert(s.has_label(d.issue_id, d.label));
    let p = s.label_index(d.issue_id, d.label);
    assert(0 <= p < s.labels.len() && s.labels[p].issue_id == d.issue_id && s.labels[p].label
        == d.label);
    if p < k {
        assert(!(s.labels[p].issue_id == s.labels[k].issue_id && s.labels[p].label
            == s.labels[k].label));
    } else if k < p {
        assert(!(s.labels[k].issue_id == s.labels[p].issue_id && s.labels[k].label
            == s.labels[p].label));
    }
}

/// Storing an edge keeps the store consistent, and the edge is then there.
pub proof fn lemma_linked(s: StorageView, dep: DependencyView, actor: Seq<char>, now: Timestamp)
    requires
        s.wf(),
        s.link_outcome(dep.issue_id, dep.depends_on_id) is Ok,
    ensures
        s.linked(dep, actor, now).wf(),
        s.linked(dep, actor, now).has_edge(dep.issue_id, dep.depends_on_id),
        same_ids(s, s.linked(dep, actor, now)),
{
    let edge = DependencyView { created_by: actor, ..dep };
    let a = if s.has_edge(dep.issue_id, dep.depends_on_id) {
        StorageView {
            dependencies: s.dependencies.update(s.edge_index(dep.issue_id, dep.depends_on_id), edge),
            ..s
        }
    } else {
        StorageView { dependencies: s.dependencies.push(edge), ..s }
    };
    let n = s.dependencies.len() as int;
    if s.has_edge(dep.issue_id, dep.depends_on_id) {
        let p = s.edge_index(dep.issue_id, dep.depends_on_id);
        assert(a.dependencies[p] == edge);
        assert forall|k: int| 0 <= k < a.dependencies.len() implies a.has_issue(
            (#[trigger] a.dependencies[k]).issue_id,
        ) && a.has_issue(a.dependencies[k].depends_on_id) by {
            assert(s.has_issue(s.dependencies[k].issue_id));
            assert(s.has_issue(s.dependencies[k].depends_on_id));
        }
        assert forall|k: int, l: int| 0 <= k < l < a.dependencies.len() implies !((
        #[trigger] a.dependencies[k]).issue_id == (#[trigger] a.dependencies[l]).issue_id
            && a.dependencies[k].depends_on_id == a.dependencies[l].depends_on_id) by {
            assert(!(s.dependencies[k].issue_id == s.dependencies[l].issue_id
                && s.dependencies[k].depends_on_id == s.dependencies[l].depends_on_id));
        }
    } else {
        assert(a.dependencies[n] == edge);
        assert forall|k: int| 0 <= k < a.dependencies.len() implies a.has_issue(
            (#[trigger] a.dependencies[k]).issue_id,
        ) && a.has_issue(a.dependencies[k].depends_on_id) by {
            if k < n {
                assert(s.has_issue(s.dependencies[k].issue_id));
                assert(s.has_issue(s.dependencies[k].depends_on_id));
            }
        }
        assert forall|k: int, l: int| 0 <= k < l < a.dependencies.len() implies !((
        #[trigger] a.dependencies[k]).issue_id == (#[trigger] a.dependencies[l]).issue_id
            && a.dependencies[k].depends_on_id == a.dependencies[l].depends_on_id) by {
            if l < n {
                assert(!(s.dependencies[k].issue_id == s.dependencies[l].issue_id
                    && s.dependencies[k].depends_on_id == s.dependencies[l].depends_on_id));
            } else {
                assert(s.dependencies[k] == a.dependencies[k]);
            }
        }
    }
    assert(a.has_edge(dep.issue_id, dep.depends_on_id));
    assert(a.wf());
    lemma_recorded(a, dep.issue_id, EventType::DependencyAdded, actor, Some(dep.depends_on_id), None, now);
    let t = s.linked(dep, actor, now);
    assert(t.dependencies == a.dependencies);
    let q = a.edge_index(dep.issue_id, dep.depends_on_id);
    assert(t.dependencies[q].issue_id == dep.issue_id && t.dependencies[q].depends_on_id
        == dep.depends_on_id);
}

/// Removing an edge keeps the store consistent, and the edge is then gone.
pub proof fn lemma_unlinked(s: StorageView, from: Seq<char>, to: Seq<char>, actor: Seq<char>, now: Timestamp)
    requires
        s.wf(),
        s.record_outcome(from) is Ok,
    ensures
        s.unlinked(from, to, actor, now).wf(),
        !s.unlinked(from, to, actor, now).has_edge(from, to),
        same_ids(s, s.unlinked(from, to, actor, now)),
{
    let a = if s.has_edge(from, to) {
        StorageView { dependencies: s.dependencies.remove(s.edge_index(from, to)), ..s }
    } else {
        s
    };
    if s.has_edge(from, to) {
        let p = s.edge_index(from, to);
        assert forall|k: int| 0 <= k < a.dependencies.len() implies a.has_issue(
            (#[trigger] a.dependencies[k]).issue_id,
        ) && a.has_issue(a.dependencies[k].depends_on_id) by {
            let k2 = if k < p { k } else { k + 1 };
            assert(a.dependencies[k] == s.dependencies[k2]);
            assert(s.has_issue(s.dependencies[k2].issue_id));
            assert(s.has_issue(s.dependencies[k2].depends_on_id));
        }
        assert forall|k: int, l: int| 0 <= k < l < a.dependencies.len() implies !((
        #[trigger] a.dependencies[k]).issue_id == (#[trigger] a.dependencies[l]).issue_id
            && a.dependencies[k].depends_on_id == a.dependencies[l].depends_on_id) by {
            let k2 = if k < p { k } else { k + 1 };
            let l2 = if l < p { l } else { l + 1 };
            assert(a.dependencies[k] == s.dependencies[k2] && a.dependencies[l] == s.dependencies[l2]);
            assert(!(s.dependencies[k2].issue_id == s.dependencies[l2].issue_id
                && s.dependencies[k2].depends_on_id == s.dependencies[l2].depends_on_id));
        }
        if a.has_edge(from, to) {
            let k = a.edge_index(from, to);
            let k2 = if k < p { k } else { k + 1 };
            assert(a.dependencies[k] == s.dependencies[k2]);
            if k2 < p {
                assert(!(s.dependencies[k2].issue_id == s.dependencies[p].issue_id
                    && s.dependencies[k2].depends_on_id == s.dependencies[p].depends_on_id));
            } else {
                assert(!(s.dependencies[p].issue_id == s.dependencies[k2].issue_id
                    && s.dependencies[p].depends_on_id == s.dependencies[k2].depends_on_id));
            }
        }
    }
    assert(!a.has_edge(from, to));
    assert(a.wf());
    lemma_recorded(a, from, EventType::DependencyRemoved, actor, Some(to), None, now);
    let t = s.unlinked(from, to, actor, now);
    assert(t.dependencies == a.dependencies);
    if t.has_edge(from, to) {
        let k = t.edge_index(from, to);
        assert(a.dependencies[k].issue_id == from && a.dependencies[k].depends_on_id == to);
    }
}

/// A store that differs from a consistent one only in its maps and in
/// having fewer marks, and whose counters are not negative, is consistent.
pub proof fn lemma_records_kept(a: StorageView, b: StorageView)
    requires
        a.wf(),
        b.issues == a.issues,
        b.dependencies == a.dependencies,
        b.labels == a.labels,
        b.events == a.events,
        b.dirty.no_duplicates(),
        forall|k: int| 0 <= k < b.dirty.len() ==> a.dirty.contains(#[trigger] b.dirty[k]),
        b.counters_sound(),
    ensures
        b.wf(),
{
    assert(same_ids(a, b));
    lemma_same_ids(a, b);
    assert forall|k: int| 0 <= k < b.dependencies.len() implies b.has_issue(
        (#[trigger] b.dependencies[k]).issue_id,
    ) && b.has_issue(b.dependencies[k].depends_on_id) by {
        assert(a.has_issue(a.dependencies[k].issue_id));
        assert(a.has_issue(a.dependencies[k].depends_on_id));
    }
    assert forall|k: int| 0 <= k < b.labels.len() implies b.has_issue(
        (#[trigger] b.labels[k]).issue_id,
    ) by {
        assert(a.has_issue(a.labels[k].issue_id));
    }
    assert forall|k: int| 0 <= k < b.events.len() implies b.has_issue(
        (#[trigger] b.events[k]).issue_id,
    ) by {
        assert(a.has_issue(a.events[k].issue_id));
    }
    assert forall|k: int| 0 <= k < b.dirty.len() implies b.has_issue(#[trigger] b.dirty[k]) by {
        assert(a.dirty.contains(b.dirty[k]));
        let p = choose|p: int| 0 <= p < a.dirty.len() && a.dirty[p] == b.dirty[k];
        assert(a.has_issue(a.dirty[p]));
    }
    assert(b.issues_valid());
    assert(b.edges_sound());
    assert(b.labels_sound());
    assert(b.events_sound());
}

} // verus!
