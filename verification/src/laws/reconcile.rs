//! What taking a snapshot in and writing one out do to the store and to
//! the snapshot, said without the steps by which they are done.

use vstd::prelude::*;
use crate::error::TraceError;
use crate::storage::invariants::{lemma_created, lemma_linked, lemma_replaced, lemma_same_ids};
use crate::storage::model::StorageView;
use crate::sync::{last_import_hash_key, merged, Imported, Tally};
use crate::types::{DependencyView, IssueView, Timestamp};

verus! {

/// `later` has every edge pair that `earlier` has.
pub open spec fn keeps_edges(earlier: StorageView, later: StorageView) -> bool {
    forall|a: Seq<char>, b: Seq<char>| #[trigger] earlier.has_edge(a, b) ==> later.has_edge(a, b)
}

/// `later` stores every issue that `earlier` stores.
pub open spec fn keeps_issues(earlier: StorageView, later: StorageView) -> bool {
    forall|id: Seq<char>| #[trigger] earlier.has_issue(id) ==> later.has_issue(id)
}

/// Storing an edge takes no edge pair away.
pub proof fn lemma_linked_keeps_edges(s: StorageView, dep: DependencyView, actor: Seq<char>, now: Timestamp)
    requires
        s.wf(),
        s.link_outcome(dep.issue_id, dep.depends_on_id) is Ok,
    ensures
        keeps_edges(s, s.linked(dep, actor, now)),
        keeps_issues(s, s.linked(dep, actor, now)),
        s.linked(dep, actor, now).wf(),
{
    let t = s.linked(dep, actor, now);
    lemma_linked(s, dep, actor, now);
    lemma_same_ids(s, t);
    assert forall|a: Seq<char>, b: Seq<char>| #[trigger] s.has_edge(a, b) implies t.has_edge(a, b) by {
        let e = s.edge_index(a, b);
        if s.has_edge(dep.issue_id, dep.depends_on_id) {
            let p = s.edge_index(dep.issue_id, dep.depends_on_id);
            if e == p {
                assert(t.dependencies[p].issue_id == a && t.dependencies[p].depends_on_id == b);
            } else {
                assert(t.dependencies[e] == s.dependencies[e]);
            }
        } else {
            assert(t.dependencies[e] == s.dependencies[e]);
        }
    }
}

/// Taking the edges of a record in keeps the store consistent and takes no
/// edge pair and no issue away.
pub proof fn lemma_with_edges(
    s: StorageView,
    issue_id: Seq<char>,
    deps: Seq<DependencyView>,
    k: int,
    actor: Seq<char>,
    now: Timestamp,
)
    requires
        s.wf(),
        0 <= k,
    ensures
        s.with_edges(issue_id, deps, k, actor, now).0.wf(),
        keeps_edges(s, s.with_edges(issue_id, deps, k, actor, now).0),
        keeps_issues(s, s.with_edges(issue_id, deps, k, actor, now).0),
        s.with_edges(issue_id, deps, k, actor, now).1 is Ok ==> forall|j: int|
            k <= j < deps.len() ==> s.with_edges(issue_id, deps, k, actor, now).0.has_edge(
                issue_id,
                (#[trigger] deps[j]).depends_on_id,
            ) || s.with_edges(issue_id, deps, k, actor, now).0.has_edge(
                deps[j].issue_id,
                deps[j].depends_on_id,
            ),
    decreases deps.len() - k,
{
    if k >= deps.len() {
    } else if s.edge_known(issue_id, deps[k]) {
        lemma_with_edges(s, issue_id, deps, k + 1, actor, now);
        let out = s.with_edges(issue_id, deps, k + 1, actor, now).0;
        // The edge that is known is an edge of the store.
        let f = s.edges_from(issue_id);
        let q = choose|q: int|
            0 <= q < f.len() && (#[trigger] f[q]).depends_on_id == deps[k].depends_on_id && f[q].dep_type
                == deps[k].dep_type;
        crate::seqs::lemma_filter_members(s.dependencies, crate::storage::graph::leaves_from(issue_id));
        assert(f.contains(f[q]));
        assert(s.dependencies.contains(f[q]));
        let e = choose|e: int| 0 <= e < s.dependencies.len() && s.dependencies[e] == f[q];
        assert(s.dependencies[e].issue_id == issue_id && s.dependencies[e].depends_on_id
            == deps[k].depends_on_id);
        assert(s.has_edge(issue_id, deps[k].depends_on_id));
        assert(out.has_edge(issue_id, deps[k].depends_on_id));
    } else {
        match s.link_outcome(deps[k].issue_id, deps[k].depends_on_id) {
            Err(e) => {},
            Ok(_) => {
                let t = s.linked(deps[k], actor, now);
                lemma_linked_keeps_edges(s, deps[k], actor, now);
                lemma_linked(s, deps[k], actor, now);
                lemma_with_edges(t, issue_id, deps, k + 1, actor, now);
                let out = t.with_edges(issue_id, deps, k + 1, actor, now).0;
                assert(t.has_edge(deps[k].issue_id, deps[k].depends_on_id));
                assert(out.has_edge(deps[k].issue_id, deps[k].depends_on_id));
                assert forall|a: Seq<char>, b: Seq<char>| #[trigger] s.has_edge(a, b) implies out.has_edge(
                    a,
                    b,
                ) by {
                    assert(t.has_edge(a, b));
                }
                assert forall|id: Seq<char>| #[trigger] s.has_issue(id) implies out.has_issue(id) by {
                    assert(t.has_issue(id));
                }
            },
        }
    }
}

/// Taking one record in keeps the store consistent and takes no edge pair
/// and no issue away; a record that was not skipped is stored afterwards,
/// if all went well.
pub proof fn lemma_with_record(
    s: StorageView,
    issue: IssueView,
    skip_existing: bool,
    actor: Seq<char>,
    now: Timestamp,
)
    requires
        s.wf(),
    ensures
        s.with_record(issue, skip_existing, actor, now).0.wf(),
        keeps_edges(s, s.with_record(issue, skip_existing, actor, now).0),
        keeps_issues(s, s.with_record(issue, skip_existing, actor, now).0),
        s.with_record(issue, skip_existing, actor, now).1 is Ok ==> s.with_record(
            issue,
            skip_existing,
            actor,
            now,
        ).0.has_issue(issue.id),
        s.with_record(issue, skip_existing, actor, now).1 == Ok::<Imported, TraceError>(
            Imported::Created,
        ) ==> !s.has_issue(issue.id),
        s.with_record(issue, skip_existing, actor, now).1 == Ok::<Imported, TraceError>(
            Imported::Updated,
        ) ==> s.has_issue(issue.id) && !skip_existing,
        s.with_record(issue, skip_existing, actor, now).1 == Ok::<Imported, TraceError>(
            Imported::Skipped,
        ) ==> s.has_issue(issue.id) && skip_existing && s.with_record(
            issue,
            skip_existing,
            actor,
            now,
        ).0 == s,
{
    if s.has_issue(issue.id) {
        if !skip_existing {
            match s.replace_outcome(issue) {
                Err(e) => {},
                Ok(_) => {
                    let t = s.replaced(issue, actor, now);
                    lemma_replaced(s, issue, actor, now);
                    lemma_same_ids(s, t);
                    assert(t.dependencies == s.dependencies);
                    assert forall|a: Seq<char>, b: Seq<char>| #[trigger] s.has_edge(a, b) implies t.has_edge(
                        a,
                        b,
                    ) by {
                        let e = s.edge_index(a, b);
                        assert(t.dependencies[e].issue_id == a && t.dependencies[e].depends_on_id == b);
                    }
                    lemma_with_edges(t, issue.id, issue.dependencies, 0, actor, now);
                    let out = t.with_edges(issue.id, issue.dependencies, 0, actor, now).0;
                    assert forall|a: Seq<char>, b: Seq<char>| #[trigger] s.has_edge(
                        a,
                        b,
                    ) implies out.has_edge(a, b) by {
                        assert(t.has_edge(a, b));
                    }
                    assert forall|id: Seq<char>| #[trigger] s.has_issue(id) implies out.has_issue(id) by {
                        assert(t.has_issue(id));
                    }
                    assert(t.has_issue(issue.id));
                },
            }
        }
    } else {
        match s.create_outcome(issue) {
            Err(e) => {},
            Ok(_) => {
                let t = s.created(issue, actor, now);
                lemma_created(s, issue, actor, now);
                assert(t.dependencies == s.dependencies);
                assert forall|a: Seq<char>, b: Seq<char>| #[trigger] s.has_edge(a, b) implies t.has_edge(
                    a,
                    b,
                ) by {
                    let e = s.edge_index(a, b);
                    assert(t.dependencies[e].issue_id == a && t.dependencies[e].depends_on_id == b);
                }
                lemma_with_edges(t, issue.id, issue.dependencies, 0, actor, now);
                let out = t.with_edges(issue.id, issue.dependencies, 0, actor, now).0;
                assert forall|a: Seq<char>, b: Seq<char>| #[trigger] s.has_edge(a, b) implies out.has_edge(
                    a,
                    b,
                ) by {
                    assert(t.has_edge(a, b));
                }
                assert forall|id: Seq<char>| #[trigger] s.has_issue(id) implies out.has_issue(id) by {
                    assert(t.has_issue(id));
                }
                assert(t.has_issue(issue.id));
            },
        }
    }
}

/// An import keeps the store consistent and only adds: no issue and no edge
/// pair that was stored before is gone after it, whether it went well or
/// ended early. If it went well, every record is stored, and the counts add
/// up to the number of records.
pub proof fn lemma_import_only_adds(
    s: StorageView,
    issues: Seq<IssueView>,
    k: int,
    skip_existing: bool,
    actor: Seq<char>,
    now: Timestamp,
    tally: Tally,
)
    requires
        s.wf(),
        0 <= k <= issues.len(),
    ensures
        s.with_records(issues, k, skip_existing, actor, now, tally).0.wf(),
        keeps_edges(s, s.with_records(issues, k, skip_existing, actor, now, tally).0),
        keeps_issues(s, s.with_records(issues, k, skip_existing, actor, now, tally).0),
        s.with_records(issues, k, skip_existing, actor, now, tally).1 matches Ok(t) ==> {
            &&& forall|j: int|
                k <= j < issues.len() ==> s.with_records(
                    issues,
                    k,
                    skip_existing,
                    actor,
                    now,
                    tally,
                ).0.has_issue((#[trigger] issues[j]).id)
            &&& t.created + t.updated + t.skipped == tally.created + tally.updated + tally.skipped
                + issues.len() - k
            &&& t.created >= tally.created
            &&& t.updated >= tally.updated
            &&& t.skipped >= tally.skipped
        },
    decreases issues.len() - k,
{
    if k < issues.len() {
        let one = s.with_record(issues[k], skip_existing, actor, now);
        lemma_with_record(s, issues[k], skip_existing, actor, now);
        match one.1 {
            Err(e) => {},
            Ok(what) => {
                lemma_import_only_adds(one.0, issues, k + 1, skip_existing, actor, now, tally.plus(what));
                let out = one.0.with_records(issues, k + 1, skip_existing, actor, now, tally.plus(what));
                assert forall|a: Seq<char>, b: Seq<char>| #[trigger] s.has_edge(a, b) implies out.0.has_edge(
                    a,
                    b,
                ) by {
                    assert(one.0.has_edge(a, b));
                }
                assert forall|id: Seq<char>| #[trigger] s.has_issue(id) implies out.0.has_issue(id) by {
                    assert(one.0.has_issue(id));
                }
                assert(one.0.has_issue(issues[k].id));
                assert(out.0.has_issue(issues[k].id));
            },
        }
    }
}

/// What a list of records holds for an identifier: the last record with
/// that identifier, if there is one.
pub proof fn lemma_merged(existing: Seq<IssueView>, id: Seq<char>)
    ensures
        merged(existing).contains_key(id) <==> exists|i: int|
            0 <= i < existing.len() && (#[trigger] existing[i]).id == id,
        merged(existing).contains_key(id) ==> exists|i: int|
            0 <= i < existing.len() && (#[trigger] existing[i]).id == id && merged(existing)[id]
                == existing[i] && forall|j: int| i < j < existing.len() ==> existing[j].id != id,
    decreases existing.len(),
{
    if existing.len() > 0 {
        let rest = existing.drop_last();
        lemma_merged(rest, id);
        let last = existing.last();
        if last.id == id {
            assert(existing[existing.len() - 1].id == id);
        } else {
            if merged(rest).contains_key(id) {
                let i = choose|i: int|
                    0 <= i < rest.len() && (#[trigger] rest[i]).id == id && merged(rest)[id] == rest[i]
                        && forall|j: int| i < j < rest.len() ==> rest[j].id != id;
                assert(existing[i].id == id && merged(existing)[id] == existing[i]);
                assert forall|j: int| i < j < existing.len() implies existing[j].id != id by {
                    if j < rest.len() {
                        assert(rest[j].id != id);
                    }
                }
            }
            if exists|i: int| 0 <= i < existing.len() && (#[trigger] existing[i]).id == id {
                let i = choose|i: int| 0 <= i < existing.len() && (#[trigger] existing[i]).id == id;
                assert(rest[i].id == id);
            }
        }
    }
}

/// What a snapshot holds for an identifier after changed issues were
/// written over it. For an identifier among the changed ones: the stored
/// issue with the edges that leave it, or nothing if no such issue is stored.
/// For any other identifier: what the snapshot held before.
pub proof fn lemma_overlay(
    s: StorageView,
    base: Map<Seq<char>, IssueView>,
    ids: Seq<Seq<char>>,
    id: Seq<char>,
)
    ensures
        ids.contains(id) ==> s.overlay(base, ids).contains_key(id) == s.has_issue(id),
        ids.contains(id) && s.has_issue(id) ==> s.overlay(base, ids)[id] == s.export_entry(id),
        !ids.contains(id) ==> s.overlay(base, ids).contains_key(id) == base.contains_key(id),
        !ids.contains(id) && base.contains_key(id) ==> s.overlay(base, ids)[id] == base[id],
    decreases ids.len(),
{
    if ids.len() > 0 {
        let rest = ids.drop_last();
        lemma_overlay(s, base, rest, id);
        if ids.last() == id {
            assert(ids[ids.len() - 1] == id);
        } else {
            if ids.contains(id) {
                let i = choose|i: int| 0 <= i < ids.len() && ids[i] == id;
                assert(rest[i] == id);
            }
            if rest.contains(id) {
                let i = choose|i: int| 0 <= i < rest.len() && rest[i] == id;
                assert(ids[i] == id);
            }
        }
    }
}

/// After an export every changed issue that is stored stands in the
/// snapshot as it is stored, with its edges; every changed identifier that is
/// no longer stored is gone from the snapshot; everything else in the
/// snapshot is as it was.
pub proof fn lemma_export_image(s: StorageView, existing: Seq<IssueView>, id: Seq<char>)
    ensures
        s.dirty.contains(id) ==> s.export_image(existing).contains_key(id) == s.has_issue(id),
        s.dirty.contains(id) && s.has_issue(id) ==> s.export_image(existing)[id] == s.export_entry(id),
        !s.dirty.contains(id) ==> s.export_image(existing).contains_key(id) == merged(
            existing,
        ).contains_key(id),
        !s.dirty.contains(id) && merged(existing).contains_key(id) ==> s.export_image(existing)[id]
            == merged(existing)[id],
{
    lemma_overlay(s, merged(existing), s.dirty, id);
}

/// Once a snapshot has been taken in, the same snapshot is not taken in
/// again: it changes nothing and reports that it did nothing, whatever
/// records come with it.
pub proof fn lemma_reimport_changes_nothing(
    s: StorageView,
    hash: Seq<char>,
    issues: Seq<IssueView>,
    actor: Seq<char>,
    now: Timestamp,
    again: Seq<IssueView>,
    later: Timestamp,
)
    requires
        s.auto_imported(hash, issues, actor, now).1 is Ok,
    ensures
        s.auto_imported(hash, issues, actor, now).0.auto_imported(hash, again, actor, later) == (
            s.auto_imported(hash, issues, actor, now).0,
            Ok::<bool, TraceError>(false),
        ),
{
    let first = s.auto_imported(hash, issues, actor, now);
    if s.import_is_due(hash) {
        assert(first.0.metadata.contains_key(last_import_hash_key()));
        assert(first.0.metadata[last_import_hash_key()] == hash);
    }
    assert(!first.0.import_is_due(hash));
}

/// The issue `b` is the issue `a`, but for the time of its last change.
pub open spec fn same_but_for_last_change(a: IssueView, b: IssueView) -> bool {
    b == (IssueView { updated_at: b.updated_at, ..a })
}

/// `later` holds the issues of `earlier` at their places, each unchanged
/// but for the time of its last change, and the same labels.
pub open spec fn only_touched(earlier: StorageView, later: StorageView) -> bool {
    &&& later.issues.len() == earlier.issues.len()
    &&& forall|k: int|
        0 <= k < earlier.issues.len() ==> same_but_for_last_change(
            #[trigger] earlier.issues[k],
            later.issues[k],
        )
    &&& later.labels == earlier.labels
}

/// Storing an edge changes no issue but for the time of its last change,
/// and no label.
pub proof fn lemma_linked_only_touches(s: StorageView, dep: DependencyView, actor: Seq<char>, now: Timestamp)
    requires
        s.wf(),
        s.link_outcome(dep.issue_id, dep.depends_on_id) is Ok,
    ensures
        only_touched(s, s.linked(dep, actor, now)),
{
    let t = s.linked(dep, actor, now);
    let k0 = s.issue_index(dep.issue_id);
    assert forall|k: int| 0 <= k < s.issues.len() implies same_but_for_last_change(
        #[trigger] s.issues[k],
        t.issues[k],
    ) by {
        if k != k0 {
            assert(t.issues[k] == s.issues[k]);
        }
    }
}

/// Taking the edges of a record in changes no issue but for the time of its
/// last change, and no label.
pub proof fn lemma_with_edges_only_touches(
    s: StorageView,
    issue_id: Seq<char>,
    deps: Seq<DependencyView>,
    k: int,
    actor: Seq<char>,
    now: Timestamp,
)
    requires
        s.wf(),
        0 <= k,
    ensures
        only_touched(s, s.with_edges(issue_id, deps, k, actor, now).0),
    decreases deps.len() - k,
{
    if k >= deps.len() {
    } else if s.edge_known(issue_id, deps[k]) {
        lemma_with_edges_only_touches(s, issue_id, deps, k + 1, actor, now);
    } else {
        match s.link_outcome(deps[k].issue_id, deps[k].depends_on_id) {
            Err(e) => {},
            Ok(_) => {
                let t = s.linked(deps[k], actor, now);
                lemma_linked(s, deps[k], actor, now);
                lemma_linked_only_touches(s, deps[k], actor, now);
                lemma_with_edges_only_touches(t, issue_id, deps, k + 1, actor, now);
                let out = t.with_edges(issue_id, deps, k + 1, actor, now).0;
                assert forall|j: int| 0 <= j < s.issues.len() implies same_but_for_last_change(
                    #[trigger] s.issues[j],
                    out.issues[j],
                ) by {
                    assert(same_but_for_last_change(s.issues[j], t.issues[j]));
                    assert(same_but_for_last_change(t.issues[j], out.issues[j]));
                }
            },
        }
    }
}

/// A record that is taken in, whether as a new issue or in the place of a
/// stored one, is stored as it was written: every field but the time of the
/// last change is that of the record, and the store has an edge for each
/// edge of the record that leaves the issue. No label comes with it: the
/// labels of the store are what they were.
pub proof fn lemma_record_is_stored_as_written(
    s: StorageView,
    record: IssueView,
    actor: Seq<char>,
    now: Timestamp,
)
    requires
        s.wf(),
        s.with_record(record, false, actor, now).1 is Ok,
    ensures
        s.with_record(record, false, actor, now).0.has_issue(record.id),
        same_but_for_last_change(
            record.without_dependencies(),
            s.with_record(record, false, actor, now).0.issue(record.id),
        ),
        forall|j: int|
            0 <= j < record.dependencies.len() && (#[trigger] record.dependencies[j]).issue_id
                == record.id ==> s.with_record(record, false, actor, now).0.has_edge(
                record.id,
                record.dependencies[j].depends_on_id,
            ),
        s.with_record(record, false, actor, now).0.labels == s.labels,
{
    let t = if s.has_issue(record.id) {
        s.replaced(record, actor, now)
    } else {
        s.created(record, actor, now)
    };
    let n = if s.has_issue(record.id) {
        s.issue_index(record.id)
    } else {
        s.issues.len() as int
    };
    if s.has_issue(record.id) {
        lemma_replaced(s, record, actor, now);
        lemma_same_ids(s, t);
        assert(t.issues[n] == (IssueView { updated_at: now, ..record.without_dependencies() }));
    } else {
        lemma_created(s, record, actor, now);
        assert(t.issues[n] == record.without_dependencies());
    }
    assert(same_but_for_last_change(record.without_dependencies(), t.issues[n]));
    lemma_with_edges(t, record.id, record.dependencies, 0, actor, now);
    lemma_with_edges_only_touches(t, record.id, record.dependencies, 0, actor, now);
    let out = t.with_edges(record.id, record.dependencies, 0, actor, now).0;
    assert(same_but_for_last_change(t.issues[n], out.issues[n]));
    assert(out.issues[n].id == record.id);
    crate::storage::invariants::lemma_issue_at(out, n);
}

/// An import brings no label and takes none away.
pub proof fn lemma_import_keeps_labels(
    s: StorageView,
    issues: Seq<IssueView>,
    k: int,
    skip_existing: bool,
    actor: Seq<char>,
    now: Timestamp,
    tally: Tally,
)
    requires
        s.wf(),
        0 <= k <= issues.len(),
    ensures
        s.with_records(issues, k, skip_existing, actor, now, tally).0.labels == s.labels,
    decreases issues.len() - k,
{
    if k < issues.len() {
        let one = s.with_record(issues[k], skip_existing, actor, now);
        lemma_with_record(s, issues[k], skip_existing, actor, now);
        assert(one.0.labels == s.labels) by {
            if s.has_issue(issues[k].id) {
                if !skip_existing {
                    match s.replace_outcome(issues[k]) {
                        Err(e) => {},
                        Ok(_) => {
                            let t = s.replaced(issues[k], actor, now);
                            lemma_replaced(s, issues[k], actor, now);
                            lemma_with_edges_only_touches(
                                t,
                                issues[k].id,
                                issues[k].dependencies,
                                0,
                                actor,
                                now,
                            );
                        },
                    }
                }
            } else {
                match s.create_outcome(issues[k]) {
                    Err(e) => {},
                    Ok(_) => {
                        let t = s.created(issues[k], actor, now);
                        lemma_created(s, issues[k], actor, now);
                        lemma_with_edges_only_touches(
                            t,
                            issues[k].id,
                            issues[k].dependencies,
                            0,
                            actor,
                            now,
                        );
                    },
                }
            }
        }
        match one.1 {
            Err(e) => {},
            Ok(what) => {
                lemma_import_keeps_labels(one.0, issues, k + 1, skip_existing, actor, now, tally.plus(what));
            },
        }
    }
}

/// An issue that is written to a snapshot and taken in by another store is
/// there what it was here: every field but the time of the last change is
/// the same, and every edge that left it here leaves it there. Its labels do
/// not travel.
pub proof fn lemma_exported_issue_comes_back(
    here: StorageView,
    id: Seq<char>,
    there: StorageView,
    actor: Seq<char>,
    now: Timestamp,
)
    requires
        here.wf(),
        here.has_issue(id),
        there.wf(),
        there.with_record(here.export_entry(id), false, actor, now).1 is Ok,
    ensures
        there.with_record(here.export_entry(id), false, actor, now).0.has_issue(id),
        same_but_for_last_change(
            here.issue(id),
            there.with_record(here.export_entry(id), false, actor, now).0.issue(id),
        ),
        forall|to: Seq<char>| #[trigger]
            here.has_edge(id, to) ==> there.with_record(
                here.export_entry(id),
                false,
                actor,
                now,
            ).0.has_edge(id, to),
        there.with_record(here.export_entry(id), false, actor, now).0.labels == there.labels,
{
    let record = here.export_entry(id);
    let k = here.issue_index(id);
    assert(here.issues[k].dependencies.len() == 0);
    assert(record.id == id);
    assert(record.without_dependencies() =~= here.issue(id)) by {
        assert(here.issue(id).dependencies =~= Seq::empty());
    }
    lemma_record_is_stored_as_written(there, record, actor, now);
    let out = there.with_record(record, false, actor, now).0;
    crate::seqs::lemma_filter_members(here.dependencies, crate::storage::graph::leaves_from(id));
    assert forall|to: Seq<char>| #[trigger] here.has_edge(id, to) implies out.has_edge(id, to) by {
        let e = here.edge_index(id, to);
        let d = here.dependencies[e];
        assert(crate::storage::graph::leaves_from(id)(d));
        assert(here.dependencies.contains(d));
        assert(here.edges_from(id).contains(d));
        let j = choose|j: int| 0 <= j < record.dependencies.len() && record.dependencies[j] == d;
        assert(record.dependencies[j].issue_id == record.id);
    }
}

} // verus!
