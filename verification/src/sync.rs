//! Keeping the store and its snapshot in step: taking a snapshot in when its
//! content has changed, and writing the changed issues out.
//!
//! Reading and writing the file, and turning a line into an issue and back,
//! is the caller's part; this module decides what is done with the records.

use vstd::prelude::*;
use vstd::string::*;
use crate::clock;
use crate::error::TraceError;
use crate::hash::{compute_hash, hex_text, sha256};
use crate::snapshot::{as_map, ascending, Snapshot};
use crate::storage::Storage;
use crate::storage::model::StorageView;
use crate::text::{str_eq, texts};
use crate::types::{
    dependency_views, issue_views, Dependency, DependencyView, Issue, IssueView, Status, Timestamp,
};

verus! {

/// The bookkeeping key under which the hash of the snapshot last taken in is
/// kept.
pub const LAST_IMPORT_HASH: &'static str = "last_import_hash";

/// The characters of [`LAST_IMPORT_HASH`].
pub open spec fn last_import_hash_key() -> Seq<char> {
    "last_import_hash"@
}

/// What taking in one record did.
#[derive(Clone, Copy, Debug, PartialEq, Eq, Structural)]
pub enum Imported {
    Created,
    Updated,
    Skipped,
}

/// How many records an import created, updated and skipped.
#[derive(Clone, Copy, Debug, PartialEq, Eq, Structural)]
pub struct ImportSummary {
    pub created: usize,
    pub updated: usize,
    pub skipped: usize,
}

/// The counts of an import, as mathematical integers.
pub ghost struct Tally {
    pub created: int,
    pub updated: int,
    pub skipped: int,
}

impl Tally {
    /// The counts after one more record.
    pub open spec fn plus(self, what: Imported) -> Tally {
        match what {
            Imported::Created => Tally { created: self.created + 1, ..self },
            Imported::Updated => Tally { updated: self.updated + 1, ..self },
            Imported::Skipped => Tally { skipped: self.skipped + 1, ..self },
        }
    }
}

impl View for ImportSummary {
    type V = Tally;

    open spec fn view(&self) -> Tally {
        Tally {
            created: self.created as int,
            updated: self.updated as int,
            skipped: self.skipped as int,
        }
    }
}

impl StorageView {
    /// The issue `issue_id` already has an edge to the same issue and of the
    /// same type as `dep`.
    pub open spec fn edge_known(self, issue_id: Seq<char>, dep: DependencyView) -> bool {
        exists|k: int|
            0 <= k < self.edges_from(issue_id).len() && (#[trigger] self.edges_from(
                issue_id,
            )[k]).depends_on_id == dep.depends_on_id && self.edges_from(issue_id)[k].dep_type
                == dep.dep_type
    }

    /// The store after the edges `deps[k..]` of a record were taken in, and
    /// whether that went well. An edge that the issue already has is passed
    /// over; every other one is stored; edges are never taken away. The
    /// first edge that cannot be stored ends it.
    pub open spec fn with_edges(
        self,
        issue_id: Seq<char>,
        deps: Seq<DependencyView>,
        k: int,
        actor: Seq<char>,
        now: Timestamp,
    ) -> (StorageView, Result<(), TraceError>)
        decreases deps.len() - k,
    {
        if k < 0 || k >= deps.len() {
            (self, Ok(()))
        } else if self.edge_known(issue_id, deps[k]) {
            self.with_edges(issue_id, deps, k + 1, actor, now)
        } else {
            match self.link_outcome(deps[k].issue_id, deps[k].depends_on_id) {
                Err(e) => (self, Err(e)),
                Ok(_) => self.linked(deps[k], actor, now).with_edges(issue_id, deps, k + 1, actor, now),
            }
        }
    }

    /// The store after one record was taken in, and what that did. A record
    /// whose identifier is stored takes the place of the stored issue, every
    /// field superseded, unless such records are to be skipped; any other
    /// record is stored as a new issue. Then its edges are taken in.
    pub open spec fn with_record(
        self,
        issue: IssueView,
        skip_existing: bool,
        actor: Seq<char>,
        now: Timestamp,
    ) -> (StorageView, Result<Imported, TraceError>) {
        if self.has_issue(issue.id) {
            if skip_existing {
                (self, Ok(Imported::Skipped))
            } else {
                match self.replace_outcome(issue) {
                    Err(e) => (self, Err(e)),
                    Ok(_) => {
                        let done = self.replaced(issue, actor, now).with_edges(
                            issue.id,
                            issue.dependencies,
                            0,
                            actor,
                            now,
                        );
                        match done.1 {
                            Err(e) => (done.0, Err(e)),
                            Ok(_) => (done.0, Ok(Imported::Updated)),
                        }
                    },
                }
            }
        } else {
            match self.create_outcome(issue) {
                Err(e) => (self, Err(e)),
                Ok(_) => {
                    let done = self.created(issue, actor, now).with_edges(
                        issue.id,
                        issue.dependencies,
                        0,
                        actor,
                        now,
                    );
                    match done.1 {
                        Err(e) => (done.0, Err(e)),
                        Ok(_) => (done.0, Ok(Imported::Created)),
                    }
                },
            }
        }
    }

    /// The store after the records `issues[k..]` were taken in, one after the
    /// other, and the counts, which start at `tally`. The first record that
    /// fails ends it; what was taken in before stays.
    pub open spec fn with_records(
        self,
        issues: Seq<IssueView>,
        k: int,
        skip_existing: bool,
        actor: Seq<char>,
        now: Timestamp,
        tally: Tally,
    ) -> (StorageView, Result<Tally, TraceError>)
        decreases issues.len() - k,
    {
        if k < 0 || k >= issues.len() {
            (self, Ok(tally))
        } else {
            let one = self.with_record(issues[k], skip_existing, actor, now);
            match one.1 {
                Err(e) => (one.0, Err(e)),
                Ok(what) => one.0.with_records(
                    issues,
                    k + 1,
                    skip_existing,
                    actor,
                    now,
                    tally.plus(what),
                ),
            }
        }
    }

    /// A snapshot with this hash has to be taken in: it is not the one taken
    /// in last.
    pub open spec fn import_is_due(self, hash: Seq<char>) -> bool {
        !(self.metadata.contains_key(last_import_hash_key()) && self.metadata[last_import_hash_key()]
            == hash)
    }

    /// The store after a snapshot with this hash and these records arrived,
    /// and whether it was taken in. A snapshot that is not due changes
    /// nothing. A snapshot that is due is taken in record by record, and if
    /// all went well its hash is kept as the one taken in last.
    pub open spec fn auto_imported(
        self,
        hash: Seq<char>,
        issues: Seq<IssueView>,
        actor: Seq<char>,
        now: Timestamp,
    ) -> (StorageView, Result<bool, TraceError>) {
        if !self.import_is_due(hash) {
            (self, Ok(false))
        } else {
            let done = self.with_records(
                issues,
                0,
                false,
                actor,
                now,
                Tally { created: 0, updated: 0, skipped: 0 },
            );
            match done.1 {
                Err(e) => (done.0, Err(e)),
                Ok(_) => (
                    StorageView {
                        metadata: done.0.metadata.insert(last_import_hash_key(), hash),
                        ..done.0
                    },
                    Ok(true),
                ),
            }
        }
    }
}

/// Whether the issue `issue_id` already has an edge to the same issue and of
/// the same type as `dep`.
fn edge_is_known<S: Storage>(storage: &S, issue_id: &str, dep: &Dependency) -> (r: bool)
    ensures
        r == storage@.edge_known(issue_id@, dep@),
{
    let existing = storage.get_dependency_records(issue_id);
    let ghost edges = storage@.edges_from(issue_id@);
    let mut i: usize = 0;
    while i < existing.len()
        invariant
            i <= existing.len(),
            dependency_views(existing@) == edges,
            edges == storage@.edges_from(issue_id@),
            forall|k: int|
                0 <= k < i ==> !((#[trigger] edges[k]).depends_on_id == dep@.depends_on_id
                    && edges[k].dep_type == dep@.dep_type),
        decreases existing.len() - i,
    {
        assert(edges[i as int] == existing[i as int]@);
        if str_eq(existing[i].depends_on_id.as_str(), dep.depends_on_id.as_str())
            && existing[i].dep_type == dep.dep_type {
            return true;
        }
        i += 1;
    }
    false
}

/// Takes the edges of a record in.
fn import_edges<S: Storage>(
    storage: &mut S,
    issue_id: &str,
    deps: &Vec<Dependency>,
    actor: &str,
    now: Timestamp,
) -> (r: Result<(), TraceError>)
    requires
        old(storage).wf(),
    ensures
        final(storage).wf(),
        (final(storage)@, r) == old(storage)@.with_edges(
            issue_id@,
            dependency_views(deps@),
            0,
            actor@,
            now,
        ),
{
    let mut k: usize = 0;
    let ghost all = dependency_views(deps@);
    while k < deps.len()
        invariant
            k <= deps.len(),
            storage.wf(),
            all == dependency_views(deps@),
            storage@.with_edges(issue_id@, all, k as int, actor@, now) == old(storage)@.with_edges(
                issue_id@,
                all,
                0,
                actor@,
                now,
            ),
        decreases deps.len() - k,
    {
        assert(all[k as int] == deps[k as int]@);
        if !edge_is_known(storage, issue_id, &deps[k]) {
            if let Err(e) = storage.add_dependency_at(&deps[k], actor, now) {
                return Err(e);
            }
        }
        k += 1;
    }
    Ok(())
}

/// Takes one record in.
fn import_record<S: Storage>(
    storage: &mut S,
    issue: &Issue,
    skip_existing: bool,
    actor: &str,
    now: Timestamp,
) -> (r: Result<Imported, TraceError>)
    requires
        old(storage).wf(),
    ensures
        final(storage).wf(),
        (final(storage)@, r) == old(storage)@.with_record(issue@, skip_existing, actor@, now),
{
    if storage.contains_issue(issue.id.as_str()) {
        if skip_existing {
            return Ok(Imported::Skipped);
        }
        if let Err(e) = storage.replace_issue_at(issue, actor, now) {
            return Err(e);
        }
        match import_edges(storage, issue.id.as_str(), &issue.dependencies, actor, now) {
            Err(e) => Err(e),
            Ok(_) => Ok(Imported::Updated),
        }
    } else {
        if let Err(e) = storage.create_issue_at(issue, actor, now) {
            return Err(e);
        }
        match import_edges(storage, issue.id.as_str(), &issue.dependencies, actor, now) {
            Err(e) => Err(e),
            Ok(_) => Ok(Imported::Created),
        }
    }
}

/// Takes the records `issues` in, one after the other, at the time `now`.
/// Records whose identifier is stored are skipped if `skip_existing` says so.
pub fn import_issues_at<S: Storage>(
    storage: &mut S,
    issues: &Vec<Issue>,
    skip_existing: bool,
    actor: &str,
    now: Timestamp,
) -> (r: Result<ImportSummary, TraceError>)
    requires
        old(storage).wf(),
    ensures
        final(storage).wf(),
        final(storage)@ == old(storage)@.with_records(
            issue_views(issues@),
            0,
            skip_existing,
            actor@,
            now,
            Tally { created: 0, updated: 0, skipped: 0 },
        ).0,
        match r {
            Ok(summary) => old(storage)@.with_records(
                issue_views(issues@),
                0,
                skip_existing,
                actor@,
                now,
                Tally { created: 0, updated: 0, skipped: 0 },
            ).1 == Ok::<Tally, TraceError>(summary@),
            Err(e) => old(storage)@.with_records(
                issue_views(issues@),
                0,
                skip_existing,
                actor@,
                now,
                Tally { created: 0, updated: 0, skipped: 0 },
            ).1 == Err::<Tally, TraceError>(e),
        },
{
    let mut summary = ImportSummary { created: 0, updated: 0, skipped: 0 };
    let mut k: usize = 0;
    let ghost all = issue_views(issues@);
    let ghost zero = Tally { created: 0, updated: 0, skipped: 0 };
    while k < issues.len()
        invariant
            k <= issues.len(),
            storage.wf(),
            all == issue_views(issues@),
            zero == (Tally { created: 0, updated: 0, skipped: 0 }),
            summary.created + summary.updated + summary.skipped == k,
            storage@.with_records(all, k as int, skip_existing, actor@, now, summary@) == old(
                storage,
            )@.with_records(all, 0, skip_existing, actor@, now, zero),
        decreases issues.len() - k,
    {
        assert(all[k as int] == issues[k as int]@);
        match import_record(storage, &issues[k], skip_existing, actor, now) {
            Err(e) => {
                return Err(e);
            },
            Ok(Imported::Created) => {
                summary.created = summary.created + 1;
            },
            Ok(Imported::Updated) => {
                summary.updated = summary.updated + 1;
            },
            Ok(Imported::Skipped) => {
                summary.skipped = summary.skipped + 1;
            },
        }
        k += 1;
    }
    Ok(summary)
}

/// A request to take records in.
#[derive(Clone, Copy, Debug, PartialEq, Eq, Structural)]
pub struct ImportArgs {
    /// Leave issues that are stored as they are.
    pub skip_existing: bool,
    /// Only count the records.
    pub dry_run: bool,
}

/// What a request to take records in led to.
#[derive(Clone, Copy, Debug, PartialEq, Eq, Structural)]
pub enum ImportReport {
    /// Nothing was taken in; so many records would have been.
    DryRun { records: usize },
    /// The records were taken in.
    Done(ImportSummary),
}

/// Carries out a request to take the records `issues` in, at the time `now`.
/// A dry run changes nothing and reports the number of records.
pub fn execute_import_at<S: Storage>(
    args: ImportArgs,
    issues: &Vec<Issue>,
    storage: &mut S,
    actor: &str,
    now: Timestamp,
) -> (r: Result<ImportReport, TraceError>)
    requires
        old(storage).wf(),
    ensures
        final(storage).wf(),
        args.dry_run ==> final(storage)@ == old(storage)@ && r == Ok::<ImportReport, TraceError>(
            ImportReport::DryRun { records: issues.len() },
        ),
        !args.dry_run ==> final(storage)@ == old(storage)@.with_records(
            issue_views(issues@),
            0,
            args.skip_existing,
            actor@,
            now,
            Tally { created: 0, updated: 0, skipped: 0 },
        ).0 && match r {
            Ok(ImportReport::Done(summary)) => old(storage)@.with_records(
                issue_views(issues@),
                0,
                args.skip_existing,
                actor@,
                now,
                Tally { created: 0, updated: 0, skipped: 0 },
            ).1 == Ok::<Tally, TraceError>(summary@),
            Ok(ImportReport::DryRun { .. }) => false,
            Err(e) => old(storage)@.with_records(
                issue_views(issues@),
                0,
                args.skip_existing,
                actor@,
                now,
                Tally { created: 0, updated: 0, skipped: 0 },
            ).1 == Err::<Tally, TraceError>(e),
        },
{
    if args.dry_run {
        return Ok(ImportReport::DryRun { records: issues.len() });
    }
    match import_issues_at(storage, issues, args.skip_existing, actor, now) {
        Ok(summary) => Ok(ImportReport::Done(summary)),
        Err(e) => Err(e),
    }
}

/// Carries out a request to take the records `issues` in, at the current
/// time.
pub fn execute_import<S: Storage>(args: ImportArgs, issues: &Vec<Issue>, storage: &mut S, actor: &str) -> (r:
    Result<ImportReport, TraceError>)
    requires
        old(storage).wf(),
    ensures
        final(storage).wf(),
        args.dry_run ==> final(storage)@ == old(storage)@ && r == Ok::<ImportReport, TraceError>(
            ImportReport::DryRun { records: issues.len() },
        ),
        !args.dry_run ==> exists|now: Timestamp|
            final(storage)@ == (#[trigger] old(storage)@.with_records(
                issue_views(issues@),
                0,
                args.skip_existing,
                actor@,
                now,
                Tally { created: 0, updated: 0, skipped: 0 },
            )).0 && match r {
                Ok(ImportReport::Done(summary)) => old(storage)@.with_records(
                    issue_views(issues@),
                    0,
                    args.skip_existing,
                    actor@,
                    now,
                    Tally { created: 0, updated: 0, skipped: 0 },
                ).1 == Ok::<Tally, TraceError>(summary@),
                Ok(ImportReport::DryRun { .. }) => false,
                Err(e) => old(storage)@.with_records(
                    issue_views(issues@),
                    0,
                    args.skip_existing,
                    actor@,
                    now,
                    Tally { created: 0, updated: 0, skipped: 0 },
                ).1 == Err::<Tally, TraceError>(e),
            },
{
    let now = clock::now();
    execute_import_at(args, issues, storage, actor, now)
}

/// Whether a snapshot with the hash `hash` has to be taken in: it is not
/// the hash kept from the last time.
pub fn import_due_for<S: Storage>(storage: &S, hash: &str) -> (r: bool)
    requires
        storage.wf(),
    ensures
        r == storage@.import_is_due(hash@),
{
    match storage.get_metadata(LAST_IMPORT_HASH) {
        Some(last) => !str_eq(last.as_str(), hash),
        None => true,
    }
}

/// Whether a snapshot with these bytes has to be taken in: its hash is not
/// the one kept from the last time.
pub fn import_due<S: Storage>(storage: &S, data: &[u8]) -> (r: bool)
    requires
        storage.wf(),
    ensures
        r == storage@.import_is_due(hex_text(sha256(data@))),
{
    let hash = compute_hash(data);
    import_due_for(storage, hash.as_str())
}

/// Takes a snapshot with the hash `hash` and the records `issues` in, at
/// the time `now`, if that hash is not the one kept from the last time; if
/// all goes well the hash is kept.
pub fn auto_import_for_at<S: Storage>(
    storage: &mut S,
    hash: &str,
    issues: &Vec<Issue>,
    actor: &str,
    now: Timestamp,
) -> (r: Result<bool, TraceError>)
    requires
        old(storage).wf(),
    ensures
        final(storage).wf(),
        (final(storage)@, r) == old(storage)@.auto_imported(hash@, issue_views(issues@), actor@, now),
{
    if !import_due_for(storage, hash) {
        return Ok(false);
    }
    match import_issues_at(storage, issues, false, actor, now) {
        Err(e) => Err(e),
        Ok(_) => {
            storage.set_metadata(LAST_IMPORT_HASH, hash);
            Ok(true)
        },
    }
}

/// Takes a snapshot in, at the time `now`, if its content has changed since
/// the last time. `data` is the snapshot as it stands in its file and
/// `issues` are the records read from it.
pub fn auto_import_at<S: Storage>(
    storage: &mut S,
    data: &[u8],
    issues: &Vec<Issue>,
    actor: &str,
    now: Timestamp,
) -> (r: Result<bool, TraceError>)
    requires
        old(storage).wf(),
    ensures
        final(storage).wf(),
        (final(storage)@, r) == old(storage)@.auto_imported(
            hex_text(sha256(data@)),
            issue_views(issues@),
            actor@,
            now,
        ),
{
    let hash = compute_hash(data);
    auto_import_for_at(storage, hash.as_str(), issues, actor, now)
}

/// Takes a snapshot in, at the current time, if its content has changed since
/// the last time.
pub fn auto_import<S: Storage>(storage: &mut S, data: &[u8], issues: &Vec<Issue>, actor: &str) -> (r: Result<
    bool,
    TraceError,
>)
    requires
        old(storage).wf(),
    ensures
        final(storage).wf(),
        !old(storage)@.import_is_due(hex_text(sha256(data@))) ==> r == Ok::<bool, TraceError>(false)
            && final(storage)@ == old(storage)@,
        exists|now: Timestamp|
            (final(storage)@, r) == #[trigger] old(storage)@.auto_imported(
                hex_text(sha256(data@)),
                issue_views(issues@),
                actor@,
                now,
            ),
{
    let now = clock::now();
    auto_import_at(storage, data, issues, actor, now)
}

/// What a list of records holds for each identifier, a later record taking
/// the place of an earlier one with the same identifier.
pub open spec fn merged(existing: Seq<IssueView>) -> Map<Seq<char>, IssueView>
    decreases existing.len(),
{
    if existing.len() == 0 {
        Map::empty()
    } else {
        merged(existing.drop_last()).insert(existing.last().id, existing.last())
    }
}

/// The issue has the status asked for, if one is asked for.
pub open spec fn status_pick(status: Option<Status>) -> spec_fn(IssueView) -> bool {
    |i: IssueView| status matches Some(s) ==> i.status == s
}

impl StorageView {
    /// The issue `id` as it goes into a snapshot: with the edges that leave
    /// it.
    pub open spec fn export_entry(self, id: Seq<char>) -> IssueView {
        self.issue(id).with_dependencies(self.edges_from(id))
    }

    /// `base` brought up to date for the identifiers `ids`, one after the
    /// other: a stored issue goes in as it now is, in place of what was
    /// there; an identifier that is no longer stored goes out.
    pub open spec fn overlay(self, base: Map<Seq<char>, IssueView>, ids: Seq<Seq<char>>) -> Map<
        Seq<char>,
        IssueView,
    >
        decreases ids.len(),
    {
        if ids.len() == 0 {
            base
        } else if self.has_issue(ids.last()) {
            self.overlay(base, ids.drop_last()).insert(ids.last(), self.export_entry(ids.last()))
        } else {
            self.overlay(base, ids.drop_last()).remove(ids.last())
        }
    }

    /// What the snapshot holds after the changed issues were written over
    /// what it held.
    pub open spec fn export_image(self, existing: Seq<IssueView>) -> Map<Seq<char>, IssueView> {
        self.overlay(merged(existing), self.dirty)
    }

    /// What a full export holds: every stored issue with the status asked
    /// for, each with the edges that leave it.
    pub open spec fn export_of(self, status: Option<Status>) -> Map<Seq<char>, IssueView> {
        Map::new(
            |id: Seq<char>| self.has_issue(id) && status_pick(status)(self.issue(id)),
            |id: Seq<char>| self.export_entry(id),
        )
    }
}

/// The issue `id` with the edges that leave it, if it is stored.
fn export_entry_of<S: Storage>(storage: &S, id: &str) -> (r: Option<Issue>)
    requires
        storage.wf(),
    ensures
        match r {
            Some(issue) => storage@.has_issue(id@) && issue@ == storage@.export_entry(id@) && issue@.id
                == id@,
            None => !storage@.has_issue(id@),
        },
{
    match storage.get_issue(id) {
        Some(issue) => {
            let mut issue = issue;
            issue.dependencies = storage.get_dependency_records(id);
            proof {
                crate::storage::invariants::lemma_issue_found(storage@, id@);
            }
            Some(issue)
        },
        None => None,
    }
}

/// The records of the snapshot as it has to be written, in ascending order
/// of their identifiers, or nothing if no issue has changed. `existing` are
/// the records that the snapshot holds now.
pub fn auto_export<S: Storage>(storage: &S, existing: &Vec<Issue>) -> (r: Option<Vec<Issue>>)
    requires
        storage.wf(),
    ensures
        match r {
            None => storage@.dirty.len() == 0,
            Some(v) => storage@.dirty.len() > 0 && ascending(issue_views(v@)) && as_map(
                issue_views(v@),
            ) == storage@.export_image(issue_views(existing@)),
        },
{
    let dirty = storage.get_dirty_issues();
    assert(texts(dirty@).len() == dirty.len());
    if dirty.len() == 0 {
        return None;
    }
    let mut snapshot = Snapshot::new();
    let ghost old_records = issue_views(existing@);
    let mut i: usize = 0;
    assert(old_records.take(0) =~= Seq::<IssueView>::empty());
    while i < existing.len()
        invariant
            i <= existing.len(),
            snapshot.wf(),
            old_records == issue_views(existing@),
            snapshot@ == merged(old_records.take(i as int)),
        decreases existing.len() - i,
    {
        proof {
            assert(old_records.take(i + 1).drop_last() =~= old_records.take(i as int));
            assert(old_records.take(i + 1).last() == existing[i as int]@);
        }
        snapshot.upsert(existing[i].clone());
        i += 1;
    }
    assert(old_records.take(existing.len() as int) =~= old_records);
    let ghost marks = texts(dirty@);
    let ghost base = merged(old_records);
    let mut k: usize = 0;
    assert(marks.take(0) =~= Seq::<Seq<char>>::empty());
    while k < dirty.len()
        invariant
            k <= dirty.len(),
            storage.wf(),
            snapshot.wf(),
            marks == texts(dirty@),
            snapshot@ == storage@.overlay(base, marks.take(k as int)),
        decreases dirty.len() - k,
    {
        proof {
            assert(marks.take(k + 1).drop_last() =~= marks.take(k as int));
            assert(marks.take(k + 1).last() == dirty[k as int]@);
        }
        match export_entry_of(storage, dirty[k].as_str()) {
            Some(issue) => {
                snapshot.upsert(issue);
            },
            None => {
                snapshot.remove(dirty[k].as_str());
            },
        }
        k += 1;
    }
    assert(marks.take(dirty.len() as int) =~= marks);
    Some(snapshot.into_issues())
}

/// One of the first `i` issues has the identifier `id` and the status asked
/// for.
pub open spec fn picked_before(stored: Seq<IssueView>, status: Option<Status>, i: int, id: Seq<char>) -> bool {
    exists|j: int| 0 <= j < i && (#[trigger] stored[j]).id == id && status_pick(status)(stored[j])
}

/// What one more issue adds to those picked before.
proof fn lemma_picked_step(stored: Seq<IssueView>, status: Option<Status>, i: int, id: Seq<char>)
    requires
        0 <= i < stored.len(),
    ensures
        picked_before(stored, status, i + 1, id) == (picked_before(stored, status, i, id) || (
        stored[i].id == id && status_pick(status)(stored[i]))),
{
    if picked_before(stored, status, i, id) {
        let j = choose|j: int|
            0 <= j < i && (#[trigger] stored[j]).id == id && status_pick(status)(stored[j]);
        assert(0 <= j < i + 1 && stored[j].id == id && status_pick(status)(stored[j]));
    }
    if stored[i].id == id && status_pick(status)(stored[i]) {
        assert(0 <= i < i + 1 && stored[i].id == id && status_pick(status)(stored[i]));
    }
    if picked_before(stored, status, i + 1, id) {
        let j = choose|j: int|
            0 <= j < i + 1 && (#[trigger] stored[j]).id == id && status_pick(status)(stored[j]);
        if j < i {
            assert(picked_before(stored, status, i, id));
        }
    }
}

/// Every stored issue with the status asked for, each with the edges that
/// leave it, in ascending order of the identifiers.
pub fn execute_export<S: Storage>(storage: &S, status: Option<Status>) -> (r: Vec<Issue>)
    requires
        storage.wf(),
    ensures
        ascending(issue_views(r@)),
        as_map(issue_views(r@)) == storage@.export_of(status),
{
    let all = storage.all_issues();
    let mut snapshot = Snapshot::new();
    let ghost stored = storage@.issues;
    let mut i: usize = 0;
    proof {
        storage.lemma_wf();
    }
    while i < all.len()
        invariant
            i <= all.len(),
            storage.wf(),
            storage@.wf(),
            snapshot.wf(),
            stored == storage@.issues,
            issue_views(all@) == stored,
            forall|id: Seq<char>|
                snapshot@.contains_key(id) <==> #[trigger] picked_before(stored, status, i as int, id),
            forall|id: Seq<char>| #[trigger]
                snapshot@.contains_key(id) ==> snapshot@[id] == storage@.export_entry(id),
        decreases all.len() - i,
    {
        assert(stored[i as int] == all[i as int]@);
        let ghost before = snapshot@;
        let wanted = match status {
            Some(s) => all[i].status == s,
            None => true,
        };
        if wanted {
            proof {
                crate::storage::invariants::lemma_issue_at(storage@, i as int);
            }
            match export_entry_of(storage, all[i].id.as_str()) {
                Some(issue) => {
                    snapshot.upsert(issue);
                },
                None => {
                    assert(false);
                },
            }
        }
        proof {
            assert forall|id: Seq<char>|
                snapshot@.contains_key(id) <==> #[trigger] picked_before(stored, status, i + 1, id) by {
                lemma_picked_step(stored, status, i as int, id);
                assert(before.contains_key(id) <==> picked_before(stored, status, i as int, id));
            }
        }
        i += 1;
    }
    proof {
        let target = storage@.export_of(status);
        assert forall|id: Seq<char>| snapshot@.contains_key(id) == target.contains_key(id) by {
            assert(snapshot@.contains_key(id) <==> picked_before(stored, status, all.len() as int, id));
            if snapshot@.contains_key(id) {
                let j = choose|j: int|
                    0 <= j < all.len() && (#[trigger] stored[j]).id == id && status_pick(status)(
                        stored[j],
                    );
                crate::storage::invariants::lemma_issue_at(storage@, j);
            }
            if target.contains_key(id) {
                let j = storage@.issue_index(id);
                assert(0 <= j < all.len() && stored[j].id == id && status_pick(status)(stored[j]));
            }
        }
        assert(snapshot@ =~= target);
    }
    snapshot.into_issues()
}

} // verus!
