//! The decisions of the commands that change the store: what a request to
//! create, update, close or link issues does, step by step. Parsing the
//! command line and printing the outcome is left to the caller.

use vstd::prelude::*;
use vstd::string::*;
use crate::clock;
use crate::error::{Missing, TraceError};
use crate::ident::identifier;
use crate::storage::{IssueUpdates, Storage};
use crate::storage::model::{FieldPatch, IssueUpdatesView, StorageView};
use crate::text::{copy_opt_string, copy_string, opt_text, texts};
use crate::types::{
    Dependency, DependencyType, DependencyView, Issue, IssueType, IssueView, Status, Timestamp,
};
use crate::utils::{dependency_spec, parse_dependency_spec};

verus! {

/// A request to create an issue.
#[derive(Debug)]
pub struct CreateArgs {
    pub title: Option<String>,
    pub description: Option<String>,
    pub priority: i32,
    pub issue_type: IssueType,
    pub assignee: Option<String>,
    pub labels: Vec<String>,
    /// Dependencies, each written as `type:id` or as `id` alone.
    pub deps: Vec<String>,
    /// The identifier to use instead of a new one.
    pub id: Option<String>,
}

/// The mathematical value of a [`CreateArgs`].
pub ghost struct CreateArgsView {
    pub title: Option<Seq<char>>,
    pub description: Option<Seq<char>>,
    pub priority: i32,
    pub issue_type: IssueType,
    pub assignee: Option<Seq<char>>,
    pub labels: Seq<Seq<char>>,
    pub deps: Seq<Seq<char>>,
    pub id: Option<Seq<char>>,
}

impl View for CreateArgs {
    type V = CreateArgsView;

    open spec fn view(&self) -> CreateArgsView {
        CreateArgsView {
            title: opt_text(self.title),
            description: opt_text(self.description),
            priority: self.priority,
            issue_type: self.issue_type,
            assignee: opt_text(self.assignee),
            labels: texts(self.labels@),
            deps: texts(self.deps@),
            id: opt_text(self.id),
        }
    }
}

/// The text, or no text if there is none.
pub open spec fn or_empty(s: Option<Seq<char>>) -> Seq<char> {
    match s {
        Some(t) => t,
        None => Seq::empty(),
    }
}

impl CreateArgsView {
    /// The issue that the request describes, under the identifier `id`: open,
    /// created and last changed at `now`.
    pub open spec fn issue(self, id: Seq<char>, title: Seq<char>, now: Timestamp) -> IssueView {
        IssueView {
            id: id,
            title: title,
            description: or_empty(self.description),
            design: Seq::empty(),
            acceptance_criteria: Seq::empty(),
            notes: Seq::empty(),
            status: Status::Open,
            priority: self.priority,
            issue_type: self.issue_type,
            assignee: or_empty(self.assignee),
            estimated_minutes: None,
            created_at: now,
            updated_at: now,
            closed_at: None,
            external_ref: None,
            dependencies: Seq::empty(),
        }
    }
}

impl StorageView {
    /// The store after the labels `labels[k..]` were attached to the issue
    /// `id`, one after the other, and whether that went well; the first
    /// failure ends it.
    pub open spec fn with_labels(
        self,
        id: Seq<char>,
        labels: Seq<Seq<char>>,
        k: int,
        actor: Seq<char>,
        now: Timestamp,
    ) -> (StorageView, Result<(), TraceError>)
        decreases labels.len() - k,
    {
        if k < 0 || k >= labels.len() {
            (self, Ok(()))
        } else {
            match self.record_outcome(id) {
                Err(e) => (self, Err(e)),
                Ok(_) => self.labelled(id, labels[k], actor, now).with_labels(
                    id,
                    labels,
                    k + 1,
                    actor,
                    now,
                ),
            }
        }
    }

    /// The store after the dependencies written as `specs[k..]` were stored
    /// as edges that leave the issue `id`, one after the other, and whether
    /// that went well; the first one that cannot be read or stored ends it.
    pub open spec fn with_dependency_specs(
        self,
        id: Seq<char>,
        specs: Seq<Seq<char>>,
        k: int,
        actor: Seq<char>,
        now: Timestamp,
    ) -> (StorageView, Result<(), TraceError>)
        decreases specs.len() - k,
    {
        if k < 0 || k >= specs.len() {
            (self, Ok(()))
        } else {
            match dependency_spec(specs[k]) {
                Err(e) => (self, Err(e)),
                Ok((dep_type, target)) => match self.link_outcome(id, target) {
                    Err(e) => (self, Err(e)),
                    Ok(_) => self.linked(
                        DependencyView {
                            issue_id: id,
                            depends_on_id: target,
                            dep_type: dep_type,
                            created_at: now,
                            created_by: actor,
                        },
                        actor,
                        now,
                    ).with_dependency_specs(id, specs, k + 1, actor, now),
                },
            }
        }
    }

    /// The store after the issue that `args` describes was stored under the
    /// identifier `id`, with its labels and then its dependencies, and the
    /// issue if all went well; the first step that fails ends it.
    pub open spec fn with_new_issue(
        self,
        args: CreateArgsView,
        id: Seq<char>,
        title: Seq<char>,
        actor: Seq<char>,
        now: Timestamp,
    ) -> (StorageView, Result<IssueView, TraceError>) {
        let issue = args.issue(id, title, now);
        match self.create_outcome(issue) {
            Err(e) => (self, Err(e)),
            Ok(_) => {
                let labelled = self.created(issue, actor, now).with_labels(
                    id,
                    args.labels,
                    0,
                    actor,
                    now,
                );
                match labelled.1 {
                    Err(e) => (labelled.0, Err(e)),
                    Ok(_) => {
                        let linked = labelled.0.with_dependency_specs(id, args.deps, 0, actor, now);
                        match linked.1 {
                            Err(e) => (linked.0, Err(e)),
                            Ok(_) => (linked.0, Ok(issue)),
                        }
                    },
                }
            },
        }
    }

    /// The store after a request to create one issue, and the issue if all
    /// went well. The identifier is the one that the request names, or else
    /// the next one for `prefix`.
    pub open spec fn create_single(
        self,
        args: CreateArgsView,
        title: Seq<char>,
        actor: Seq<char>,
        prefix: Seq<char>,
        now: Timestamp,
    ) -> (StorageView, Result<IssueView, TraceError>) {
        match args.id {
            Some(id) => self.with_new_issue(args, id, title, actor, now),
            None => match self.allocate_outcome(prefix) {
                Err(e) => (self, Err(e)),
                Ok(_) => self.allocated(prefix).with_new_issue(
                    args,
                    identifier(prefix, self.next_number(prefix) as nat),
                    title,
                    actor,
                    now,
                ),
            },
        }
    }
}

/// Attaches the labels `labels` to the issue `id`.
fn add_labels<S: Storage>(storage: &mut S, id: &str, labels: &Vec<String>, actor: &str, now: Timestamp) -> (r:
    Result<(), TraceError>)
    requires
        old(storage).wf(),
    ensures
        final(storage).wf(),
        (final(storage)@, r) == old(storage)@.with_labels(id@, texts(labels@), 0, actor@, now),
{
    let mut k: usize = 0;
    let ghost all = texts(labels@);
    while k < labels.len()
        invariant
            k <= labels.len(),
            storage.wf(),
            all == texts(labels@),
            storage@.with_labels(id@, all, k as int, actor@, now) == old(storage)@.with_labels(
                id@,
                all,
                0,
                actor@,
                now,
            ),
        decreases labels.len() - k,
    {
        assert(all[k as int] == labels[k as int]@);
        if let Err(e) = storage.add_label_at(id, labels[k].as_str(), actor, now) {
            return Err(e);
        }
        k += 1;
    }
    Ok(())
}

/// Stores the dependencies written as `specs` as edges that leave the issue
/// `id`.
fn add_dependency_specs<S: Storage>(
    storage: &mut S,
    id: &str,
    specs: &Vec<String>,
    actor: &str,
    now: Timestamp,
) -> (r: Result<(), TraceError>)
    requires
        old(storage).wf(),
    ensures
        final(storage).wf(),
        (final(storage)@, r) == old(storage)@.with_dependency_specs(
            id@,
            texts(specs@),
            0,
            actor@,
            now,
        ),
{
    let mut k: usize = 0;
    let ghost all = texts(specs@);
    while k < specs.len()
        invariant
            k <= specs.len(),
            storage.wf(),
            all == texts(specs@),
            storage@.with_dependency_specs(id@, all, k as int, actor@, now) == old(
                storage,
            )@.with_dependency_specs(id@, all, 0, actor@, now),
        decreases specs.len() - k,
    {
        assert(all[k as int] == specs[k as int]@);
        match parse_dependency_spec(specs[k].as_str()) {
            Err(e) => {
                return Err(e);
            },
            Ok((dep_type, target)) => {
                let dep = Dependency {
                    issue_id: id.to_owned(),
                    depends_on_id: target,
                    dep_type: dep_type,
                    created_at: now,
                    created_by: actor.to_owned(),
                };
                if let Err(e) = storage.add_dependency_at(&dep, actor, now) {
                    return Err(e);
                }
            },
        }
        k += 1;
    }
    Ok(())
}

/// Carries out a request to create one issue with the title `title`, at the
/// time `now`: stores the issue, attaches its labels, stores its
/// dependencies, and hands the issue back.
pub fn create_single_at<S: Storage>(
    args: &CreateArgs,
    title: &str,
    storage: &mut S,
    actor: &str,
    prefix: &str,
    now: Timestamp,
) -> (r: Result<Issue, TraceError>)
    requires
        old(storage).wf(),
    ensures
        final(storage).wf(),
        final(storage)@ == old(storage)@.create_single(args@, title@, actor@, prefix@, now).0,
        match r {
            Ok(issue) => old(storage)@.create_single(args@, title@, actor@, prefix@, now).1 == Ok::<
                IssueView,
                TraceError,
            >(issue@),
            Err(e) => old(storage)@.create_single(args@, title@, actor@, prefix@, now).1 == Err::<
                IssueView,
                TraceError,
            >(e),
        },
{
    let id = match &args.id {
        Some(explicit) => copy_string(explicit),
        None => match storage.generate_id(prefix) {
            Ok(id) => id,
            Err(e) => {
                return Err(e);
            },
        },
    };
    let issue = Issue {
        id: copy_string(&id),
        title: title.to_owned(),
        description: match &args.description {
            Some(d) => copy_string(d),
            None => String::new(),
        },
        design: String::new(),
        acceptance_criteria: String::new(),
        notes: String::new(),
        status: Status::Open,
        priority: args.priority,
        issue_type: args.issue_type,
        assignee: match &args.assignee {
            Some(a) => copy_string(a),
            None => String::new(),
        },
        estimated_minutes: None,
        created_at: now,
        updated_at: now,
        closed_at: None,
        external_ref: None,
        dependencies: Vec::new(),
    };
    proof {
        assert(crate::types::dependency_views(issue.dependencies@) =~= Seq::empty());
        assert(issue@ == args@.issue(id@, title@, now));
    }
    if let Err(e) = storage.create_issue_at(&issue, actor, now) {
        return Err(e);
    }
    if let Err(e) = add_labels(storage, id.as_str(), &args.labels, actor, now) {
        return Err(e);
    }
    if let Err(e) = add_dependency_specs(storage, id.as_str(), &args.deps, actor, now) {
        return Err(e);
    }
    Ok(issue)
}

/// A request to update an issue.
#[derive(Debug)]
pub struct UpdateArgs {
    pub id: String,
    pub title: Option<String>,
    pub description: Option<String>,
    pub status: Option<Status>,
    pub priority: Option<i32>,
    pub issue_type: Option<IssueType>,
    pub assignee: Option<String>,
}

/// The mathematical value of an [`UpdateArgs`].
pub ghost struct UpdateArgsView {
    pub id: Seq<char>,
    pub title: Option<Seq<char>>,
    pub description: Option<Seq<char>>,
    pub status: Option<Status>,
    pub priority: Option<i32>,
    pub issue_type: Option<IssueType>,
    pub assignee: Option<Seq<char>>,
}

impl View for UpdateArgs {
    type V = UpdateArgsView;

    open spec fn view(&self) -> UpdateArgsView {
        UpdateArgsView {
            id: self.id@,
            title: opt_text(self.title),
            description: opt_text(self.description),
            status: self.status,
            priority: self.priority,
            issue_type: self.issue_type,
            assignee: opt_text(self.assignee),
        }
    }
}

impl UpdateArgsView {
    /// The partial update that the request asks for. Who takes an unassigned
    /// issue into progress without naming an assignee becomes its assignee.
    pub open spec fn updates(self, current: IssueView, actor: Seq<char>) -> IssueUpdatesView {
        IssueUpdatesView {
            title: self.title,
            description: self.description,
            design: None,
            acceptance_criteria: None,
            notes: None,
            status: self.status,
            priority: self.priority,
            issue_type: self.issue_type,
            assignee: if self.assignee is Some {
                self.assignee
            } else if self.status == Some(Status::InProgress) && current.assignee.len() == 0 {
                Some(actor)
            } else {
                None
            },
            estimated_minutes: FieldPatch::Untouched,
            external_ref: FieldPatch::Untouched,
        }
    }
}

impl StorageView {
    /// Whether a request to update is carried out.
    pub open spec fn execute_update_outcome(self, args: UpdateArgsView, actor: Seq<char>, now: Timestamp) -> Result<
        (),
        TraceError,
    > {
        if !self.has_issue(args.id) {
            Err(TraceError::NotFound(Missing::Issue))
        } else {
            self.update_outcome(args.id, args.updates(self.issue(args.id), actor), now)
        }
    }
}

/// Carries out a request to update an issue, at the time `now`.
pub fn execute_update_at<S: Storage>(args: &UpdateArgs, storage: &mut S, actor: &str, now: Timestamp) -> (r: Result<
    (),
    TraceError,
>)
    requires
        old(storage).wf(),
    ensures
        final(storage).wf(),
        r == old(storage)@.execute_update_outcome(args@, actor@, now),
        final(storage)@ == if r is Ok {
            old(storage)@.updated(
                args@.id,
                args@.updates(old(storage)@.issue(args@.id), actor@),
                actor@,
                now,
            )
        } else {
            old(storage)@
        },
{
    let current = match storage.get_issue(args.id.as_str()) {
        Some(issue) => issue,
        None => {
            return Err(TraceError::NotFound(Missing::Issue));
        },
    };
    let taken_up = match args.status {
        Some(Status::InProgress) => true,
        _ => false,
    };
    let assignee = if args.assignee.is_some() {
        copy_opt_string(&args.assignee)
    } else if taken_up && current.assignee.as_str().unicode_len() == 0 {
        Some(actor.to_owned())
    } else {
        None
    };
    let updates = IssueUpdates {
        title: copy_opt_string(&args.title),
        description: copy_opt_string(&args.description),
        design: None,
        acceptance_criteria: None,
        notes: None,
        status: args.status,
        priority: args.priority,
        issue_type: args.issue_type,
        assignee: assignee,
        estimated_minutes: FieldPatch::Untouched,
        external_ref: FieldPatch::Untouched,
    };
    assert(updates@ == args@.updates(old(storage)@.issue(args@.id), actor@));
    storage.update_issue_at(args.id.as_str(), &updates, actor, now)
}

/// A request to close issues.
#[derive(Debug)]
pub struct CloseArgs {
    pub ids: Vec<String>,
    pub reason: String,
}

impl StorageView {
    /// The store after the issues `ids[k..]` were closed, one after the
    /// other, and whether that went well; the first one that cannot be
    /// closed ends it, and those closed before stay closed.
    pub open spec fn closed_all(
        self,
        ids: Seq<Seq<char>>,
        k: int,
        reason: Seq<char>,
        actor: Seq<char>,
        now: Timestamp,
    ) -> (StorageView, Result<(), TraceError>)
        decreases ids.len() - k,
    {
        if k < 0 || k >= ids.len() {
            (self, Ok(()))
        } else {
            match self.record_outcome(ids[k]) {
                Err(e) => (self, Err(e)),
                Ok(_) => self.closed(ids[k], reason, actor, now).closed_all(
                    ids,
                    k + 1,
                    reason,
                    actor,
                    now,
                ),
            }
        }
    }
}

/// Carries out a request to close issues, at the time `now`.
pub fn execute_close_at<S: Storage>(args: &CloseArgs, storage: &mut S, actor: &str, now: Timestamp) -> (r: Result<
    (),
    TraceError,
>)
    requires
        old(storage).wf(),
    ensures
        final(storage).wf(),
        (final(storage)@, r) == old(storage)@.closed_all(texts(args.ids@), 0, args.reason@, actor@, now),
{
    let mut k: usize = 0;
    let ghost all = texts(args.ids@);
    while k < args.ids.len()
        invariant
            k <= args.ids.len(),
            storage.wf(),
            all == texts(args.ids@),
            storage@.closed_all(all, k as int, args.reason@, actor@, now) == old(storage)@.closed_all(
                all,
                0,
                args.reason@,
                actor@,
                now,
            ),
        decreases args.ids.len() - k,
    {
        assert(all[k as int] == args.ids[k as int]@);
        if let Err(e) = storage.close_issue_at(args.ids[k].as_str(), args.reason.as_str(), actor, now) {
            return Err(e);
        }
        k += 1;
    }
    Ok(())
}

/// A request to make one issue depend on another.
#[derive(Debug)]
pub struct AddArgs {
    pub issue_id: String,
    pub depends_on_id: String,
    pub dep_type: DependencyType,
}

/// Carries out a request to make one issue depend on another, at the time
/// `now`, and hands the edge back.
pub fn execute_add_at<S: Storage>(args: &AddArgs, storage: &mut S, actor: &str, now: Timestamp) -> (r: Result<
    Dependency,
    TraceError,
>)
    requires
        old(storage).wf(),
    ensures
        final(storage).wf(),
        match r {
            Ok(dep) => old(storage)@.link_outcome(args.issue_id@, args.depends_on_id@) is Ok && dep@
                == (DependencyView {
                issue_id: args.issue_id@,
                depends_on_id: args.depends_on_id@,
                dep_type: args.dep_type,
                created_at: now,
                created_by: actor@,
            }) && final(storage)@ == old(storage)@.linked(dep@, actor@, now),
            Err(e) => old(storage)@.link_outcome(args.issue_id@, args.depends_on_id@) == Err::<
                (),
                TraceError,
            >(e) && final(storage)@ == old(storage)@,
        },
{
    let dep = Dependency {
        issue_id: copy_string(&args.issue_id),
        depends_on_id: copy_string(&args.depends_on_id),
        dep_type: args.dep_type,
        created_at: now,
        created_by: actor.to_owned(),
    };
    match storage.add_dependency_at(&dep, actor, now) {
        Ok(_) => Ok(dep),
        Err(e) => Err(e),
    }
}

/// Carries out a request to create one issue with the title `title`, at the
/// current time.
pub fn create_single<S: Storage>(args: &CreateArgs, title: &str, storage: &mut S, actor: &str, prefix: &str) -> (r:
    Result<Issue, TraceError>)
    requires
        old(storage).wf(),
    ensures
        final(storage).wf(),
        exists|now: Timestamp|
            final(storage)@ == (#[trigger] old(storage)@.create_single(
                args@,
                title@,
                actor@,
                prefix@,
                now,
            )).0 && match r {
                Ok(issue) => old(storage)@.create_single(args@, title@, actor@, prefix@, now).1 == Ok::<
                    IssueView,
                    TraceError,
                >(issue@),
                Err(e) => old(storage)@.create_single(args@, title@, actor@, prefix@, now).1 == Err::<
                    IssueView,
                    TraceError,
                >(e),
            },
{
    let now = clock::now();
    create_single_at(args, title, storage, actor, prefix, now)
}

/// Carries out a request to update an issue, at the current time.
pub fn execute_update<S: Storage>(args: &UpdateArgs, storage: &mut S, actor: &str) -> (r: Result<(), TraceError>)
    requires
        old(storage).wf(),
    ensures
        final(storage).wf(),
        r is Err ==> final(storage)@ == old(storage)@,
        exists|now: Timestamp|
            r == old(storage)@.execute_update_outcome(args@, actor@, now) && (r is Ok
                ==> final(storage)@ == #[trigger] old(storage)@.updated(
                args@.id,
                args@.updates(old(storage)@.issue(args@.id), actor@),
                actor@,
                now,
            )),
{
    let now = clock::now();
    let r = execute_update_at(args, storage, actor, now);
    proof {
        let t = old(storage)@.updated(
            args@.id,
            args@.updates(old(storage)@.issue(args@.id), actor@),
            actor@,
            now,
        );
        assert(r == old(storage)@.execute_update_outcome(args@, actor@, now) && (r is Ok ==> storage@
            == t));
    }
    r
}

/// Carries out a request to close issues, at the current time.
pub fn execute_close<S: Storage>(args: &CloseArgs, storage: &mut S, actor: &str) -> (r: Result<(), TraceError>)
    requires
        old(storage).wf(),
    ensures
        final(storage).wf(),
        exists|now: Timestamp|
            (final(storage)@, r) == #[trigger] old(storage)@.closed_all(
                texts(args.ids@),
                0,
                args.reason@,
                actor@,
                now,
            ),
{
    let now = clock::now();
    execute_close_at(args, storage, actor, now)
}

/// Carries out a request to make one issue depend on another, at the current
/// time, and hands the edge back.
pub fn execute_add<S: Storage>(args: &AddArgs, storage: &mut S, actor: &str) -> (r: Result<Dependency, TraceError>)
    requires
        old(storage).wf(),
    ensures
        final(storage).wf(),
        match r {
            Ok(dep) => old(storage)@.link_outcome(args.issue_id@, args.depends_on_id@) is Ok
                && dep@.issue_id == args.issue_id@ && dep@.depends_on_id == args.depends_on_id@
                && dep@.dep_type == args.dep_type && dep@.created_by == actor@ && final(storage)@
                == old(storage)@.linked(dep@, actor@, dep@.created_at),
            Err(e) => old(storage)@.link_outcome(args.issue_id@, args.depends_on_id@) == Err::<
                (),
                TraceError,
            >(e) && final(storage)@ == old(storage)@,
        },
{
    let now = clock::now();
    execute_add_at(args, storage, actor, now)
}

} // verus!
