//! The records of the tracker and their mathematical views.
//!
//! A record that owns strings has a view in which each string is its
//! sequence of characters; contracts speak of views only.

use vstd::prelude::*;
use vstd::string::*;
use crate::error::{TraceError, ValidationError};
use crate::text::{copy_opt_string, copy_string, opt_text, str_eq};

verus! {

/// The most characters a title may have.
pub const MAX_TITLE_CHARS: usize = 500;

/// The lowest accepted priority number, which is the most urgent.
pub const MIN_PRIORITY: i32 = 0;

/// The highest accepted priority number, which is the least urgent.
pub const MAX_PRIORITY: i32 = 4;

/// An instant on the UTC time line: whole seconds since the Unix epoch and
/// the nanoseconds into that second.
#[derive(Clone, Copy, Debug, PartialEq, Eq, Structural)]
pub struct Timestamp {
    pub secs: i64,
    pub nanos: u32,
}

impl Timestamp {
    /// `self` is strictly earlier than `other`.
    pub open spec fn is_before(self, other: Timestamp) -> bool {
        self.secs < other.secs || (self.secs == other.secs && self.nanos < other.nanos)
    }

    /// Whether `self` is strictly earlier than `other`.
    pub fn before(&self, other: &Timestamp) -> (r: bool)
        ensures
            r == self.is_before(*other),
    {
        self.secs < other.secs || (self.secs == other.secs && self.nanos < other.nanos)
    }

    /// Whole seconds from `self` to `later`, negative when `later` is earlier.
    pub open spec fn seconds_until(self, later: Timestamp) -> int {
        later.secs - self.secs
    }
}

/// Where an issue stands in its life.
#[derive(Clone, Copy, Debug, PartialEq, Eq, Structural)]
pub enum Status {
    Open,
    InProgress,
    Blocked,
    Closed,
}

impl Status {
    /// The text form of a status.
    pub open spec fn name(self) -> Seq<char> {
        match self {
            Status::Open => "open"@,
            Status::InProgress => "in_progress"@,
            Status::Blocked => "blocked"@,
            Status::Closed => "closed"@,
        }
    }

    /// The text form, borrowed.
    pub fn as_str(&self) -> (r: &'static str)
        ensures
            r@ == self.name(),
    {
        match self {
            Status::Open => "open",
            Status::InProgress => "in_progress",
            Status::Blocked => "blocked",
            Status::Closed => "closed",
        }
    }

    /// The text form, owned.
    pub fn to_string(&self) -> (r: String)
        ensures
            r@ == self.name(),
    {
        self.as_str().to_owned()
    }

    /// Reads a status from its text form; any other text is refused.
    pub fn from_str(s: &str) -> (r: Result<Status, TraceError>)
        ensures
            match r {
                Ok(v) => s@ == v.name(),
                Err(e) => e == TraceError::Validation(ValidationError::InvalidStatus)
                    && forall|v: Status| s@ != #[trigger] v.name(),
            },
    {
        if str_eq(s, "open") {
            Ok(Status::Open)
        } else if str_eq(s, "in_progress") {
            Ok(Status::InProgress)
        } else if str_eq(s, "blocked") {
            Ok(Status::Blocked)
        } else if str_eq(s, "closed") {
            Ok(Status::Closed)
        } else {
            assert forall|v: Status| s@ != #[trigger] v.name() by {
                match v {
                    Status::Open => {},
                    Status::InProgress => {},
                    Status::Blocked => {},
                    Status::Closed => {},
                }
            }
            Err(TraceError::Validation(ValidationError::InvalidStatus))
        }
    }

    /// Distinct statuses have distinct text forms.
    pub proof fn lemma_name_injective(a: Status, b: Status)
        requires
            a.name() == b.name(),
        ensures
            a == b,
    {
        reveal_strlit("open");
        reveal_strlit("in_progress");
        reveal_strlit("blocked");
        reveal_strlit("closed");
        assert(Status::Open.name().len() == 4);
        assert(Status::InProgress.name().len() == 11);
        assert(Status::Blocked.name().len() == 7);
        assert(Status::Closed.name().len() == 6);
    }
}

impl Default for Status {
    fn default() -> (r: Status)
        ensures
            r == Status::Open,
    {
        Status::Open
    }
}

/// What kind of work an issue is.
#[derive(Clone, Copy, Debug, PartialEq, Eq, Structural)]
pub enum IssueType {
    Bug,
    Feature,
    Task,
    Epic,
    Chore,
}

impl IssueType {
    /// The text form of an issue type.
    pub open spec fn name(self) -> Seq<char> {
        match self {
            IssueType::Bug => "bug"@,
            IssueType::Feature => "feature"@,
            IssueType::Task => "task"@,
            IssueType::Epic => "epic"@,
            IssueType::Chore => "chore"@,
        }
    }

    /// The text form, borrowed.
    pub fn as_str(&self) -> (r: &'static str)
        ensures
            r@ == self.name(),
    {
        match self {
            IssueType::Bug => "bug",
            IssueType::Feature => "feature",
            IssueType::Task => "task",
            IssueType::Epic => "epic",
            IssueType::Chore => "chore",
        }
    }

    /// The text form, owned.
    pub fn to_string(&self) -> (r: String)
        ensures
            r@ == self.name(),
    {
        self.as_str().to_owned()
    }

    /// Reads an issue type from its text form; any other text is refused.
    pub fn from_str(s: &str) -> (r: Result<IssueType, TraceError>)
        ensures
            match r {
                Ok(v) => s@ == v.name(),
                Err(e) => e == TraceError::Validation(ValidationError::InvalidIssueType)
                    && forall|v: IssueType| s@ != #[trigger] v.name(),
            },
    {
        if str_eq(s, "bug") {
            Ok(IssueType::Bug)
        } else if str_eq(s, "feature") {
            Ok(IssueType::Feature)
        } else if str_eq(s, "task") {
            Ok(IssueType::Task)
        } else if str_eq(s, "epic") {
            Ok(IssueType::Epic)
        } else if str_eq(s, "chore") {
            Ok(IssueType::Chore)
        } else {
            assert forall|v: IssueType| s@ != #[trigger] v.name() by {
                match v {
                    IssueType::Bug => {},
                    IssueType::Feature => {},
                    IssueType::Task => {},
                    IssueType::Epic => {},
                    IssueType::Chore => {},
                }
            }
            Err(TraceError::Validation(ValidationError::InvalidIssueType))
        }
    }

    /// Distinct issue types have distinct text forms.
    pub proof fn lemma_name_injective(a: IssueType, b: IssueType)
        requires
            a.name() == b.name(),
        ensures
            a == b,
    {
        reveal_strlit("bug");
        reveal_strlit("feature");
        reveal_strlit("task");
        reveal_strlit("epic");
        reveal_strlit("chore");
        assert(IssueType::Bug.name().len() == 3);
        assert(IssueType::Feature.name().len() == 7);
        assert(IssueType::Task.name().len() == 4 && IssueType::Task.name()[0] == 't');
        assert(IssueType::Epic.name().len() == 4 && IssueType::Epic.name()[0] == 'e');
        assert(IssueType::Chore.name().len() == 5);
    }
}

impl Default for IssueType {
    fn default() -> (r: IssueType)
        ensures
            r == IssueType::Task,
    {
        IssueType::Task
    }
}

/// How one issue relates to the issue it depends on.
#[derive(Clone, Copy, Debug, PartialEq, Eq, Structural)]
pub enum DependencyType {
    Blocks,
    Related,
    ParentChild,
    DiscoveredFrom,
}

impl DependencyType {
    /// The text form of a dependency type.
    pub open spec fn name(self) -> Seq<char> {
        match self {
            DependencyType::Blocks => "blocks"@,
            DependencyType::Related => "related"@,
            DependencyType::ParentChild => "parent-child"@,
            DependencyType::DiscoveredFrom => "discovered-from"@,
        }
    }

    /// The text form, borrowed.
    pub fn as_str(&self) -> (r: &'static str)
        ensures
            r@ == self.name(),
    {
        match self {
            DependencyType::Blocks => "blocks",
            DependencyType::Related => "related",
            DependencyType::ParentChild => "parent-child",
            DependencyType::DiscoveredFrom => "discovered-from",
        }
    }

    /// The text form, owned.
    pub fn to_string(&self) -> (r: String)
        ensures
            r@ == self.name(),
    {
        self.as_str().to_owned()
    }

    /// Reads a dependency type from its text form; any other text is refused.
    pub fn from_str(s: &str) -> (r: Result<DependencyType, TraceError>)
        ensures
            match r {
                Ok(v) => s@ == v.name(),
                Err(e) => e == TraceError::Validation(ValidationError::InvalidDependencyType)
                    && forall|v: DependencyType| s@ != #[trigger] v.name(),
            },
    {
        if str_eq(s, "blocks") {
            Ok(DependencyType::Blocks)
        } else if str_eq(s, "related") {
            Ok(DependencyType::Related)
        } else if str_eq(s, "parent-child") {
            Ok(DependencyType::ParentChild)
        } else if str_eq(s, "discovered-from") {
            Ok(DependencyType::DiscoveredFrom)
        } else {
            assert forall|v: DependencyType| s@ != #[trigger] v.name() by {
                match v {
                    DependencyType::Blocks => {},
                    DependencyType::Related => {},
                    DependencyType::ParentChild => {},
                    DependencyType::DiscoveredFrom => {},
                }
            }
            Err(TraceError::Validation(ValidationError::InvalidDependencyType))
        }
    }

    /// Distinct dependency types have distinct text forms.
    pub proof fn lemma_name_injective(a: DependencyType, b: DependencyType)
        requires
            a.name() == b.name(),
        ensures
            a == b,
    {
        reveal_strlit("blocks");
        reveal_strlit("related");
        reveal_strlit("parent-child");
        reveal_strlit("discovered-from");
        assert(DependencyType::Blocks.name().len() == 6);
        assert(DependencyType::Related.name().len() == 7);
        assert(DependencyType::ParentChild.name().len() == 12);
        assert(DependencyType::DiscoveredFrom.name().len() == 15);
    }
}

/// What an audit record reports.
#[derive(Clone, Copy, Debug, PartialEq, Eq, Structural)]
pub enum EventType {
    Created,
    Updated,
    StatusChanged,
    Commented,
    Closed,
    Reopened,
    DependencyAdded,
    DependencyRemoved,
    LabelAdded,
    LabelRemoved,
}

impl EventType {
    /// The text form of an event type.
    pub open spec fn name(self) -> Seq<char> {
        match self {
            EventType::Created => "created"@,
            EventType::Updated => "updated"@,
            EventType::StatusChanged => "status_changed"@,
            EventType::Commented => "commented"@,
            EventType::Closed => "closed"@,
            EventType::Reopened => "reopened"@,
            EventType::DependencyAdded => "dependency_added"@,
            EventType::DependencyRemoved => "dependency_removed"@,
            EventType::LabelAdded => "label_added"@,
            EventType::LabelRemoved => "label_removed"@,
        }
    }

    /// The text form, borrowed.
    pub fn as_str(&self) -> (r: &'static str)
        ensures
            r@ == self.name(),
    {
        match self {
            EventType::Created => "created",
            EventType::Updated => "updated",
            EventType::StatusChanged => "status_changed",
            EventType::Commented => "commented",
            EventType::Closed => "closed",
            EventType::Reopened => "reopened",
            EventType::DependencyAdded => "dependency_added",
            EventType::DependencyRemoved => "dependency_removed",
            EventType::LabelAdded => "label_added",
            EventType::LabelRemoved => "label_removed",
        }
    }

    /// The text form, owned.
    pub fn to_string(&self) -> (r: String)
        ensures
            r@ == self.name(),
    {
        self.as_str().to_owned()
    }

    /// Reads an event type from its text form; any other text is refused.
    pub fn from_str(s: &str) -> (r: Result<EventType, TraceError>)
        ensures
            match r {
                Ok(v) => s@ == v.name(),
                Err(e) => e == TraceError::Validation(ValidationError::InvalidEventType)
                    && forall|v: EventType| s@ != #[trigger] v.name(),
            },
    {
        if str_eq(s, "created") {
            Ok(EventType::Created)
        } else if str_eq(s, "updated") {
            Ok(EventType::Updated)
        } else if str_eq(s, "status_changed") {
            Ok(EventType::StatusChanged)
        } else if str_eq(s, "commented") {
            Ok(EventType::Commented)
        } else if str_eq(s, "closed") {
            Ok(EventType::Closed)
        } else if str_eq(s, "reopened") {
            Ok(EventType::Reopened)
        } else if str_eq(s, "dependency_added") {
            Ok(EventType::DependencyAdded)
        } else if str_eq(s, "dependency_removed") {
            Ok(EventType::DependencyRemoved)
        } else if str_eq(s, "label_added") {
            Ok(EventType::LabelAdded)
        } else if str_eq(s, "label_removed") {
            Ok(EventType::LabelRemoved)
        } else {
            assert forall|v: EventType| s@ != #[trigger] v.name() by {
                match v {
                    EventType::Created => {},
                    EventType::Updated => {},
                    EventType::StatusChanged => {},
                    EventType::Commented => {},
                    EventType::Closed => {},
                    EventType::Reopened => {},
                    EventType::DependencyAdded => {},
                    EventType::DependencyRemoved => {},
                    EventType::LabelAdded => {},
                    EventType::LabelRemoved => {},
                }
            }
            Err(TraceError::Validation(ValidationError::InvalidEventType))
        }
    }
}

/// A directed edge: `issue_id` depends on `depends_on_id`.
#[derive(Debug)]
pub struct Dependency {
    pub issue_id: String,
    pub depends_on_id: String,
    pub dep_type: DependencyType,
    pub created_at: Timestamp,
    pub created_by: String,
}

/// The mathematical value of a [`Dependency`].
pub ghost struct DependencyView {
    pub issue_id: Seq<char>,
    pub depends_on_id: Seq<char>,
    pub dep_type: DependencyType,
    pub created_at: Timestamp,
    pub created_by: Seq<char>,
}

impl View for Dependency {
    type V = DependencyView;

    open spec fn view(&self) -> DependencyView {
        DependencyView {
            issue_id: self.issue_id@,
            depends_on_id: self.depends_on_id@,
            dep_type: self.dep_type,
            created_at: self.created_at,
            created_by: self.created_by@,
        }
    }
}

impl Clone for Dependency {
    fn clone(&self) -> (r: Dependency)
        ensures
            r@ == self@,
    {
        Dependency {
            issue_id: copy_string(&self.issue_id),
            depends_on_id: copy_string(&self.depends_on_id),
            dep_type: self.dep_type,
            created_at: self.created_at,
            created_by: copy_string(&self.created_by),
        }
    }
}

/// The views of a list of dependencies.
pub open spec fn dependency_views(s: Seq<Dependency>) -> Seq<DependencyView> {
    s.map_values(|d: Dependency| d@)
}

/// A fresh copy of a list of dependencies.
pub fn copy_dependencies(v: &Vec<Dependency>) -> (r: Vec<Dependency>)
    ensures
        dependency_views(r@) == dependency_views(v@),
{
    let mut out: Vec<Dependency> = Vec::new();
    let mut i: usize = 0;
    while i < v.len()
        invariant
            i <= v.len(),
            out.len() == i,
            forall|k: int| 0 <= k < i ==> out[k]@ == v[k]@,
        decreases v.len() - i,
    {
        out.push(v[i].clone());
        i += 1;
    }
    assert(dependency_views(out@) =~= dependency_views(v@));
    out
}

/// A trackable unit of work.
#[derive(Debug)]
pub struct Issue {
    pub id: String,
    pub title: String,
    pub description: String,
    pub design: String,
    pub acceptance_criteria: String,
    pub notes: String,
    pub status: Status,
    pub priority: i32,
    pub issue_type: IssueType,
    /// Empty when nobody is assigned.
    pub assignee: String,
    pub estimated_minutes: Option<i32>,
    pub created_at: Timestamp,
    pub updated_at: Timestamp,
    pub closed_at: Option<Timestamp>,
    pub external_ref: Option<String>,
    /// The outgoing edges, filled in only where an issue travels to or from a
    /// snapshot.
    pub dependencies: Vec<Dependency>,
}

/// The mathematical value of an [`Issue`].
pub ghost struct IssueView {
    pub id: Seq<char>,
    pub title: Seq<char>,
    pub description: Seq<char>,
    pub design: Seq<char>,
    pub acceptance_criteria: Seq<char>,
    pub notes: Seq<char>,
    pub status: Status,
    pub priority: i32,
    pub issue_type: IssueType,
    pub assignee: Seq<char>,
    pub estimated_minutes: Option<i32>,
    pub created_at: Timestamp,
    pub updated_at: Timestamp,
    pub closed_at: Option<Timestamp>,
    pub external_ref: Option<Seq<char>>,
    pub dependencies: Seq<DependencyView>,
}

impl IssueView {
    /// The first rule that the field values break, if any: the title is
    /// present and within its limit, the priority lies in its band, an
    /// estimate is not negative, and the close time is there exactly when the
    /// status is closed.
    pub open spec fn check(self) -> Result<(), TraceError> {
        if self.title.len() == 0 {
            Err(TraceError::Validation(ValidationError::EmptyTitle))
        } else if self.title.len() > MAX_TITLE_CHARS {
            Err(TraceError::Validation(ValidationError::TitleTooLong))
        } else if !(MIN_PRIORITY <= self.priority <= MAX_PRIORITY) {
            Err(TraceError::Validation(ValidationError::PriorityOutOfRange))
        } else if self.estimated_minutes matches Some(est) && est < 0 {
            Err(TraceError::Validation(ValidationError::NegativeEstimate))
        } else if (self.closed_at is Some) != (self.status == Status::Closed) {
            Err(TraceError::Validation(ValidationError::ClosedAtMismatch))
        } else {
            Ok(())
        }
    }

    /// The field values break no rule.
    pub open spec fn is_valid(self) -> bool {
        self.check() is Ok
    }

    /// The same issue without its list of edges.
    pub open spec fn without_dependencies(self) -> IssueView {
        IssueView { dependencies: Seq::empty(), ..self }
    }

    /// The same issue carrying `deps` as its list of edges.
    pub open spec fn with_dependencies(self, deps: Seq<DependencyView>) -> IssueView {
        IssueView { dependencies: deps, ..self }
    }

    /// This issue may stand before `other` in a listing: a lower priority
    /// number first, and within one priority the one created later first.
    pub open spec fn ranks_before_or_with(self, other: IssueView) -> bool {
        self.priority < other.priority || (self.priority == other.priority
            && !self.created_at.is_before(other.created_at))
    }
}

impl View for Issue {
    type V = IssueView;

    open spec fn view(&self) -> IssueView {
        IssueView {
            id: self.id@,
            title: self.title@,
            description: self.description@,
            design: self.design@,
            acceptance_criteria: self.acceptance_criteria@,
            notes: self.notes@,
            status: self.status,
            priority: self.priority,
            issue_type: self.issue_type,
            assignee: self.assignee@,
            estimated_minutes: self.estimated_minutes,
            created_at: self.created_at,
            updated_at: self.updated_at,
            closed_at: self.closed_at,
            external_ref: opt_text(self.external_ref),
            dependencies: dependency_views(self.dependencies@),
        }
    }
}

impl Clone for Issue {
    fn clone(&self) -> (r: Issue)
        ensures
            r@ == self@,
    {
        Issue {
            id: copy_string(&self.id),
            title: copy_string(&self.title),
            description: copy_string(&self.description),
            design: copy_string(&self.design),
            acceptance_criteria: copy_string(&self.acceptance_criteria),
            notes: copy_string(&self.notes),
            status: self.status,
            priority: self.priority,
            issue_type: self.issue_type,
            assignee: copy_string(&self.assignee),
            estimated_minutes: self.estimated_minutes,
            created_at: self.created_at,
            updated_at: self.updated_at,
            closed_at: self.closed_at,
            external_ref: copy_opt_string(&self.external_ref),
            dependencies: copy_dependencies(&self.dependencies),
        }
    }
}

impl Issue {
    /// Checks the field values against the rules of [`IssueView::check`] and
    /// reports the first one broken.
    pub fn validate(&self) -> (r: Result<(), TraceError>)
        ensures
            r == self@.check(),
    {
        let chars = self.title.as_str().unicode_len();
        if chars == 0 {
            return Err(TraceError::Validation(ValidationError::EmptyTitle));
        }
        if chars > MAX_TITLE_CHARS {
            return Err(TraceError::Validation(ValidationError::TitleTooLong));
        }
        if self.priority < MIN_PRIORITY || self.priority > MAX_PRIORITY {
            return Err(TraceError::Validation(ValidationError::PriorityOutOfRange));
        }
        if let Some(est) = self.estimated_minutes {
            if est < 0 {
                return Err(TraceError::Validation(ValidationError::NegativeEstimate));
            }
        }
        let closed = match self.status {
            Status::Closed => true,
            _ => false,
        };
        if self.closed_at.is_some() != closed {
            return Err(TraceError::Validation(ValidationError::ClosedAtMismatch));
        }
        Ok(())
    }

    /// The same issue without its list of edges.
    pub fn stripped(&self) -> (r: Issue)
        ensures
            r@ == self@.without_dependencies(),
    {
        let mut out = self.clone();
        out.dependencies = Vec::new();
        assert(dependency_views(out.dependencies@) =~= Seq::empty());
        out
    }

    /// Whether this issue may stand before `other` in a listing.
    pub fn ranks_before_or_with(&self, other: &Issue) -> (r: bool)
        ensures
            r == self@.ranks_before_or_with(other@),
    {
        self.priority < other.priority || (self.priority == other.priority
            && !self.created_at.before(&other.created_at))
    }
}

/// The views of a list of issues.
pub open spec fn issue_views(s: Seq<Issue>) -> Seq<IssueView> {
    s.map_values(|i: Issue| i@)
}

/// A tag on an issue.
#[derive(Debug)]
pub struct Label {
    pub issue_id: String,
    pub label: String,
}

/// The mathematical value of a [`Label`].
pub ghost struct LabelView {
    pub issue_id: Seq<char>,
    pub label: Seq<char>,
}

impl View for Label {
    type V = LabelView;

    open spec fn view(&self) -> LabelView {
        LabelView { issue_id: self.issue_id@, label: self.label@ }
    }
}

impl Clone for Label {
    fn clone(&self) -> (r: Label)
        ensures
            r@ == self@,
    {
        Label { issue_id: copy_string(&self.issue_id), label: copy_string(&self.label) }
    }
}

/// The views of a list of labels.
pub open spec fn label_views(s: Seq<Label>) -> Seq<LabelView> {
    s.map_values(|l: Label| l@)
}

/// One entry of the audit trail.
#[derive(Debug)]
pub struct Event {
    pub id: i64,
    pub issue_id: String,
    pub event_type: EventType,
    pub actor: String,
    pub old_value: Option<String>,
    pub new_value: Option<String>,
    pub comment: Option<String>,
    pub created_at: Timestamp,
}

/// The mathematical value of an [`Event`].
pub ghost struct EventView {
    pub id: i64,
    pub issue_id: Seq<char>,
    pub event_type: EventType,
    pub actor: Seq<char>,
    pub old_value: Option<Seq<char>>,
    pub new_value: Option<Seq<char>>,
    pub comment: Option<Seq<char>>,
    pub created_at: Timestamp,
}

impl View for Event {
    type V = EventView;

    open spec fn view(&self) -> EventView {
        EventView {
            id: self.id,
            issue_id: self.issue_id@,
            event_type: self.event_type,
            actor: self.actor@,
            old_value: opt_text(self.old_value),
            new_value: opt_text(self.new_value),
            comment: opt_text(self.comment),
            created_at: self.created_at,
        }
    }
}

impl Clone for Event {
    fn clone(&self) -> (r: Event)
        ensures
            r@ == self@,
    {
        Event {
            id: self.id,
            issue_id: copy_string(&self.issue_id),
            event_type: self.event_type,
            actor: copy_string(&self.actor),
            old_value: copy_opt_string(&self.old_value),
            new_value: copy_opt_string(&self.new_value),
            comment: copy_opt_string(&self.comment),
            created_at: self.created_at,
        }
    }
}

/// The views of a list of events.
pub open spec fn event_views(s: Seq<Event>) -> Seq<EventView> {
    s.map_values(|e: Event| e@)
}

/// An issue together with the issues that currently block it.
#[derive(Debug)]
pub struct BlockedIssue {
    pub issue: Issue,
    pub blocked_by_count: usize,
    pub blocked_by: Vec<String>,
}

/// The mathematical value of a [`BlockedIssue`].
pub ghost struct BlockedIssueView {
    pub issue: IssueView,
    pub blocked_by_count: nat,
    pub blocked_by: Seq<Seq<char>>,
}

impl View for BlockedIssue {
    type V = BlockedIssueView;

    open spec fn view(&self) -> BlockedIssueView {
        BlockedIssueView {
            issue: self.issue@,
            blocked_by_count: self.blocked_by_count as nat,
            blocked_by: crate::text::texts(self.blocked_by@),
        }
    }
}

/// One node of a dependency tree.
#[derive(Debug)]
pub struct TreeNode {
    pub issue: Issue,
    pub depth: i32,
    pub truncated: bool,
}

/// The mathematical value of a [`TreeNode`].
pub ghost struct TreeNodeView {
    pub issue: IssueView,
    pub depth: int,
    pub truncated: bool,
}

impl View for TreeNode {
    type V = TreeNodeView;

    open spec fn view(&self) -> TreeNodeView {
        TreeNodeView { issue: self.issue@, depth: self.depth as int, truncated: self.truncated }
    }
}

/// The views of a list of tree nodes.
pub open spec fn tree_node_views(s: Seq<TreeNode>) -> Seq<TreeNodeView> {
    s.map_values(|n: TreeNode| n@)
}

/// What a search may ask of an issue; an absent field asks nothing.
#[derive(Debug)]
pub struct IssueFilter {
    pub status: Option<Status>,
    pub priority: Option<i32>,
    pub issue_type: Option<IssueType>,
    pub assignee: Option<String>,
    /// An issue passes when it carries any of these labels; an empty list asks
    /// nothing.
    pub labels: Vec<String>,
    pub limit: Option<usize>,
}

/// The mathematical value of an [`IssueFilter`].
pub ghost struct IssueFilterView {
    pub status: Option<Status>,
    pub priority: Option<i32>,
    pub issue_type: Option<IssueType>,
    pub assignee: Option<Seq<char>>,
    pub labels: Seq<Seq<char>>,
    pub limit: Option<usize>,
}

impl View for IssueFilter {
    type V = IssueFilterView;

    open spec fn view(&self) -> IssueFilterView {
        IssueFilterView {
            status: self.status,
            priority: self.priority,
            issue_type: self.issue_type,
            assignee: opt_text(self.assignee),
            labels: crate::text::texts(self.labels@),
            limit: self.limit,
        }
    }
}

impl Default for IssueFilter {
    fn default() -> (r: IssueFilter)
        ensures
            r@ == (IssueFilterView {
                status: None,
                priority: None,
                issue_type: None,
                assignee: None,
                labels: Seq::empty(),
                limit: None,
            }),
    {
        let r = IssueFilter {
            status: None,
            priority: None,
            issue_type: None,
            assignee: None,
            labels: Vec::new(),
            limit: None,
        };
        assert(crate::text::texts(r.labels@) =~= Seq::empty());
        r
    }
}

/// What a query for ready work may ask of an issue.
#[derive(Debug)]
pub struct WorkFilter {
    /// Kept for callers; ready work is always drawn from open issues.
    pub status: Status,
    pub priority: Option<i32>,
    pub assignee: Option<String>,
    pub limit: Option<usize>,
}

/// The mathematical value of a [`WorkFilter`].
pub ghost struct WorkFilterView {
    pub status: Status,
    pub priority: Option<i32>,
    pub assignee: Option<Seq<char>>,
    pub limit: Option<usize>,
}

impl View for WorkFilter {
    type V = WorkFilterView;

    open spec fn view(&self) -> WorkFilterView {
        WorkFilterView {
            status: self.status,
            priority: self.priority,
            assignee: opt_text(self.assignee),
            limit: self.limit,
        }
    }
}

impl Default for WorkFilter {
    fn default() -> (r: WorkFilter)
        ensures
            r@ == (WorkFilterView {
                status: Status::Open,
                priority: None,
                assignee: None,
                limit: None,
            }),
    {
        WorkFilter { status: Status::Open, priority: None, assignee: None, limit: None }
    }
}

/// Counts over the whole store.
#[derive(Clone, Copy, Debug, PartialEq, Eq, Structural)]
pub struct Statistics {
    pub total_issues: usize,
    pub open_issues: usize,
    pub in_progress_issues: usize,
    pub closed_issues: usize,
    pub blocked_issues: usize,
    pub ready_issues: usize,
}

} // verus!
