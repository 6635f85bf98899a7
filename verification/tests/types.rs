use tracer::error::{TraceError, ValidationError};
use tracer::types::{
    DependencyType, EventType, Issue, IssueFilter, IssueType, Status, Timestamp, WorkFilter,
};

fn at(secs: i64) -> Timestamp {
    Timestamp { secs, nanos: 0 }
}

fn sample() -> Issue {
    Issue {
        id: "bd-1".to_string(),
        title: "A title".to_string(),
        description: String::new(),
        design: String::new(),
        acceptance_criteria: String::new(),
        notes: String::new(),
        status: Status::Open,
        priority: 2,
        issue_type: IssueType::Task,
        assignee: String::new(),
        estimated_minutes: None,
        created_at: at(10),
        updated_at: at(10),
        closed_at: None,
        external_ref: None,
        dependencies: Vec::new(),
    }
}

#[test]
fn valid_issue_passes_validation() {
    assert_eq!(sample().validate(), Ok(()));
}

#[test]
fn empty_title_is_refused() {
    let mut i = sample();
    i.title = String::new();
    assert_eq!(i.validate(), Err(TraceError::Validation(ValidationError::EmptyTitle)));
}

#[test]
fn title_of_500_characters_passes_and_501_is_refused() {
    let mut i = sample();
    i.title = "x".repeat(500);
    assert_eq!(i.validate(), Ok(()));
    i.title = "x".repeat(501);
    assert_eq!(i.validate(), Err(TraceError::Validation(ValidationError::TitleTooLong)));
}

#[test]
fn title_length_counts_characters_not_bytes() {
    let mut i = sample();
    i.title = "é".repeat(500);
    assert_eq!(i.validate(), Ok(()));
}

#[test]
fn priority_outside_the_band_is_refused() {
    let mut i = sample();
    i.priority = 5;
    assert_eq!(i.validate(), Err(TraceError::Validation(ValidationError::PriorityOutOfRange)));
    i.priority = -1;
    assert_eq!(i.validate(), Err(TraceError::Validation(ValidationError::PriorityOutOfRange)));
    i.priority = 0;
    assert_eq!(i.validate(), Ok(()));
    i.priority = 4;
    assert_eq!(i.validate(), Ok(()));
}

#[test]
fn negative_estimate_is_refused() {
    let mut i = sample();
    i.estimated_minutes = Some(-1);
    assert_eq!(i.validate(), Err(TraceError::Validation(ValidationError::NegativeEstimate)));
    i.estimated_minutes = Some(0);
    assert_eq!(i.validate(), Ok(()));
}

#[test]
fn close_time_must_match_the_status() {
    let mut i = sample();
    i.closed_at = Some(at(20));
    assert_eq!(i.validate(), Err(TraceError::Validation(ValidationError::ClosedAtMismatch)));
    i.status = Status::Closed;
    assert_eq!(i.validate(), Ok(()));
    i.closed_at = None;
    assert_eq!(i.validate(), Err(TraceError::Validation(ValidationError::ClosedAtMismatch)));
}

#[test]
fn first_broken_rule_is_reported() {
    let mut i = sample();
    i.title = String::new();
    i.priority = 9;
    assert_eq!(i.validate(), Err(TraceError::Validation(ValidationError::EmptyTitle)));
}

#[test]
fn status_text_forms_round_trip() {
    for s in [Status::Open, Status::InProgress, Status::Blocked, Status::Closed] {
        assert_eq!(Status::from_str(&s.to_string()), Ok(s));
    }
    assert_eq!(Status::InProgress.to_string(), "in_progress");
    assert_eq!(
        Status::from_str("done"),
        Err(TraceError::Validation(ValidationError::InvalidStatus))
    );
}

#[test]
fn issue_type_text_forms_round_trip() {
    for t in [IssueType::Bug, IssueType::Feature, IssueType::Task, IssueType::Epic, IssueType::Chore] {
        assert_eq!(IssueType::from_str(&t.to_string()), Ok(t));
    }
    assert_eq!(
        IssueType::from_str("Bug"),
        Err(TraceError::Validation(ValidationError::InvalidIssueType))
    );
}

#[test]
fn dependency_type_text_forms_round_trip() {
    for t in [
        DependencyType::Blocks,
        DependencyType::Related,
        DependencyType::ParentChild,
        DependencyType::DiscoveredFrom,
    ] {
        assert_eq!(DependencyType::from_str(&t.to_string()), Ok(t));
    }
    assert_eq!(DependencyType::ParentChild.to_string(), "parent-child");
    assert_eq!(DependencyType::DiscoveredFrom.to_string(), "discovered-from");
    assert_eq!(
        DependencyType::from_str("parent_child"),
        Err(TraceError::Validation(ValidationError::InvalidDependencyType))
    );
}

#[test]
fn event_type_text_forms_round_trip() {
    for t in [
        EventType::Created,
        EventType::Updated,
        EventType::StatusChanged,
        EventType::Commented,
        EventType::Closed,
        EventType::Reopened,
        EventType::DependencyAdded,
        EventType::DependencyRemoved,
        EventType::LabelAdded,
        EventType::LabelRemoved,
    ] {
        assert_eq!(EventType::from_str(&t.to_string()), Ok(t));
    }
    assert_eq!(
        EventType::from_str(""),
        Err(TraceError::Validation(ValidationError::InvalidEventType))
    );
}

#[test]
fn defaults_are_open_and_task() {
    assert_eq!(Status::default(), Status::Open);
    assert_eq!(IssueType::default(), IssueType::Task);
    let f = IssueFilter::default();
    assert!(f.status.is_none() && f.labels.is_empty() && f.limit.is_none());
    let w = WorkFilter::default();
    assert_eq!(w.status, Status::Open);
    assert!(w.priority.is_none() && w.assignee.is_none() && w.limit.is_none());
}

#[test]
fn timestamps_order_by_seconds_then_nanoseconds() {
    let a = Timestamp { secs: 5, nanos: 10 };
    let b = Timestamp { secs: 5, nanos: 11 };
    let c = Timestamp { secs: 6, nanos: 0 };
    assert!(a.before(&b));
    assert!(b.before(&c));
    assert!(!b.before(&a));
    assert!(!a.before(&a));
}

#[test]
fn error_messages_name_the_problem() {
    assert_eq!(
        TraceError::Validation(ValidationError::EmptyTitle).message(),
        "title is required"
    );
    assert_eq!(
        TraceError::Validation(ValidationError::NegativeEstimate).message(),
        "estimated_minutes cannot be negative"
    );
}
