use tracer::error::{Missing, StorageFault, TraceError, ValidationError};
use tracer::storage::model::FieldPatch;
use tracer::storage::{IssueUpdates, MemoryStorage, Storage};
use tracer::types::{EventType, Issue, IssueFilter, IssueType, Status, Timestamp};

fn at(secs: i64) -> Timestamp {
    Timestamp { secs, nanos: 0 }
}

fn issue(id: &str, title: &str, priority: i32, created: i64) -> Issue {
    Issue {
        id: id.to_string(),
        title: title.to_string(),
        description: String::new(),
        design: String::new(),
        acceptance_criteria: String::new(),
        notes: String::new(),
        status: Status::Open,
        priority,
        issue_type: IssueType::Task,
        assignee: String::new(),
        estimated_minutes: None,
        created_at: at(created),
        updated_at: at(created),
        closed_at: None,
        external_ref: None,
        dependencies: Vec::new(),
    }
}

fn ids(issues: &[Issue]) -> Vec<String> {
    issues.iter().map(|i| i.id.clone()).collect()
}

#[test]
fn created_issue_can_be_read_back() {
    let mut s = MemoryStorage::new();
    assert_eq!(s.create_issue_at(&issue("bd-1", "first", 2, 100), "ann", at(101)), Ok(()));
    let got = s.get_issue("bd-1").unwrap();
    assert_eq!(got.title, "first");
    assert_eq!(got.status, Status::Open);
    assert_eq!(got.priority, 2);
    assert_eq!(got.created_at, at(100));
    assert!(s.get_issue("bd-2").is_none());
    assert!(s.contains_issue("bd-1"));
    assert!(!s.contains_issue("bd-9"));
}

#[test]
fn creation_is_logged_and_marks_the_issue() {
    let mut s = MemoryStorage::new();
    s.create_issue_at(&issue("bd-1", "first", 2, 100), "ann", at(101)).unwrap();
    let events = s.get_events("bd-1", 10);
    assert_eq!(events.len(), 1);
    assert_eq!(events[0].id, 1);
    assert_eq!(events[0].event_type, EventType::Created);
    assert_eq!(events[0].actor, "ann");
    assert_eq!(events[0].created_at, at(101));
    assert_eq!(s.get_dirty_issues(), vec!["bd-1".to_string()]);
}

#[test]
fn duplicate_identifier_is_a_storage_fault() {
    let mut s = MemoryStorage::new();
    s.create_issue_at(&issue("bd-1", "first", 2, 100), "ann", at(100)).unwrap();
    assert_eq!(
        s.create_issue_at(&issue("bd-1", "again", 1, 200), "ann", at(200)),
        Err(TraceError::Storage(StorageFault::DuplicateId))
    );
    assert_eq!(s.get_issue("bd-1").unwrap().title, "first");
    assert_eq!(s.get_events("bd-1", 10).len(), 1);
}

#[test]
fn invalid_issue_is_not_stored() {
    let mut s = MemoryStorage::new();
    assert_eq!(
        s.create_issue_at(&issue("bd-1", "", 2, 100), "ann", at(100)),
        Err(TraceError::Validation(ValidationError::EmptyTitle))
    );
    assert!(s.get_issue("bd-1").is_none());
    assert!(s.get_dirty_issues().is_empty());
}

#[test]
fn update_changes_only_the_named_fields() {
    let mut s = MemoryStorage::new();
    let mut first = issue("bd-1", "first", 2, 100);
    first.description = "text".to_string();
    first.estimated_minutes = Some(30);
    s.create_issue_at(&first, "ann", at(100)).unwrap();
    let mut u = IssueUpdates::default();
    u.title = Some("renamed".to_string());
    u.priority = Some(0);
    assert_eq!(s.update_issue_at("bd-1", &u, "bob", at(200)), Ok(()));
    let got = s.get_issue("bd-1").unwrap();
    assert_eq!(got.title, "renamed");
    assert_eq!(got.priority, 0);
    assert_eq!(got.description, "text");
    assert_eq!(got.estimated_minutes, Some(30));
    assert_eq!(got.created_at, at(100));
    assert_eq!(got.updated_at, at(200));
    let events = s.get_events("bd-1", 10);
    assert_eq!(events.len(), 2);
    assert_eq!(events[0].event_type, EventType::Updated);
    assert_eq!(events[0].actor, "bob");
}

#[test]
fn update_can_set_and_clear_optional_fields() {
    let mut s = MemoryStorage::new();
    let mut first = issue("bd-1", "first", 2, 100);
    first.estimated_minutes = Some(30);
    first.external_ref = Some("gh-1".to_string());
    s.create_issue_at(&first, "ann", at(100)).unwrap();
    let mut u = IssueUpdates::default();
    u.estimated_minutes = FieldPatch::Cleared;
    u.external_ref = FieldPatch::Replace("gh-2".to_string());
    s.update_issue_at("bd-1", &u, "ann", at(200)).unwrap();
    let got = s.get_issue("bd-1").unwrap();
    assert_eq!(got.estimated_minutes, None);
    assert_eq!(got.external_ref, Some("gh-2".to_string()));
    let mut u = IssueUpdates::default();
    u.estimated_minutes = FieldPatch::Replace(5);
    u.external_ref = FieldPatch::Cleared;
    s.update_issue_at("bd-1", &u, "ann", at(300)).unwrap();
    let got = s.get_issue("bd-1").unwrap();
    assert_eq!(got.estimated_minutes, Some(5));
    assert_eq!(got.external_ref, None);
}

#[test]
fn status_update_logs_the_new_status_first() {
    let mut s = MemoryStorage::new();
    s.create_issue_at(&issue("bd-1", "first", 2, 100), "ann", at(100)).unwrap();
    let mut u = IssueUpdates::default();
    u.status = Some(Status::InProgress);
    s.update_issue_at("bd-1", &u, "ann", at(200)).unwrap();
    let events = s.all_events();
    assert_eq!(events.len(), 3);
    assert_eq!(events[1].event_type, EventType::StatusChanged);
    assert_eq!(events[1].new_value, Some("in_progress".to_string()));
    assert_eq!(events[2].event_type, EventType::Updated);
    assert_eq!(events[1].id, 2);
    assert_eq!(events[2].id, 3);
}

#[test]
fn status_update_keeps_close_time_in_step() {
    let mut s = MemoryStorage::new();
    s.create_issue_at(&issue("bd-1", "first", 2, 100), "ann", at(100)).unwrap();
    let mut u = IssueUpdates::default();
    u.status = Some(Status::Closed);
    s.update_issue_at("bd-1", &u, "ann", at(200)).unwrap();
    assert_eq!(s.get_issue("bd-1").unwrap().closed_at, Some(at(200)));
    s.update_issue_at("bd-1", &u, "ann", at(300)).unwrap();
    assert_eq!(s.get_issue("bd-1").unwrap().closed_at, Some(at(200)));
    let mut u = IssueUpdates::default();
    u.status = Some(Status::Open);
    s.update_issue_at("bd-1", &u, "ann", at(400)).unwrap();
    assert_eq!(s.get_issue("bd-1").unwrap().closed_at, None);
}

#[test]
fn invalid_update_changes_nothing() {
    let mut s = MemoryStorage::new();
    s.create_issue_at(&issue("bd-1", "first", 2, 100), "ann", at(100)).unwrap();
    let mut u = IssueUpdates::default();
    u.priority = Some(7);
    u.title = Some("renamed".to_string());
    assert_eq!(
        s.update_issue_at("bd-1", &u, "ann", at(200)),
        Err(TraceError::Validation(ValidationError::PriorityOutOfRange))
    );
    let got = s.get_issue("bd-1").unwrap();
    assert_eq!(got.title, "first");
    assert_eq!(got.updated_at, at(100));
    assert_eq!(s.all_events().len(), 1);
}

#[test]
fn update_of_a_missing_issue_is_not_found() {
    let mut s = MemoryStorage::new();
    let u = IssueUpdates::default();
    assert_eq!(
        s.update_issue_at("bd-1", &u, "ann", at(200)),
        Err(TraceError::NotFound(Missing::Issue))
    );
}

#[test]
fn close_sets_status_times_and_logs_the_reason() {
    let mut s = MemoryStorage::new();
    s.create_issue_at(&issue("bd-1", "first", 2, 100), "ann", at(100)).unwrap();
    assert_eq!(s.close_issue_at("bd-1", "Completed", "bob", at(500)), Ok(()));
    let got = s.get_issue("bd-1").unwrap();
    assert_eq!(got.status, Status::Closed);
    assert_eq!(got.closed_at, Some(at(500)));
    assert_eq!(got.updated_at, at(500));
    let events = s.get_events("bd-1", 1);
    assert_eq!(events.len(), 1);
    assert_eq!(events[0].event_type, EventType::Closed);
    assert_eq!(events[0].comment, Some("Completed".to_string()));
    assert_eq!(
        s.close_issue_at("nope", "x", "bob", at(600)),
        Err(TraceError::NotFound(Missing::Issue))
    );
}

#[test]
fn comment_is_logged_touches_and_marks() {
    let mut s = MemoryStorage::new();
    s.create_issue_at(&issue("bd-1", "first", 2, 100), "ann", at(100)).unwrap();
    s.clear_dirty_issues();
    assert_eq!(s.add_comment_at("bd-1", "bob", "looks good", at(300)), Ok(()));
    let events = s.get_events("bd-1", 10);
    assert_eq!(events[0].event_type, EventType::Commented);
    assert_eq!(events[0].comment, Some("looks good".to_string()));
    assert_eq!(s.get_issue("bd-1").unwrap().updated_at, at(300));
    assert_eq!(s.get_dirty_issues(), vec!["bd-1".to_string()]);
    assert_eq!(
        s.add_comment_at("nope", "bob", "x", at(300)),
        Err(TraceError::NotFound(Missing::Issue))
    );
}

#[test]
fn labels_are_unique_per_issue() {
    let mut s = MemoryStorage::new();
    s.create_issue_at(&issue("bd-1", "first", 2, 100), "ann", at(100)).unwrap();
    s.create_issue_at(&issue("bd-2", "second", 2, 100), "ann", at(100)).unwrap();
    s.add_label_at("bd-1", "ui", "ann", at(200)).unwrap();
    s.add_label_at("bd-1", "ui", "ann", at(201)).unwrap();
    s.add_label_at("bd-1", "urgent", "ann", at(202)).unwrap();
    s.add_label_at("bd-2", "ui", "ann", at(203)).unwrap();
    assert_eq!(s.get_labels("bd-1"), vec!["ui".to_string(), "urgent".to_string()]);
    assert_eq!(ids(&s.get_issues_by_label("ui")), vec!["bd-1".to_string(), "bd-2".to_string()]);
    s.remove_label_at("bd-1", "ui", "ann", at(204)).unwrap();
    s.remove_label_at("bd-1", "absent", "ann", at(205)).unwrap();
    assert_eq!(s.get_labels("bd-1"), vec!["urgent".to_string()]);
    assert_eq!(s.get_issue("bd-1").unwrap().updated_at, at(205));
    assert_eq!(
        s.add_label_at("nope", "ui", "ann", at(206)),
        Err(TraceError::NotFound(Missing::Issue))
    );
}

#[test]
fn search_orders_by_priority_then_newest_first() {
    let mut s = MemoryStorage::new();
    s.create_issue_at(&issue("a", "a", 2, 100), "ann", at(100)).unwrap();
    s.create_issue_at(&issue("b", "b", 1, 200), "ann", at(200)).unwrap();
    s.create_issue_at(&issue("c", "c", 2, 300), "ann", at(300)).unwrap();
    s.create_issue_at(&issue("d", "d", 0, 50), "ann", at(400)).unwrap();
    s.create_issue_at(&issue("e", "e", 2, 300), "ann", at(500)).unwrap();
    let all = s.search_issues("", &IssueFilter::default());
    assert_eq!(ids(&all), vec!["d", "b", "c", "e", "a"]);
    let mut f = IssueFilter::default();
    f.limit = Some(2);
    assert_eq!(ids(&s.search_issues("", &f)), vec!["d", "b"]);
    f.limit = Some(0);
    assert!(s.search_issues("", &f).is_empty());
    f.limit = Some(99);
    assert_eq!(s.search_issues("", &f).len(), 5);
}

#[test]
fn search_filters_by_each_field() {
    let mut s = MemoryStorage::new();
    let mut a = issue("a", "a", 2, 100);
    a.assignee = "ann".to_string();
    a.issue_type = IssueType::Bug;
    s.create_issue_at(&a, "ann", at(100)).unwrap();
    s.create_issue_at(&issue("b", "b", 1, 200), "ann", at(200)).unwrap();
    s.create_issue_at(&issue("c", "c", 2, 300), "ann", at(300)).unwrap();
    s.close_issue_at("c", "done", "ann", at(400)).unwrap();
    s.add_label_at("b", "ui", "ann", at(500)).unwrap();
    s.add_label_at("c", "db", "ann", at(500)).unwrap();

    let mut f = IssueFilter::default();
    f.status = Some(Status::Closed);
    assert_eq!(ids(&s.search_issues("", &f)), vec!["c"]);
    let mut f = IssueFilter::default();
    f.priority = Some(2);
    assert_eq!(ids(&s.search_issues("", &f)), vec!["c", "a"]);
    let mut f = IssueFilter::default();
    f.issue_type = Some(IssueType::Bug);
    assert_eq!(ids(&s.search_issues("", &f)), vec!["a"]);
    let mut f = IssueFilter::default();
    f.assignee = Some("ann".to_string());
    assert_eq!(ids(&s.search_issues("", &f)), vec!["a"]);
    let mut f = IssueFilter::default();
    f.labels = vec!["ui".to_string(), "db".to_string()];
    assert_eq!(ids(&s.search_issues("", &f)), vec!["b", "c"]);
    f.labels = vec!["none".to_string()];
    assert!(s.search_issues("", &f).is_empty());
}

#[test]
fn events_come_most_recent_first_and_are_limited() {
    let mut s = MemoryStorage::new();
    s.create_issue_at(&issue("bd-1", "first", 2, 100), "ann", at(100)).unwrap();
    s.add_comment_at("bd-1", "ann", "one", at(300)).unwrap();
    s.add_comment_at("bd-1", "ann", "two", at(200)).unwrap();
    s.add_comment_at("bd-1", "ann", "three", at(300)).unwrap();
    let events = s.get_events("bd-1", 10);
    let comments: Vec<Option<String>> = events.iter().map(|e| e.comment.clone()).collect();
    assert_eq!(
        comments,
        vec![Some("three".to_string()), Some("one".to_string()), Some("two".to_string()), None]
    );
    assert_eq!(s.get_events("bd-1", 2).len(), 2);
    assert!(s.get_events("bd-1", 0).is_empty());
    assert!(s.get_events("other", 10).is_empty());
}

#[test]
fn marks_are_kept_once_in_order_and_can_be_cleared() {
    let mut s = MemoryStorage::new();
    s.create_issue_at(&issue("a", "a", 2, 100), "ann", at(100)).unwrap();
    s.create_issue_at(&issue("b", "b", 2, 100), "ann", at(100)).unwrap();
    s.create_issue_at(&issue("c", "c", 2, 100), "ann", at(100)).unwrap();
    s.add_comment_at("a", "ann", "again", at(200)).unwrap();
    assert_eq!(s.get_dirty_issues(), vec!["a", "b", "c"]);
    s.clear_dirty_issues_by_id(&vec!["a".to_string(), "c".to_string(), "zz".to_string()]);
    assert_eq!(s.get_dirty_issues(), vec!["b"]);
    s.clear_dirty_issues();
    assert!(s.get_dirty_issues().is_empty());
}

#[test]
fn config_and_metadata_are_separate_maps() {
    let mut s = MemoryStorage::new();
    assert_eq!(s.get_config("prefix"), None);
    s.set_config("prefix", "bd");
    s.set_metadata("prefix", "other");
    assert_eq!(s.get_config("prefix"), Some("bd".to_string()));
    assert_eq!(s.get_metadata("prefix"), Some("other".to_string()));
    s.set_config("prefix", "tr");
    assert_eq!(s.get_config("prefix"), Some("tr".to_string()));
    assert_eq!(s.config_entries(), vec![("prefix".to_string(), "tr".to_string())]);
    assert_eq!(s.get_metadata("missing"), None);
}

#[test]
fn identifiers_count_up_per_prefix() {
    let mut s = MemoryStorage::new();
    assert_eq!(s.generate_id("bd"), Ok("bd-1".to_string()));
    assert_eq!(s.generate_id("bd"), Ok("bd-2".to_string()));
    assert_eq!(s.generate_id("tr"), Ok("tr-1".to_string()));
    assert_eq!(s.generate_id("bd"), Ok("bd-3".to_string()));
    assert_eq!(
        s.counter_entries(),
        vec![("bd".to_string(), 3), ("tr".to_string(), 1)]
    );
}

#[test]
fn many_identifiers_are_distinct_and_increasing() {
    let mut s = MemoryStorage::new();
    let mut seen: Vec<String> = Vec::new();
    for n in 1..=200u32 {
        let id = s.generate_id("bd").unwrap();
        assert_eq!(id, format!("bd-{}", n));
        assert!(!seen.contains(&id));
        seen.push(id);
    }
}

#[test]
fn statistics_count_by_status_and_readiness() {
    let mut s = MemoryStorage::new();
    s.create_issue_at(&issue("a", "a", 2, 100), "ann", at(100)).unwrap();
    s.create_issue_at(&issue("b", "b", 2, 100), "ann", at(100)).unwrap();
    s.create_issue_at(&issue("c", "c", 2, 100), "ann", at(100)).unwrap();
    s.create_issue_at(&issue("d", "d", 2, 100), "ann", at(100)).unwrap();
    let mut u = IssueUpdates::default();
    u.status = Some(Status::InProgress);
    s.update_issue_at("b", &u, "ann", at(200)).unwrap();
    s.close_issue_at("c", "done", "ann", at(3700)).unwrap();
    let stats = s.get_statistics();
    assert_eq!(stats.total_issues, 4);
    assert_eq!(stats.open_issues, 2);
    assert_eq!(stats.in_progress_issues, 1);
    assert_eq!(stats.closed_issues, 1);
    assert_eq!(stats.blocked_issues, 0);
    assert_eq!(stats.ready_issues, 2);
    assert_eq!(s.lead_times(), vec![3600i128]);
}

#[test]
fn operations_at_the_current_time_work() {
    let mut s = MemoryStorage::new();
    assert_eq!(s.create_issue(&issue("bd-1", "first", 2, 100), "ann"), Ok(()));
    assert_eq!(s.add_label("bd-1", "ui", "ann"), Ok(()));
    assert_eq!(s.add_comment("bd-1", "ann", "hello"), Ok(()));
    let mut u = IssueUpdates::default();
    u.title = Some("renamed".to_string());
    assert_eq!(s.update_issue("bd-1", &u, "ann"), Ok(()));
    assert_eq!(s.remove_label("bd-1", "ui", "ann"), Ok(()));
    assert_eq!(s.close_issue("bd-1", "done", "ann"), Ok(()));
    let got = s.get_issue("bd-1").unwrap();
    assert_eq!(got.status, Status::Closed);
    let closed = got.closed_at.unwrap();
    assert!(closed.secs > 1_600_000_000);
    assert_eq!(got.updated_at, closed);
    assert_eq!(s.all_events().len(), 6);
}

#[test]
fn empty_counters_are_filled_from_the_stored_identifiers() {
    let mut s = MemoryStorage::new();
    s.create_issue_at(&issue("bd-3", "a", 2, 1), "ann", at(1)).unwrap();
    s.create_issue_at(&issue("bd-12", "b", 2, 1), "ann", at(1)).unwrap();
    s.create_issue_at(&issue("tr-2", "c", 2, 1), "ann", at(1)).unwrap();
    s.create_issue_at(&issue("loose", "d", 2, 1), "ann", at(1)).unwrap();
    s.create_issue_at(&issue("bd-7", "e", 2, 1), "ann", at(1)).unwrap();
    s.sync_counters();
    assert_eq!(s.counter_entries(), vec![("bd".to_string(), 12), ("tr".to_string(), 2)]);
    assert_eq!(s.generate_id("bd"), Ok("bd-13".to_string()));
    assert_eq!(s.generate_id("tr"), Ok("tr-3".to_string()));
}

#[test]
fn stored_counters_are_not_filled_again() {
    let mut s = MemoryStorage::new();
    s.create_issue_at(&issue("bd-30", "a", 2, 1), "ann", at(1)).unwrap();
    assert_eq!(s.generate_id("bd"), Ok("bd-1".to_string()));
    s.sync_counters();
    assert_eq!(s.counter_entries(), vec![("bd".to_string(), 1)]);
}

#[test]
fn second_close_keeps_the_first_close_time() {
    let mut s = MemoryStorage::new();
    s.create_issue_at(&issue("bd-1", "first", 2, 100), "ann", at(100)).unwrap();
    assert_eq!(s.close_issue_at("bd-1", "done", "ann", at(500)), Ok(()));
    assert_eq!(s.close_issue_at("bd-1", "done again", "bob", at(900)), Ok(()));
    let got = s.get_issue("bd-1").unwrap();
    assert_eq!(got.status, Status::Closed);
    assert_eq!(got.closed_at, Some(at(500)));
    assert_eq!(got.updated_at, at(900));
    let events = s.get_events("bd-1", 1);
    assert_eq!(events[0].event_type, EventType::Closed);
    assert_eq!(events[0].comment, Some("done again".to_string()));
}

#[test]
fn reopened_issue_gets_a_new_close_time_when_closed_again() {
    let mut s = MemoryStorage::new();
    s.create_issue_at(&issue("bd-1", "first", 2, 100), "ann", at(100)).unwrap();
    s.close_issue_at("bd-1", "done", "ann", at(500)).unwrap();
    let mut u = IssueUpdates::default();
    u.status = Some(Status::Open);
    s.update_issue_at("bd-1", &u, "ann", at(600)).unwrap();
    assert_eq!(s.get_issue("bd-1").unwrap().closed_at, None);
    s.close_issue_at("bd-1", "done", "ann", at(700)).unwrap();
    assert_eq!(s.get_issue("bd-1").unwrap().closed_at, Some(at(700)));
}

#[test]
fn replacing_an_issue_supersedes_every_field() {
    let mut s = MemoryStorage::new();
    let mut first = issue("bd-1", "first", 2, 100);
    first.description = "old".to_string();
    first.external_ref = Some("gh-1".to_string());
    s.create_issue_at(&first, "ann", at(100)).unwrap();
    s.clear_dirty_issues();
    let mut next = issue("bd-1", "second", 0, 50);
    next.status = Status::Closed;
    next.closed_at = Some(at(70));
    next.updated_at = at(80);
    next.assignee = "bob".to_string();
    assert_eq!(s.replace_issue_at(&next, "imp", at(200)), Ok(()));
    let got = s.get_issue("bd-1").unwrap();
    assert_eq!(got.title, "second");
    assert_eq!(got.description, "");
    assert_eq!(got.external_ref, None);
    assert_eq!(got.priority, 0);
    assert_eq!(got.status, Status::Closed);
    assert_eq!(got.assignee, "bob");
    assert_eq!(got.created_at, at(50));
    assert_eq!(got.closed_at, Some(at(70)));
    assert_eq!(got.updated_at, at(200));
    let events = s.all_events();
    assert_eq!(events.len(), 3);
    assert_eq!(events[1].event_type, EventType::StatusChanged);
    assert_eq!(events[1].new_value, Some("closed".to_string()));
    assert_eq!(events[2].event_type, EventType::Updated);
    assert_eq!(s.get_dirty_issues(), vec!["bd-1".to_string()]);
}

#[test]
fn replacing_needs_a_stored_and_valid_issue() {
    let mut s = MemoryStorage::new();
    assert_eq!(
        s.replace_issue_at(&issue("bd-1", "x", 2, 1), "imp", at(2)),
        Err(TraceError::NotFound(Missing::Issue))
    );
    s.create_issue_at(&issue("bd-1", "first", 2, 100), "ann", at(100)).unwrap();
    let mut bad = issue("bd-1", "second", 2, 100);
    bad.status = Status::Closed;
    assert_eq!(
        s.replace_issue_at(&bad, "imp", at(200)),
        Err(TraceError::Validation(ValidationError::ClosedAtMismatch))
    );
    assert_eq!(s.get_issue("bd-1").unwrap().title, "first");
    assert_eq!(s.all_events().len(), 1);
    assert_eq!(s.replace_issue(&issue("bd-1", "third", 2, 100), "imp"), Ok(()));
    assert_eq!(s.get_issue("bd-1").unwrap().title, "third");
}
