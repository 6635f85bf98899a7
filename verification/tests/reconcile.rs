use tracer::error::{Missing, StorageFault, TraceError, ValidationError};
use tracer::storage::{MemoryStorage, Storage};
use tracer::sync::{
    auto_export, auto_import, auto_import_at, auto_import_for_at, execute_export, execute_import,
    execute_import_at, import_due, import_due_for, import_issues_at, ImportArgs, ImportReport,
    ImportSummary, LAST_IMPORT_HASH,
};
use tracer::hash::compute_hash;
use tracer::storage::memory::load::StorageParts;
use tracer::types::{
    Dependency, DependencyType, Event, EventType, Issue, IssueType, Status, Timestamp,
};

fn at(secs: i64) -> Timestamp {
    Timestamp { secs, nanos: 0 }
}

fn issue(id: &str, title: &str, priority: i32, created: i64) -> Issue {
    Issue {
        id: id.to_string(),
        title: title.to_string(),
        description: String::new(),
        design: String::new(),
        acceptance_criteria: String::new(),
        notes: String::new(),
        status: Status::Open,
        priority,
        issue_type: IssueType::Task,
        assignee: String::new(),
        estimated_minutes: None,
        created_at: at(created),
        updated_at: at(created),
        closed_at: None,
        external_ref: None,
        dependencies: Vec::new(),
    }
}

fn edge(from: &str, to: &str, dep_type: DependencyType, created: i64) -> Dependency {
    Dependency {
        issue_id: from.to_string(),
        depends_on_id: to.to_string(),
        dep_type,
        created_at: at(created),
        created_by: "someone".to_string(),
    }
}

fn ids(issues: &[Issue]) -> Vec<String> {
    issues.iter().map(|i| i.id.clone()).collect()
}

#[test]
fn same_snapshot_is_taken_in_once() {
    let mut s = MemoryStorage::new();
    let data = b"{\"id\":\"bd-1\"}\n";
    let records = vec![issue("bd-1", "first", 2, 100)];
    assert!(import_due(&s, data));
    assert_eq!(auto_import_at(&mut s, data, &records, "ann", at(200)), Ok(true));
    assert_eq!(s.get_metadata(LAST_IMPORT_HASH), Some(compute_hash(data)));
    assert!(!import_due(&s, data));
    let events_before = s.all_events().len();
    let dirty_before = s.get_dirty_issues();
    assert_eq!(auto_import_at(&mut s, data, &records, "ann", at(300)), Ok(false));
    assert_eq!(s.all_events().len(), events_before);
    assert_eq!(s.get_dirty_issues(), dirty_before);
    assert_eq!(s.get_issue("bd-1").unwrap().updated_at, at(100));
    assert_eq!(auto_import(&mut s, data, &records, "ann"), Ok(false));
}

#[test]
fn changed_snapshot_is_taken_in_again() {
    let mut s = MemoryStorage::new();
    let records = vec![issue("bd-1", "first", 2, 100)];
    assert_eq!(auto_import_at(&mut s, b"one", &records, "ann", at(200)), Ok(true));
    let records = vec![issue("bd-1", "renamed", 1, 100)];
    assert_eq!(auto_import_at(&mut s, b"two", &records, "ann", at(300)), Ok(true));
    let got = s.get_issue("bd-1").unwrap();
    assert_eq!(got.title, "renamed");
    assert_eq!(got.priority, 1);
    assert_eq!(got.updated_at, at(300));
    assert_eq!(s.get_metadata(LAST_IMPORT_HASH), Some(compute_hash(b"two")));
}

#[test]
fn failed_import_does_not_record_the_hash() {
    let mut s = MemoryStorage::new();
    let records = vec![issue("bd-1", "first", 2, 100), issue("bd-2", "", 2, 100)];
    assert_eq!(
        auto_import_at(&mut s, b"bad", &records, "ann", at(200)),
        Err(TraceError::Validation(ValidationError::EmptyTitle))
    );
    assert_eq!(s.get_metadata(LAST_IMPORT_HASH), None);
    assert!(s.contains_issue("bd-1"));
    assert!(!s.contains_issue("bd-2"));
    assert!(import_due(&s, b"bad"));
}

#[test]
fn import_adds_edges_and_never_removes_them() {
    let mut s = MemoryStorage::new();
    s.create_issue_at(&issue("a", "a", 2, 1), "ann", at(1)).unwrap();
    s.create_issue_at(&issue("b", "b", 2, 2), "ann", at(2)).unwrap();
    s.create_issue_at(&issue("c", "c", 2, 3), "ann", at(3)).unwrap();
    s.add_dependency_at(&edge("a", "b", DependencyType::Blocks, 4), "ann", at(4)).unwrap();
    let mut record = issue("a", "a2", 2, 1);
    record.dependencies = vec![edge("a", "c", DependencyType::Related, 5)];
    let summary = import_issues_at(&mut s, &vec![record], false, "imp", at(10)).unwrap();
    assert_eq!(summary, ImportSummary { created: 0, updated: 1, skipped: 0 });
    let deps = s.get_dependency_records("a");
    assert_eq!(deps.len(), 2);
    assert_eq!(deps[0].depends_on_id, "b");
    assert_eq!(deps[1].depends_on_id, "c");
    assert_eq!(deps[1].dep_type, DependencyType::Related);
    assert_eq!(deps[1].created_by, "imp");
    let mut record = issue("a", "a3", 2, 1);
    record.dependencies = vec![edge("a", "c", DependencyType::Related, 5)];
    let events_before = s.all_events().len();
    import_issues_at(&mut s, &vec![record], false, "imp", at(20)).unwrap();
    assert_eq!(s.get_dependency_records("a").len(), 2);
    assert_eq!(s.all_events().len(), events_before + 2);
}

#[test]
fn import_counts_created_updated_and_skipped() {
    let mut s = MemoryStorage::new();
    s.create_issue_at(&issue("a", "a", 2, 1), "ann", at(1)).unwrap();
    let records = vec![issue("a", "changed", 2, 1), issue("b", "b", 2, 2), issue("c", "c", 2, 3)];
    let summary = import_issues_at(&mut s, &records, true, "imp", at(10)).unwrap();
    assert_eq!(summary, ImportSummary { created: 2, updated: 0, skipped: 1 });
    assert_eq!(s.get_issue("a").unwrap().title, "a");
    let summary = import_issues_at(&mut s, &records, false, "imp", at(20)).unwrap();
    assert_eq!(summary, ImportSummary { created: 0, updated: 3, skipped: 0 });
    assert_eq!(s.get_issue("a").unwrap().title, "changed");
}

#[test]
fn import_of_an_edge_to_a_missing_issue_fails() {
    let mut s = MemoryStorage::new();
    let mut record = issue("a", "a", 2, 1);
    record.dependencies = vec![edge("a", "ghost", DependencyType::Blocks, 5)];
    assert_eq!(
        import_issues_at(&mut s, &vec![record], false, "imp", at(10)),
        Err(TraceError::NotFound(Missing::DependsOn))
    );
    assert!(s.contains_issue("a"));
}

#[test]
fn marks_are_exactly_the_changed_issues_and_export_clears_them() {
    let mut s = MemoryStorage::new();
    s.create_issue_at(&issue("bd-3", "c", 2, 3), "ann", at(3)).unwrap();
    s.create_issue_at(&issue("bd-1", "a", 2, 1), "ann", at(1)).unwrap();
    s.create_issue_at(&issue("bd-2", "b", 2, 2), "ann", at(2)).unwrap();
    s.clear_dirty_issues();
    assert!(auto_export(&s, &Vec::new()).is_none());

    s.add_comment_at("bd-2", "ann", "x", at(10)).unwrap();
    s.close_issue_at("bd-1", "done", "ann", at(11)).unwrap();
    s.add_comment_at("bd-2", "ann", "y", at(12)).unwrap();
    assert_eq!(s.get_dirty_issues(), vec!["bd-2", "bd-1"]);

    let written = auto_export(&s, &Vec::new()).unwrap();
    assert_eq!(ids(&written), vec!["bd-1", "bd-2"]);
    s.clear_dirty_issues();
    assert!(s.get_dirty_issues().is_empty());
    assert!(auto_export(&s, &written).is_none());
}

#[test]
fn export_merges_changed_issues_into_the_existing_records() {
    let mut s = MemoryStorage::new();
    s.create_issue_at(&issue("bd-1", "a", 2, 1), "ann", at(1)).unwrap();
    s.create_issue_at(&issue("bd-2", "b", 2, 2), "ann", at(2)).unwrap();
    s.add_dependency_at(&edge("bd-2", "bd-1", DependencyType::Blocks, 3), "ann", at(3)).unwrap();
    s.clear_dirty_issues();
    s.add_comment_at("bd-2", "ann", "x", at(10)).unwrap();

    let existing = vec![
        issue("bd-9", "only in file", 2, 9),
        issue("bd-2", "stale", 2, 2),
        issue("bd-0", "older", 2, 0),
        issue("bd-9", "only in file, later line", 2, 9),
    ];
    let written = auto_export(&s, &existing).unwrap();
    assert_eq!(ids(&written), vec!["bd-0", "bd-2", "bd-9"]);
    assert_eq!(written[1].title, "b");
    assert_eq!(written[1].dependencies.len(), 1);
    assert_eq!(written[1].dependencies[0].depends_on_id, "bd-1");
    assert_eq!(written[2].title, "only in file, later line");
}

#[test]
fn full_export_is_sorted_and_carries_edges() {
    let mut s = MemoryStorage::new();
    s.create_issue_at(&issue("bd-2", "b", 2, 2), "ann", at(2)).unwrap();
    s.create_issue_at(&issue("bd-10", "j", 2, 10), "ann", at(10)).unwrap();
    s.create_issue_at(&issue("bd-1", "a", 2, 1), "ann", at(1)).unwrap();
    s.add_dependency_at(&edge("bd-2", "bd-1", DependencyType::Related, 3), "ann", at(3)).unwrap();
    s.close_issue_at("bd-10", "done", "ann", at(20)).unwrap();
    let all = execute_export(&s, None);
    assert_eq!(ids(&all), vec!["bd-1", "bd-10", "bd-2"]);
    assert_eq!(all[2].dependencies.len(), 1);
    let closed = execute_export(&s, Some(Status::Closed));
    assert_eq!(ids(&closed), vec!["bd-10"]);
    assert!(execute_export(&s, Some(Status::Blocked)).is_empty());
}

#[test]
fn exported_issue_comes_back_without_its_labels() {
    let mut s = MemoryStorage::new();
    s.create_issue_at(&issue("bd-1", "base", 3, 1), "ann", at(1)).unwrap();
    let mut second = issue("bd-2", "with labels", 1, 2);
    second.status = Status::InProgress;
    s.create_issue_at(&second, "ann", at(2)).unwrap();
    s.add_label_at("bd-2", "ui", "ann", at(3)).unwrap();
    s.add_label_at("bd-2", "urgent", "ann", at(4)).unwrap();
    s.add_dependency_at(&edge("bd-2", "bd-1", DependencyType::Blocks, 5), "ann", at(5)).unwrap();
    let written = auto_export(&s, &Vec::new()).unwrap();
    assert_eq!(ids(&written), vec!["bd-1", "bd-2"]);

    let mut fresh = MemoryStorage::new();
    assert_eq!(auto_import_at(&mut fresh, b"snapshot", &written, "imp", at(100)), Ok(true));
    let got = fresh.get_issue("bd-2").unwrap();
    assert_eq!(got.title, "with labels");
    assert_eq!(got.status, Status::InProgress);
    assert_eq!(got.priority, 1);
    let deps = fresh.get_dependency_records("bd-2");
    assert_eq!(deps.len(), 1);
    assert_eq!(deps[0].depends_on_id, "bd-1");
    assert_eq!(deps[0].dep_type, DependencyType::Blocks);
    assert!(fresh.get_labels("bd-2").is_empty());
    assert!(fresh.all_labels().is_empty());
}

#[test]
fn full_event_log_is_a_storage_fault() {
    let parts = StorageParts {
        issues: vec![issue("a", "a", 2, 1)],
        dependencies: Vec::new(),
        labels: Vec::new(),
        events: vec![Event {
            id: i64::MAX,
            issue_id: "a".to_string(),
            event_type: EventType::Created,
            actor: "ann".to_string(),
            old_value: None,
            new_value: None,
            comment: None,
            created_at: at(1),
        }],
        dirty: Vec::new(),
        counters: vec![("bd".to_string(), i64::MAX)],
        config: Vec::new(),
        metadata: Vec::new(),
    };
    let mut s = MemoryStorage::from_parts(parts).unwrap();
    assert_eq!(
        s.add_comment_at("a", "ann", "x", at(2)),
        Err(TraceError::Storage(StorageFault::EventLogFull))
    );
    assert_eq!(
        s.create_issue_at(&issue("b", "b", 2, 1), "ann", at(2)),
        Err(TraceError::Storage(StorageFault::EventLogFull))
    );
    assert_eq!(s.generate_id("bd"), Err(TraceError::Storage(StorageFault::CounterExhausted)));
    assert_eq!(s.generate_id("other"), Ok("other-1".to_string()));
}

#[test]
fn dry_run_counts_the_records_and_changes_nothing() {
    let mut s = MemoryStorage::new();
    let records = vec![issue("a", "a", 2, 1), issue("b", "b", 2, 2)];
    let dry = ImportArgs { skip_existing: false, dry_run: true };
    assert_eq!(
        execute_import_at(dry, &records, &mut s, "imp", at(5)),
        Ok(ImportReport::DryRun { records: 2 })
    );
    assert!(s.all_issues().is_empty());
    let real = ImportArgs { skip_existing: false, dry_run: false };
    assert_eq!(
        execute_import(real, &records, &mut s, "imp"),
        Ok(ImportReport::Done(ImportSummary { created: 2, updated: 0, skipped: 0 }))
    );
    assert_eq!(s.all_issues().len(), 2);
}

#[test]
fn import_over_a_stored_issue_takes_every_field_from_the_record() {
    let mut s = MemoryStorage::new();
    s.create_issue_at(&issue("bd-1", "stored", 2, 100), "ann", at(100)).unwrap();
    let mut record = issue("bd-1", "from the snapshot", 1, 40);
    record.status = Status::Closed;
    record.closed_at = Some(at(60));
    record.updated_at = at(61);
    assert_eq!(auto_import_at(&mut s, b"data", &vec![record], "imp", at(500)), Ok(true));
    let got = s.get_issue("bd-1").unwrap();
    assert_eq!(got.title, "from the snapshot");
    assert_eq!(got.priority, 1);
    assert_eq!(got.status, Status::Closed);
    assert_eq!(got.created_at, at(40));
    assert_eq!(got.closed_at, Some(at(60)));
    assert_eq!(got.updated_at, at(500));
}

#[test]
fn import_by_hash_is_gated_by_the_kept_hash() {
    let mut s = MemoryStorage::new();
    let records = vec![issue("bd-1", "first", 2, 100)];
    assert!(import_due_for(&s, "abc"));
    assert_eq!(auto_import_for_at(&mut s, "abc", &records, "imp", at(200)), Ok(true));
    assert_eq!(s.get_metadata(LAST_IMPORT_HASH), Some("abc".to_string()));
    assert!(!import_due_for(&s, "abc"));
    assert!(import_due_for(&s, "abd"));
    let events = s.all_events().len();
    assert_eq!(auto_import_for_at(&mut s, "abc", &records, "imp", at(300)), Ok(false));
    assert_eq!(s.all_events().len(), events);
    assert_eq!(auto_import_for_at(&mut s, "abd", &records, "imp", at(400)), Ok(true));
    assert_eq!(s.get_issue("bd-1").unwrap().updated_at, at(400));
}
