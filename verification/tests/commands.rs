use tracer::commands::{
    create_single, create_single_at, execute_add, execute_add_at, execute_close, execute_close_at,
    execute_update, execute_update_at, AddArgs, CloseArgs, CreateArgs, UpdateArgs,
};
use tracer::error::{Missing, StorageFault, TraceError, ValidationError};
use tracer::schema::{migrate_tables, Migration, SchemaState};
use tracer::storage::memory::load::StorageParts;
use tracer::storage::traverse::DEFAULT_MAX_DEPTH;
use tracer::storage::{MemoryStorage, Storage};
use tracer::types::{
    Dependency, DependencyType, Issue, IssueType, Label, Status, Timestamp, WorkFilter,
};

fn at(secs: i64) -> Timestamp {
    Timestamp { secs, nanos: 0 }
}

fn issue(id: &str, title: &str, priority: i32, created: i64) -> Issue {
    Issue {
        id: id.to_string(),
        title: title.to_string(),
        description: String::new(),
        design: String::new(),
        acceptance_criteria: String::new(),
        notes: String::new(),
        status: Status::Open,
        priority,
        issue_type: IssueType::Task,
        assignee: String::new(),
        estimated_minutes: None,
        created_at: at(created),
        updated_at: at(created),
        closed_at: None,
        external_ref: None,
        dependencies: Vec::new(),
    }
}

fn edge(from: &str, to: &str, dep_type: DependencyType, created: i64) -> Dependency {
    Dependency {
        issue_id: from.to_string(),
        depends_on_id: to.to_string(),
        dep_type,
        created_at: at(created),
        created_by: "someone".to_string(),
    }
}

fn ids(issues: &[Issue]) -> Vec<String> {
    issues.iter().map(|i| i.id.clone()).collect()
}

fn create_args(priority: i32) -> CreateArgs {
    CreateArgs {
        title: None,
        description: None,
        priority,
        issue_type: IssueType::Task,
        assignee: None,
        labels: Vec::new(),
        deps: Vec::new(),
        id: None,
    }
}

#[test]
fn created_issue_gets_the_next_identifier_labels_and_edges() {
    let mut s = MemoryStorage::new();
    let first = create_single_at(&create_args(2), "first", &mut s, "ann", "bd", at(10)).unwrap();
    assert_eq!(first.id, "bd-1");
    let mut args = create_args(1);
    args.description = Some("text".to_string());
    args.assignee = Some("bob".to_string());
    args.labels = vec!["ui".to_string(), "urgent".to_string()];
    args.deps = vec!["bd-1".to_string()];
    let second = create_single_at(&args, "second", &mut s, "ann", "bd", at(20)).unwrap();
    assert_eq!(second.id, "bd-2");
    assert_eq!(second.status, Status::Open);
    assert_eq!(second.created_at, at(20));
    assert_eq!(second.updated_at, at(20));
    let stored = s.get_issue("bd-2").unwrap();
    assert_eq!(stored.description, "text");
    assert_eq!(stored.assignee, "bob");
    assert_eq!(s.get_labels("bd-2"), vec!["ui", "urgent"]);
    let deps = s.get_dependency_records("bd-2");
    assert_eq!(deps.len(), 1);
    assert_eq!(deps[0].dep_type, DependencyType::Blocks);
    assert_eq!(deps[0].created_by, "ann");
    assert_eq!(ids(&s.get_ready_work(&WorkFilter::default())), vec!["bd-1"]);
}

#[test]
fn explicit_identifier_is_used_as_it_is() {
    let mut s = MemoryStorage::new();
    let mut args = create_args(2);
    args.id = Some("custom-7".to_string());
    let made = create_single_at(&args, "first", &mut s, "ann", "bd", at(10)).unwrap();
    assert_eq!(made.id, "custom-7");
    assert!(s.counter_entries().is_empty());
    let again = create_single_at(&args, "again", &mut s, "ann", "bd", at(11));
    assert_eq!(again.err(), Some(TraceError::Storage(StorageFault::DuplicateId)));
}

#[test]
fn creation_stops_at_the_first_bad_dependency() {
    let mut s = MemoryStorage::new();
    create_single_at(&create_args(2), "first", &mut s, "ann", "bd", at(10)).unwrap();
    let mut args = create_args(2);
    args.deps = vec!["related:bd-1".to_string(), "oops:bd-1".to_string()];
    let r = create_single_at(&args, "second", &mut s, "ann", "bd", at(20));
    assert_eq!(r.err(), Some(TraceError::Validation(ValidationError::InvalidDependencyType)));
    assert!(s.contains_issue("bd-2"));
    assert_eq!(s.get_dependency_records("bd-2").len(), 1);
    let mut args = create_args(2);
    args.deps = vec!["bd-404".to_string()];
    let r = create_single_at(&args, "third", &mut s, "ann", "bd", at(30));
    assert_eq!(r.err(), Some(TraceError::NotFound(Missing::DependsOn)));
}

#[test]
fn invalid_creation_uses_up_an_identifier_but_stores_nothing() {
    let mut s = MemoryStorage::new();
    let r = create_single_at(&create_args(9), "first", &mut s, "ann", "bd", at(10));
    assert_eq!(r.err(), Some(TraceError::Validation(ValidationError::PriorityOutOfRange)));
    assert!(s.all_issues().is_empty());
    let made = create_single_at(&create_args(2), "first", &mut s, "ann", "bd", at(10)).unwrap();
    assert_eq!(made.id, "bd-2");
}

#[test]
fn taking_an_issue_into_progress_assigns_it_to_the_actor() {
    let mut s = MemoryStorage::new();
    s.create_issue_at(&issue("bd-1", "first", 2, 1), "ann", at(1)).unwrap();
    let args = UpdateArgs {
        id: "bd-1".to_string(),
        title: None,
        description: None,
        status: Some(Status::InProgress),
        priority: None,
        issue_type: None,
        assignee: None,
    };
    assert_eq!(execute_update_at(&args, &mut s, "bob", at(10)), Ok(()));
    assert_eq!(s.get_issue("bd-1").unwrap().assignee, "bob");
    assert_eq!(execute_update_at(&args, &mut s, "carl", at(20)), Ok(()));
    assert_eq!(s.get_issue("bd-1").unwrap().assignee, "bob");
    let named = UpdateArgs {
        id: "bd-1".to_string(),
        title: None,
        description: None,
        status: Some(Status::InProgress),
        priority: None,
        issue_type: None,
        assignee: Some("dora".to_string()),
    };
    assert_eq!(execute_update_at(&named, &mut s, "carl", at(30)), Ok(()));
    assert_eq!(s.get_issue("bd-1").unwrap().assignee, "dora");
    let missing = UpdateArgs {
        id: "nope".to_string(),
        title: None,
        description: None,
        status: None,
        priority: None,
        issue_type: None,
        assignee: None,
    };
    assert_eq!(
        execute_update_at(&missing, &mut s, "carl", at(40)),
        Err(TraceError::NotFound(Missing::Issue))
    );
}

#[test]
fn closing_several_issues_stops_at_the_first_missing_one() {
    let mut s = MemoryStorage::new();
    s.create_issue_at(&issue("a", "a", 2, 1), "ann", at(1)).unwrap();
    s.create_issue_at(&issue("b", "b", 2, 1), "ann", at(1)).unwrap();
    let args = CloseArgs {
        ids: vec!["a".to_string(), "nope".to_string(), "b".to_string()],
        reason: "Completed".to_string(),
    };
    assert_eq!(
        execute_close_at(&args, &mut s, "ann", at(10)),
        Err(TraceError::NotFound(Missing::Issue))
    );
    assert_eq!(s.get_issue("a").unwrap().status, Status::Closed);
    assert_eq!(s.get_issue("b").unwrap().status, Status::Open);
}

#[test]
fn adding_an_edge_needs_both_ends() {
    let mut s = MemoryStorage::new();
    s.create_issue_at(&issue("a", "a", 2, 1), "ann", at(1)).unwrap();
    s.create_issue_at(&issue("b", "b", 2, 1), "ann", at(1)).unwrap();
    let args = AddArgs {
        issue_id: "a".to_string(),
        depends_on_id: "b".to_string(),
        dep_type: DependencyType::ParentChild,
    };
    let dep = execute_add_at(&args, &mut s, "ann", at(10)).unwrap();
    assert_eq!(dep.created_at, at(10));
    assert_eq!(dep.created_by, "ann");
    assert_eq!(s.get_issue("a").unwrap().updated_at, at(10));
    let missing_from = AddArgs {
        issue_id: "x".to_string(),
        depends_on_id: "b".to_string(),
        dep_type: DependencyType::Blocks,
    };
    assert_eq!(
        execute_add_at(&missing_from, &mut s, "ann", at(11)).err(),
        Some(TraceError::NotFound(Missing::Issue))
    );
    let missing_to = AddArgs {
        issue_id: "a".to_string(),
        depends_on_id: "y".to_string(),
        dep_type: DependencyType::Blocks,
    };
    assert_eq!(
        execute_add_at(&missing_to, &mut s, "ann", at(12)).err(),
        Some(TraceError::NotFound(Missing::DependsOn))
    );
}

#[test]
fn commands_at_the_current_time_work() {
    let mut s = MemoryStorage::new();
    let made = create_single(&create_args(2), "first", &mut s, "ann", "bd").unwrap();
    assert_eq!(made.id, "bd-1");
    assert!(made.created_at.secs > 1_600_000_000);
    create_single(&create_args(2), "second", &mut s, "ann", "bd").unwrap();
    let add = AddArgs {
        issue_id: "bd-2".to_string(),
        depends_on_id: "bd-1".to_string(),
        dep_type: DependencyType::Blocks,
    };
    assert!(execute_add(&add, &mut s, "ann").is_ok());
    let update = UpdateArgs {
        id: "bd-1".to_string(),
        title: Some("renamed".to_string()),
        description: None,
        status: None,
        priority: None,
        issue_type: None,
        assignee: None,
    };
    assert_eq!(execute_update(&update, &mut s, "ann"), Ok(()));
    let close = CloseArgs { ids: vec!["bd-1".to_string()], reason: "done".to_string() };
    assert_eq!(execute_close(&close, &mut s, "ann"), Ok(()));
    assert_eq!(ids(&s.get_ready_work(&WorkFilter::default())), vec!["bd-2"]);
}

#[test]
fn second_edge_between_a_pair_replaces_the_first() {
    let mut s = MemoryStorage::new();
    s.create_issue_at(&issue("a", "a", 2, 1), "ann", at(1)).unwrap();
    s.create_issue_at(&issue("b", "b", 2, 1), "ann", at(1)).unwrap();
    s.add_dependency_at(&edge("a", "b", DependencyType::Blocks, 2), "ann", at(2)).unwrap();
    assert_eq!(s.get_blocked_issues().len(), 1);
    s.add_dependency_at(&edge("a", "b", DependencyType::Related, 3), "bob", at(3)).unwrap();
    let deps = s.get_all_dependency_records();
    assert_eq!(deps.len(), 1);
    assert_eq!(deps[0].dep_type, DependencyType::Related);
    assert_eq!(deps[0].created_by, "bob");
    assert!(s.get_blocked_issues().is_empty());
    assert_eq!(ids(&s.get_dependencies("a")), vec!["b"]);
    assert_eq!(ids(&s.get_dependents("b")), vec!["a"]);
    s.remove_dependency_at("a", "b", "ann", at(4)).unwrap();
    s.remove_dependency_at("a", "b", "ann", at(5)).unwrap();
    assert!(s.get_all_dependency_records().is_empty());
    assert_eq!(
        s.remove_dependency_at("zz", "b", "ann", at(6)),
        Err(TraceError::NotFound(Missing::Issue))
    );
    assert_eq!(s.add_dependency(&edge("a", "b", DependencyType::Blocks, 7), "ann"), Ok(()));
    assert_eq!(s.remove_dependency("a", "b", "ann"), Ok(()));
}

#[test]
fn informational_edges_do_not_block() {
    let mut s = MemoryStorage::new();
    s.create_issue_at(&issue("a", "a", 2, 1), "ann", at(1)).unwrap();
    s.create_issue_at(&issue("b", "b", 2, 2), "ann", at(2)).unwrap();
    s.create_issue_at(&issue("c", "c", 2, 3), "ann", at(3)).unwrap();
    s.create_issue_at(&issue("d", "d", 2, 4), "ann", at(4)).unwrap();
    s.add_dependency_at(&edge("a", "b", DependencyType::Related, 5), "ann", at(5)).unwrap();
    s.add_dependency_at(&edge("a", "c", DependencyType::ParentChild, 5), "ann", at(5)).unwrap();
    s.add_dependency_at(&edge("a", "d", DependencyType::DiscoveredFrom, 5), "ann", at(5)).unwrap();
    assert_eq!(ids(&s.get_ready_work(&WorkFilter::default())), vec!["d", "c", "b", "a"]);
    assert!(s.blockers_of("a").is_empty());
    let mut f = WorkFilter::default();
    f.limit = Some(1);
    assert_eq!(ids(&s.get_ready_work(&f)), vec!["d"]);
    f.limit = None;
    f.priority = Some(3);
    assert!(s.get_ready_work(&f).is_empty());
    f.priority = None;
    f.assignee = Some("nobody".to_string());
    assert!(s.get_ready_work(&f).is_empty());
}

#[test]
fn tree_visits_each_issue_once_and_survives_cycles() {
    let mut s = MemoryStorage::new();
    for (k, id) in ["r", "a", "b", "c"].iter().enumerate() {
        s.create_issue_at(&issue(id, id, 2, k as i64), "ann", at(1)).unwrap();
    }
    s.add_dependency_at(&edge("r", "a", DependencyType::Blocks, 5), "ann", at(5)).unwrap();
    s.add_dependency_at(&edge("r", "b", DependencyType::Blocks, 5), "ann", at(5)).unwrap();
    s.add_dependency_at(&edge("a", "c", DependencyType::Blocks, 5), "ann", at(5)).unwrap();
    s.add_dependency_at(&edge("b", "c", DependencyType::Blocks, 5), "ann", at(5)).unwrap();
    s.add_dependency_at(&edge("c", "r", DependencyType::Blocks, 5), "ann", at(5)).unwrap();
    let tree = s.get_dependency_tree("r", DEFAULT_MAX_DEPTH);
    let seen: Vec<(String, i32, bool)> =
        tree.iter().map(|n| (n.issue.id.clone(), n.depth, n.truncated)).collect();
    assert_eq!(
        seen,
        vec![
            ("r".to_string(), 0, false),
            ("a".to_string(), 1, false),
            ("c".to_string(), 2, false),
            ("b".to_string(), 1, false),
        ]
    );
    let root_only = s.get_dependency_tree("r", 0);
    assert_eq!(root_only.len(), 1);
    assert!(root_only[0].truncated);
    assert!(s.get_dependency_tree("r", -1).is_empty());
    assert!(s.get_dependency_tree("missing", 5).is_empty());
}

#[test]
fn cycles_are_found_per_start_and_an_acyclic_graph_has_none() {
    let mut s = MemoryStorage::new();
    for (k, id) in ["a", "b", "c", "d"].iter().enumerate() {
        s.create_issue_at(&issue(id, id, 2, k as i64), "ann", at(1)).unwrap();
    }
    s.add_dependency_at(&edge("a", "b", DependencyType::Blocks, 5), "ann", at(5)).unwrap();
    s.add_dependency_at(&edge("b", "c", DependencyType::Blocks, 5), "ann", at(5)).unwrap();
    s.add_dependency_at(&edge("a", "c", DependencyType::Blocks, 5), "ann", at(5)).unwrap();
    assert!(s.detect_cycles().is_empty());
    s.add_dependency_at(&edge("c", "b", DependencyType::Related, 5), "ann", at(5)).unwrap();
    let cycles = s.detect_cycles();
    assert_eq!(cycles.len(), 1);
    assert_eq!(ids(&cycles[0]), vec!["b", "c"]);
    s.add_dependency_at(&edge("d", "d", DependencyType::Related, 5), "ann", at(5)).unwrap();
    let cycles = s.detect_cycles();
    assert_eq!(cycles.len(), 2);
    assert_eq!(ids(&cycles[1]), vec!["d"]);
}

#[test]
fn fresh_database_gets_every_step() {
    let fresh = SchemaState {
        has_dirty_table: false,
        has_counters_table: false,
        has_counter_rows: false,
        has_external_ref: false,
        has_metadata_table: false,
    };
    assert_eq!(
        migrate_tables(fresh),
        vec![
            Migration::CreateDirtyTable,
            Migration::CreateCountersTable,
            Migration::SyncCounters,
            Migration::AddExternalRefColumn,
            Migration::CreateMetadataTable,
        ]
    );
}

#[test]
fn current_database_gets_no_step() {
    let current = SchemaState {
        has_dirty_table: true,
        has_counters_table: true,
        has_counter_rows: true,
        has_external_ref: true,
        has_metadata_table: true,
    };
    assert!(migrate_tables(current).is_empty());
    let empty_counters = SchemaState { has_counter_rows: false, ..current };
    assert_eq!(migrate_tables(empty_counters), vec![Migration::SyncCounters]);
    let old = SchemaState { has_external_ref: false, has_metadata_table: false, ..current };
    assert_eq!(
        migrate_tables(old),
        vec![Migration::AddExternalRefColumn, Migration::CreateMetadataTable]
    );
}

fn parts() -> StorageParts {
    StorageParts {
        issues: vec![issue("a", "a", 2, 1), issue("b", "b", 2, 2)],
        dependencies: vec![edge("a", "b", DependencyType::Blocks, 3)],
        labels: vec![Label { issue_id: "a".to_string(), label: "ui".to_string() }],
        events: Vec::new(),
        dirty: vec!["b".to_string()],
        counters: vec![("bd".to_string(), 4)],
        config: vec![("prefix".to_string(), "bd".to_string())],
        metadata: Vec::new(),
    }
}

#[test]
fn lists_that_fit_together_make_a_store() {
    let mut s = MemoryStorage::from_parts(parts()).unwrap();
    assert_eq!(ids(&s.all_issues()), vec!["a", "b"]);
    assert_eq!(s.blockers_of("a"), vec!["b".to_string()]);
    assert_eq!(s.get_labels("a"), vec!["ui"]);
    assert_eq!(s.get_dirty_issues(), vec!["b"]);
    assert_eq!(s.get_config("prefix"), Some("bd".to_string()));
    assert_eq!(s.generate_id("bd"), Ok("bd-5".to_string()));
    assert!(s.metadata_entries().is_empty());
}

#[test]
fn lists_that_do_not_fit_are_refused() {
    let fault = Some(TraceError::Storage(StorageFault::Inconsistent));
    let mut p = parts();
    p.issues.push(issue("a", "twice", 2, 1));
    assert_eq!(MemoryStorage::from_parts(p).err(), fault);
    let mut p = parts();
    p.issues[0].priority = 9;
    assert_eq!(MemoryStorage::from_parts(p).err(), fault);
    let mut p = parts();
    p.dependencies.push(edge("a", "ghost", DependencyType::Blocks, 3));
    assert_eq!(MemoryStorage::from_parts(p).err(), fault);
    let mut p = parts();
    p.dependencies.push(edge("a", "b", DependencyType::Related, 3));
    assert_eq!(MemoryStorage::from_parts(p).err(), fault);
    let mut p = parts();
    p.labels.push(Label { issue_id: "zz".to_string(), label: "ui".to_string() });
    assert_eq!(MemoryStorage::from_parts(p).err(), fault);
    let mut p = parts();
    p.dirty.push("b".to_string());
    assert_eq!(MemoryStorage::from_parts(p).err(), fault);
    let mut p = parts();
    p.counters.push(("x".to_string(), -1));
    assert_eq!(MemoryStorage::from_parts(p).err(), fault);
}
