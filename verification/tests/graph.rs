use tracer::storage::{MemoryStorage, Storage};
use tracer::types::{
    Dependency, DependencyType, Issue, IssueType, Status, Timestamp, WorkFilter,
};

fn at(secs: i64) -> Timestamp {
    Timestamp { secs, nanos: 0 }
}

fn issue(id: &str, title: &str, priority: i32, created: i64) -> Issue {
    Issue {
        id: id.to_string(),
        title: title.to_string(),
        description: String::new(),
        design: String::new(),
        acceptance_criteria: String::new(),
        notes: String::new(),
        status: Status::Open,
        priority,
        issue_type: IssueType::Task,
        assignee: String::new(),
        estimated_minutes: None,
        created_at: at(created),
        updated_at: at(created),
        closed_at: None,
        external_ref: None,
        dependencies: Vec::new(),
    }
}

fn edge(from: &str, to: &str, dep_type: DependencyType, created: i64) -> Dependency {
    Dependency {
        issue_id: from.to_string(),
        depends_on_id: to.to_string(),
        dep_type,
        created_at: at(created),
        created_by: "someone".to_string(),
    }
}

fn ids(issues: &[Issue]) -> Vec<String> {
    issues.iter().map(|i| i.id.clone()).collect()
}

#[test]
fn blocked_issue_becomes_ready_when_its_blocker_closes() {
    let mut s = MemoryStorage::new();
    s.create_issue_at(&issue("bd-1", "first", 2, 100), "ann", at(100)).unwrap();
    s.create_issue_at(&issue("bd-2", "second", 1, 200), "ann", at(200)).unwrap();
    s.add_dependency_at(&edge("bd-2", "bd-1", DependencyType::Blocks, 300), "ann", at(300)).unwrap();

    let ready = s.get_ready_work(&WorkFilter::default());
    assert_eq!(ids(&ready), vec!["bd-1".to_string()]);

    let blocked = s.get_blocked_issues();
    assert_eq!(blocked.len(), 1);
    assert_eq!(blocked[0].issue.id, "bd-2");
    assert_eq!(blocked[0].blocked_by, vec!["bd-1".to_string()]);
    assert_eq!(blocked[0].blocked_by_count, 1);

    s.close_issue_at("bd-1", "done", "ann", at(400)).unwrap();
    let ready = s.get_ready_work(&WorkFilter::default());
    assert_eq!(ids(&ready), vec!["bd-2".to_string()]);
    assert!(s.get_blocked_issues().is_empty());
}

#[test]
fn tree_of_depth_one_stops_at_the_first_level() {
    let mut s = MemoryStorage::new();
    s.create_issue_at(&issue("root", "root", 2, 1), "ann", at(1)).unwrap();
    s.create_issue_at(&issue("a", "a", 2, 2), "ann", at(2)).unwrap();
    s.create_issue_at(&issue("b", "b", 2, 3), "ann", at(3)).unwrap();
    s.add_dependency_at(&edge("root", "a", DependencyType::Blocks, 4), "ann", at(4)).unwrap();
    s.add_dependency_at(&edge("a", "b", DependencyType::Blocks, 5), "ann", at(5)).unwrap();

    let tree = s.get_dependency_tree("root", 1);
    assert_eq!(tree.len(), 2);
    assert_eq!(tree[0].issue.id, "root");
    assert_eq!(tree[0].depth, 0);
    assert!(!tree[0].truncated);
    assert_eq!(tree[1].issue.id, "a");
    assert_eq!(tree[1].depth, 1);
    assert!(tree[1].truncated);
}

#[test]
fn three_cycle_is_reported_in_edge_order() {
    let mut s = MemoryStorage::new();
    s.create_issue_at(&issue("A", "a", 2, 1), "ann", at(1)).unwrap();
    s.create_issue_at(&issue("B", "b", 2, 2), "ann", at(2)).unwrap();
    s.create_issue_at(&issue("C", "c", 2, 3), "ann", at(3)).unwrap();
    s.add_dependency_at(&edge("A", "B", DependencyType::Blocks, 4), "ann", at(4)).unwrap();
    s.add_dependency_at(&edge("B", "C", DependencyType::Related, 5), "ann", at(5)).unwrap();
    s.add_dependency_at(&edge("C", "A", DependencyType::ParentChild, 6), "ann", at(6)).unwrap();

    let cycles = s.detect_cycles();
    assert_eq!(cycles.len(), 1);
    assert_eq!(ids(&cycles[0]), vec!["A".to_string(), "B".to_string(), "C".to_string()]);
}

#[test]
fn issue_can_stand_in_more_than_one_reported_cycle() {
    let mut s = MemoryStorage::new();
    s.create_issue_at(&issue("A", "a", 2, 1), "ann", at(1)).unwrap();
    s.create_issue_at(&issue("B", "b", 2, 2), "ann", at(2)).unwrap();
    s.create_issue_at(&issue("C", "c", 2, 3), "ann", at(3)).unwrap();
    s.add_dependency_at(&edge("A", "B", DependencyType::Blocks, 4), "ann", at(4)).unwrap();
    s.add_dependency_at(&edge("B", "C", DependencyType::Blocks, 5), "ann", at(5)).unwrap();
    s.add_dependency_at(&edge("C", "A", DependencyType::Blocks, 6), "ann", at(6)).unwrap();
    s.add_dependency_at(&edge("C", "B", DependencyType::Blocks, 7), "ann", at(7)).unwrap();

    let cycles = s.detect_cycles();
    assert_eq!(cycles.len(), 2);
    assert_eq!(ids(&cycles[0]), vec!["A".to_string(), "B".to_string(), "C".to_string()]);
    assert_eq!(ids(&cycles[1]), vec!["B".to_string(), "C".to_string()]);
}

#[test]
fn long_chain_is_searched_to_its_end() {
    let mut s = MemoryStorage::new();
    let n = 60;
    for k in 0..n {
        s.create_issue_at(&issue(&format!("n{}", k), "x", 2, k), "ann", at(k)).unwrap();
    }
    for k in (0..n - 1).rev() {
        let from = format!("n{}", k);
        let to = format!("n{}", k + 1);
        s.add_dependency_at(&edge(&from, &to, DependencyType::Blocks, 100), "ann", at(100)).unwrap();
    }
    assert!(s.detect_cycles().is_empty());
    let last = format!("n{}", n - 1);
    s.add_dependency_at(&edge(&last, "n0", DependencyType::Related, 200), "ann", at(200)).unwrap();
    let cycles = s.detect_cycles();
    assert_eq!(cycles.len(), 1);
    assert_eq!(cycles[0].len(), 60);
    let tree = s.get_dependency_tree("n0", 50);
    assert_eq!(tree.len(), 51);
    assert!(tree[50].truncated);
    assert!(!tree[49].truncated);
    assert_eq!(ids(&s.get_ready_work(&WorkFilter::default())), vec!["n59".to_string()]);
}
