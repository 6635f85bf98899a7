use tracer::error::{TraceError, ValidationError};
use tracer::hash::compute_hash;
use tracer::ident::{format_identifier, split_identifier};
use tracer::lines::{join_lines, line_is_blank, snapshot_lines};
use tracer::snapshot::{standing, Standing};
use tracer::types::{DependencyType, Timestamp};
use tracer::utils::{
    find_database_in_tree, find_database_path, find_jsonl_path, format_time_ago, get_actor,
    parse_dependency_spec,
    PathEntry,
};

#[test]
fn hash_of_nothing_is_the_known_digest() {
    assert_eq!(
        compute_hash(b""),
        "e3b0c44298fc1c149afbf4c8996fb92427ae41e4649b934ca495991b7852b855"
    );
}

#[test]
fn hash_of_abc_is_the_known_digest() {
    assert_eq!(
        compute_hash(b"abc"),
        "ba7816bf8f01cfea414140de5dae2223b00361a396177a9cb410ff61f20015ad"
    );
}

#[test]
fn identifiers_are_prefix_hyphen_number() {
    assert_eq!(format_identifier("bd", 1), "bd-1");
    assert_eq!(format_identifier("bd", 10), "bd-10");
    assert_eq!(format_identifier("proj", 12345), "proj-12345");
    assert_eq!(format_identifier("x", 0), "x-0");
    assert_eq!(format_identifier("x", u64::MAX), "x-18446744073709551615");
}

#[test]
fn lines_with_records_are_kept_and_blank_ones_dropped() {
    let data = b"{\"a\":1}\n\n   \n{\"b\":2}\r\n\t\n{\"c\":3}";
    let lines = snapshot_lines(data);
    assert_eq!(
        lines,
        vec![b"{\"a\":1}".to_vec(), b"{\"b\":2}".to_vec(), b"{\"c\":3}".to_vec()]
    );
}

#[test]
fn empty_data_has_no_lines() {
    assert!(snapshot_lines(b"").is_empty());
    assert!(snapshot_lines(b"\n\n").is_empty());
}

#[test]
fn carriage_return_is_only_part_of_a_line_ending() {
    let lines = snapshot_lines(b"a\rb\r\nc\r");
    assert_eq!(lines, vec![b"a\rb".to_vec(), b"c\r".to_vec()]);
}

#[test]
fn unicode_white_space_counts_as_blank() {
    assert!(line_is_blank("\u{00A0}\u{2003}\u{3000} \t".as_bytes()));
    assert!(line_is_blank("\u{0085}\u{1680}\u{2028}\u{2029}\u{202F}\u{205F}".as_bytes()));
    assert!(!line_is_blank("\u{200B}".as_bytes()));
    assert!(!line_is_blank(b" x "));
    assert!(line_is_blank(b""));
}

#[test]
fn joined_lines_are_framed_again_as_they_were() {
    let lines = vec![b"one".to_vec(), b"two".to_vec()];
    let data = join_lines(&lines);
    assert_eq!(data, b"one\ntwo\n".to_vec());
    assert_eq!(snapshot_lines(&data), lines);
}

#[test]
fn dependency_without_a_type_blocks() {
    assert_eq!(
        parse_dependency_spec("bd-1"),
        Ok((DependencyType::Blocks, "bd-1".to_string()))
    );
}

#[test]
fn dependency_with_a_type_is_split_at_the_first_colon() {
    assert_eq!(
        parse_dependency_spec("related:bd-7"),
        Ok((DependencyType::Related, "bd-7".to_string()))
    );
    assert_eq!(
        parse_dependency_spec("discovered-from:a:b"),
        Ok((DependencyType::DiscoveredFrom, "a:b".to_string()))
    );
    assert_eq!(
        parse_dependency_spec("blocks:"),
        Ok((DependencyType::Blocks, String::new()))
    );
}

#[test]
fn dependency_with_an_unknown_type_is_refused() {
    assert_eq!(
        parse_dependency_spec("needs:bd-1"),
        Err(TraceError::Validation(ValidationError::InvalidDependencyType))
    );
    assert_eq!(
        parse_dependency_spec(":bd-1"),
        Err(TraceError::Validation(ValidationError::InvalidDependencyType))
    );
}

#[test]
fn actor_is_the_first_name_that_is_set() {
    assert_eq!(get_actor(Some("a".into()), Some("b".into()), Some("c".into())), "a");
    assert_eq!(get_actor(None, Some("b".into()), Some("c".into())), "b");
    assert_eq!(get_actor(None, None, Some("c".into())), "c");
    assert_eq!(get_actor(None, None, None), "unknown");
}

fn entry(path: &str, ext: Option<&str>) -> PathEntry {
    PathEntry { path: path.to_string(), extension: ext.map(|e| e.to_string()) }
}

#[test]
fn snapshot_path_is_the_first_jsonl_file_or_the_default() {
    let entries = vec![
        entry("/p/.trace/bd.db", Some("db")),
        entry("/p/.trace/work.jsonl", Some("jsonl")),
        entry("/p/.trace/other.jsonl", Some("jsonl")),
    ];
    assert_eq!(find_jsonl_path(&entries, "/p/.trace/issues.jsonl"), "/p/.trace/work.jsonl");
    let none = vec![entry("/p/.trace/bd.db", Some("db")), entry("/p/.trace/README", None)];
    assert_eq!(find_jsonl_path(&none, "/p/.trace/issues.jsonl"), "/p/.trace/issues.jsonl");
}

#[test]
fn database_is_found_at_the_nearest_level() {
    let levels = vec![
        vec![entry("/a/b/.trace/notes.txt", Some("txt"))],
        vec![entry("/a/.trace/x.db", Some("db")), entry("/a/.trace/y.db", Some("db"))],
        vec![entry("/.trace/z.db", Some("db"))],
    ];
    assert_eq!(find_database_in_tree(&levels), Some("/a/.trace/x.db".to_string()));
    assert_eq!(find_database_in_tree(&Vec::new()), None);
}

#[test]
fn database_path_prefers_setting_then_tree_then_home() {
    let levels = vec![vec![entry("/a/.trace/x.db", Some("db"))]];
    assert_eq!(
        find_database_path(Some("/env.db".into()), &levels, Some("/home/u/.trace/default.db".into())),
        Some("/env.db".to_string())
    );
    assert_eq!(
        find_database_path(None, &levels, Some("/home/u/.trace/default.db".into())),
        Some("/a/.trace/x.db".to_string())
    );
    assert_eq!(
        find_database_path(None, &Vec::new(), Some("/home/u/.trace/default.db".into())),
        Some("/home/u/.trace/default.db".to_string())
    );
    assert_eq!(find_database_path(None, &Vec::new(), None), None);
}

#[test]
fn texts_stand_in_byte_order() {
    assert_eq!(standing("a", "b"), Standing::Before);
    assert_eq!(standing("b", "a"), Standing::After);
    assert_eq!(standing("bd-1", "bd-1"), Standing::Same);
    assert_eq!(standing("bd-1", "bd-10"), Standing::Before);
    assert_eq!(standing("bd-10", "bd-2"), Standing::Before);
    assert_eq!(standing("", "a"), Standing::Before);
    assert_eq!(standing("Z", "a"), Standing::Before);
    assert_eq!(standing("é", "z"), Standing::After);
}

#[test]
fn identifiers_fall_apart_into_prefix_and_number() {
    check_split("bd-12", Some(("bd", 12)));
    check_split("bd-007x", Some(("bd", 7)));
    check_split("bd-", Some(("bd", 0)));
    check_split("bd-x1", Some(("bd", 0)));
    check_split("my-proj-5", Some(("my", 0)));
    check_split("-5", Some(("", 5)));
    check_split("plain", None);
    check_split("", None);
    check_split("n-9223372036854775807", Some(("n", i64::MAX)));
    check_split("n-9223372036854775808", Some(("n", i64::MAX)));
    check_split("n-99999999999999999999999", Some(("n", i64::MAX)));
}

fn check_split(id: &str, expected: Option<(&str, i64)>) {
    let got = split_identifier(id);
    assert_eq!(got, expected.map(|(p, n)| (p.to_string(), n)));
}

#[test]
fn time_ago_is_said_in_the_largest_whole_unit() {
    let then = Timestamp { secs: 1_000_000, nanos: 500 };
    let after = |secs: i64, nanos: u32| Timestamp { secs: 1_000_000 + secs, nanos };
    assert_eq!(format_time_ago(&after(0, 500), &then), "just now");
    assert_eq!(format_time_ago(&after(59, 999_999_999), &then), "just now");
    assert_eq!(format_time_ago(&after(60, 499), &then), "just now");
    assert_eq!(format_time_ago(&after(60, 500), &then), "1 min ago");
    assert_eq!(format_time_ago(&after(3_599, 500), &then), "59 min ago");
    assert_eq!(format_time_ago(&after(3_600, 500), &then), "1 hours ago");
    assert_eq!(format_time_ago(&after(86_399, 500), &then), "23 hours ago");
    assert_eq!(format_time_ago(&after(86_400, 500), &then), "1 days ago");
    assert_eq!(format_time_ago(&after(864_000, 500), &then), "10 days ago");
    assert_eq!(format_time_ago(&after(-5, 0), &then), "just now");
    assert_eq!(format_time_ago(&after(-500_000, 0), &then), "just now");
}
