use sqlness::config::Config;
use sqlness::discovery::{
    case_identity, collect_case_paths, collect_env, sort_by_key, DirEntry, KeyedCase, WalkEntry,
};

fn config(filter: &str) -> Config {
    Config {
        case_dir: "cases".to_string(),
        env_config_file: "config.toml".to_string(),
        fail_fast: true,
        test_case_extension: "sql".to_string(),
        expect_result_extension: "result".to_string(),
        output_result_extension: "output".to_string(),
        test_filter: filter.to_string(),
    }
}

fn a_file(path: &str) -> WalkEntry {
    WalkEntry { path: Some(path.to_string()), is_file: true }
}

fn a_directory(path: &str) -> WalkEntry {
    WalkEntry { path: Some(path.to_string()), is_file: false }
}

fn unreadable() -> WalkEntry {
    WalkEntry { path: None, is_file: false }
}

fn found(paths: &[&str]) -> Vec<WalkEntry> {
    paths.iter().map(|p| a_file(p)).collect()
}

fn keyed(key: &str, case: &str) -> KeyedCase {
    KeyedCase { key: key.to_string(), case: case.to_string() }
}

fn cases_in(order: &[KeyedCase]) -> Vec<String> {
    order.iter().map(|item| item.case.clone()).collect()
}

#[test]
fn collect_env_keeps_directories_in_listing_order() {
    let entries = vec![
        DirEntry { name: "local".to_string(), is_dir: true },
        DirEntry { name: "README.md".to_string(), is_dir: false },
        DirEntry { name: "basic".to_string(), is_dir: true },
        DirEntry { name: "config.toml".to_string(), is_dir: false },
    ];
    assert_eq!(collect_env(&entries), vec!["local".to_string(), "basic".to_string()]);
}

#[test]
fn collect_env_of_nothing_is_empty() {
    assert_eq!(collect_env(&Vec::new()), Vec::<String>::new());
    let files = vec![DirEntry { name: "a".to_string(), is_dir: false }];
    assert_eq!(collect_env(&files), Vec::<String>::new());
}

#[test]
fn case_identity_strips_the_case_extension() {
    let entry = a_file("cases/basic/select_1.sql");
    assert_eq!(case_identity(&entry, "sql", ""), Some("cases/basic/select_1".to_string()));
    assert_eq!(case_identity(&entry, "sql", "select"), Some("cases/basic/select_1".to_string()));
    assert_eq!(
        case_identity(&a_file("cases/basic/a.b.sql"), "sql", ""),
        Some("cases/basic/a.b".to_string())
    );
}

#[test]
fn case_identity_rejects_other_entries() {
    assert_eq!(case_identity(&a_file("cases/basic/select_1.result"), "sql", ""), None);
    assert_eq!(case_identity(&a_file("cases/basic/select_1"), "sql", ""), None);
    assert_eq!(case_identity(&a_file("cases/basic"), "sql", ""), None);
    assert_eq!(case_identity(&a_file("cases/basic/select_1.SQL"), "sql", ""), None);
    assert_eq!(case_identity(&a_file("cases/basic/.sql"), "sql", ""), None);
    assert_eq!(case_identity(&unreadable(), "sql", ""), None);
    assert_eq!(case_identity(&WalkEntry { path: None, is_file: true }, "sql", ""), None);
}

#[test]
fn case_identity_rejects_what_is_no_file() {
    assert_eq!(case_identity(&a_directory("cases/basic/d.sql"), "sql", ""), None);
    assert_eq!(
        case_identity(&a_file("cases/basic/d.sql"), "sql", ""),
        Some("cases/basic/d".to_string())
    );
}

#[test]
fn case_identity_filters_on_the_file_name_only() {
    let entry = a_file("cases/basic/select_1.sql");
    assert_eq!(case_identity(&entry, "sql", "basic"), None);
    assert_eq!(case_identity(&entry, "sql", "insert"), None);
    assert_eq!(case_identity(&entry, "sql", "sql"), None);
    assert_eq!(case_identity(&entry, "sql", "_1"), Some("cases/basic/select_1".to_string()));
}

#[test]
fn sort_by_key_orders_by_key() {
    let order = sort_by_key(vec![keyed("c", "C"), keyed("a", "A"), keyed("b", "B")]);
    assert_eq!(cases_in(&order), vec!["A", "B", "C"]);
}

#[test]
fn sort_by_key_keeps_found_order_among_equal_keys() {
    let order = sort_by_key(vec![
        keyed("k", "second-key first"),
        keyed("a", "x"),
        keyed("k", "second-key second"),
        keyed("a", "y"),
        keyed("k", "second-key third"),
    ]);
    assert_eq!(
        cases_in(&order),
        vec!["x", "y", "second-key first", "second-key second", "second-key third"]
    );
}

#[test]
fn sort_by_key_of_nothing_and_of_one() {
    assert!(sort_by_key(Vec::new()).is_empty());
    let one = sort_by_key(vec![keyed("k", "only")]);
    assert_eq!(cases_in(&one), vec!["only"]);
    assert_eq!(one[0].key, "k");
}

#[test]
fn sort_by_key_keeps_every_case_and_its_key() {
    let order = sort_by_key(vec![keyed("b", "1"), keyed("a", "2"), keyed("b", "1"), keyed("", "3")]);
    let pairs: Vec<(String, String)> =
        order.iter().map(|item| (item.key.clone(), item.case.clone())).collect();
    assert_eq!(
        pairs,
        vec![
            ("".to_string(), "3".to_string()),
            ("a".to_string(), "2".to_string()),
            ("b".to_string(), "1".to_string()),
            ("b".to_string(), "1".to_string()),
        ]
    );
}

#[test]
fn cases_are_ordered_without_regard_to_letter_case() {
    let entries = found(&[
        "cases/basic/b.sql",
        "cases/basic/C.sql",
        "cases/basic/A.sql",
        "cases/basic/a_2.sql",
        "cases/basic/B_1.sql",
    ]);
    assert_eq!(
        collect_case_paths(&entries, &config("")),
        vec![
            "cases/basic/A",
            "cases/basic/a_2",
            "cases/basic/b",
            "cases/basic/B_1",
            "cases/basic/C",
        ]
    );
}

#[test]
fn cases_are_ordered_by_the_whole_path() {
    let entries = found(&["cases/env/z/a.sql", "cases/env/A/z.sql", "cases/env/b.sql"]);
    assert_eq!(
        collect_case_paths(&entries, &config("")),
        vec!["cases/env/A/z", "cases/env/b", "cases/env/z/a"]
    );
}

#[test]
fn only_cases_that_pass_the_filter_are_collected() {
    let entries = found(&[
        "cases/basic/select_2.sql",
        "cases/basic/insert_1.sql",
        "cases/basic/select_1.sql",
        "cases/basic/select_1.result",
        "cases/basic/select_1.output",
        "cases/basic",
    ]);
    assert_eq!(
        collect_case_paths(&entries, &config("select")),
        vec!["cases/basic/select_1", "cases/basic/select_2"]
    );
    assert_eq!(
        collect_case_paths(&entries, &config("")),
        vec!["cases/basic/insert_1", "cases/basic/select_1", "cases/basic/select_2"]
    );
    assert_eq!(collect_case_paths(&entries, &config("update")), Vec::<String>::new());
}

#[test]
fn entries_without_a_path_are_left_out() {
    let entries = vec![
        unreadable(),
        a_file("cases/basic/b.sql"),
        unreadable(),
        a_file("cases/basic/a.sql"),
    ];
    assert_eq!(collect_case_paths(&entries, &config("")), vec!["cases/basic/a", "cases/basic/b"]);
    assert_eq!(
        collect_case_paths(&vec![unreadable(), unreadable()], &config("")),
        Vec::<String>::new()
    );
}

#[test]
fn a_directory_with_the_case_extension_is_no_case() {
    let entries = vec![
        a_directory("cases/basic"),
        a_directory("cases/basic/d.sql"),
        a_file("cases/basic/d.sql/inner.sql"),
        a_file("cases/basic/a.sql"),
    ];
    assert_eq!(
        collect_case_paths(&entries, &config("")),
        vec!["cases/basic/a", "cases/basic/d.sql/inner"]
    );
    assert_eq!(
        collect_case_paths(&vec![a_directory("cases/basic/d.sql")], &config("")),
        Vec::<String>::new()
    );
}

#[test]
fn an_environment_without_cases_has_none() {
    assert_eq!(collect_case_paths(&Vec::new(), &config("")), Vec::<String>::new());
    let entries = found(&["cases/basic", "cases/basic/config.toml"]);
    assert_eq!(collect_case_paths(&entries, &config("")), Vec::<String>::new());
}

#[test]
fn the_order_of_the_walk_does_not_show() {
    let one = found(&[
        "cases/basic/b.sql",
        "cases/basic/C.sql",
        "cases/basic/a.sql",
        "cases/basic/sub/D.sql",
        "cases/basic/README",
    ]);
    let other = found(&[
        "cases/basic/README",
        "cases/basic/sub/D.sql",
        "cases/basic/a.sql",
        "cases/basic/C.sql",
        "cases/basic/b.sql",
    ]);
    let expected = vec!["cases/basic/a", "cases/basic/b", "cases/basic/C", "cases/basic/sub/D"];
    assert_eq!(collect_case_paths(&one, &config("")), expected);
    assert_eq!(collect_case_paths(&other, &config("")), expected);
}

#[test]
fn cases_that_differ_in_letter_case_only_keep_the_order_of_the_walk() {
    let one = found(&["cases/basic/A.sql", "cases/basic/a.sql"]);
    let other = found(&["cases/basic/a.sql", "cases/basic/A.sql"]);
    assert_eq!(collect_case_paths(&one, &config("")), vec!["cases/basic/A", "cases/basic/a"]);
    assert_eq!(collect_case_paths(&other, &config("")), vec!["cases/basic/a", "cases/basic/A"]);
}

#[test]
fn letters_beyond_ascii_are_folded_too() {
    let entries = found(&["cases/basic/ärger.sql", "cases/basic/Ähre.sql", "cases/basic/Z.sql"]);
    assert_eq!(
        collect_case_paths(&entries, &config("")),
        vec!["cases/basic/Z", "cases/basic/Ähre", "cases/basic/ärger"]
    );
}
