use sqlness::compare::{any_change, compare, divergence_hint, diverges, LineOp};
use sqlness::config::Config;
use sqlness::error::SqlnessError;

fn bytes(s: &str) -> Result<Vec<u8>, String> {
    Ok(s.as_bytes().to_vec())
}

fn config() -> Config {
    Config {
        case_dir: "cases".to_string(),
        env_config_file: "config.toml".to_string(),
        fail_fast: true,
        test_case_extension: "sql".to_string(),
        expect_result_extension: "result".to_string(),
        output_result_extension: "output".to_string(),
        test_filter: String::new(),
    }
}

#[test]
fn any_change_looks_for_a_step_that_is_not_equal() {
    assert!(!any_change(&vec![]));
    assert!(!any_change(&vec![LineOp::Equal]));
    assert!(!any_change(&vec![LineOp::Equal, LineOp::Equal]));
    assert!(any_change(&vec![LineOp::Insert]));
    assert!(any_change(&vec![LineOp::Equal, LineOp::Remove, LineOp::Equal]));
    assert!(any_change(&vec![LineOp::Equal, LineOp::Equal, LineOp::Replace]));
}

#[test]
fn the_same_text_does_not_diverge() {
    assert!(!diverges(&"1\n".to_string(), &"1\n".to_string()));
    assert!(!diverges(&String::new(), &String::new()));
    assert!(!diverges(&"a\nb\nc\n".to_string(), &"a\nb\nc\n".to_string()));
}

#[test]
fn a_changed_line_diverges() {
    assert!(diverges(&"1\n".to_string(), &"2\n".to_string()));
    assert!(diverges(&"a\nb\nc\n".to_string(), &"a\nx\nc\n".to_string()));
}

#[test]
fn an_added_or_a_missing_line_diverges() {
    assert!(diverges(&"a\nb\n".to_string(), &"a\nb\nc\n".to_string()));
    assert!(diverges(&"a\nb\nc\n".to_string(), &"a\nc\n".to_string()));
    assert!(diverges(&String::new(), &"a\n".to_string()));
    assert!(diverges(&"a\n".to_string(), &String::new()));
}

#[test]
fn white_space_counts() {
    assert!(diverges(&"a \n".to_string(), &"a\n".to_string()));
    assert!(diverges(&"a\tb\n".to_string(), &"a b\n".to_string()));
    assert!(diverges(&"a\n\nb\n".to_string(), &"a\nb\n".to_string()));
    assert!(diverges(&"A\n".to_string(), &"a\n".to_string()));
}

#[test]
fn texts_with_the_same_lines_do_not_diverge() {
    assert!(!diverges(&"1\n".to_string(), &"1".to_string()));
    assert!(!diverges(&"a\r\nb\r\n".to_string(), &"a\nb\n".to_string()));
}

#[test]
fn compare_matches_equal_output() {
    assert!(matches!(compare(bytes("1\n"), bytes("1\n")), Ok(false)));
    assert!(matches!(compare(bytes(""), bytes("")), Ok(false)));
}

#[test]
fn compare_finds_divergence() {
    assert!(matches!(compare(bytes("1\n"), bytes("2\n")), Ok(true)));
    assert!(matches!(compare(bytes("1\n"), bytes("1\n2\n")), Ok(true)));
}

#[test]
fn compare_reports_a_file_that_could_not_be_read() {
    let missing = || Err("No such file or directory".to_string());
    match compare(missing(), bytes("1\n")) {
        Err(SqlnessError::ComparisonIOFailed { reason }) => {
            assert_eq!(reason, "No such file or directory")
        }
        other => panic!("{:?}", other),
    }
    match compare(bytes("1\n"), Err("denied".to_string())) {
        Err(SqlnessError::ComparisonIOFailed { reason }) => assert_eq!(reason, "denied"),
        other => panic!("{:?}", other),
    }
}

#[test]
fn compare_reports_output_that_is_not_text() {
    let not_text = || Ok(vec![0x31, 0xff, 0xfe]);
    assert!(matches!(compare(not_text(), bytes("1\n")), Err(SqlnessError::NonUTF8Output)));
    assert!(matches!(compare(bytes("1\n"), not_text()), Err(SqlnessError::NonUTF8Output)));
    assert!(matches!(compare(not_text(), not_text()), Err(SqlnessError::NonUTF8Output)));
    assert!(matches!(compare(Ok(vec![0xc3]), bytes("1\n")), Err(SqlnessError::NonUTF8Output)));
    assert!(matches!(
        compare(Ok(vec![0xed, 0xa0, 0x80]), bytes("1\n")),
        Err(SqlnessError::NonUTF8Output)
    ));
}

#[test]
fn compare_looks_at_the_expected_output_first() {
    let not_text = || Ok(vec![0xff]);
    assert!(matches!(
        compare(not_text(), Err("gone".to_string())),
        Err(SqlnessError::NonUTF8Output)
    ));
    assert!(matches!(
        compare(Err("gone".to_string()), not_text()),
        Err(SqlnessError::ComparisonIOFailed { .. })
    ));
}

#[test]
fn compare_reads_text_beyond_ascii() {
    assert!(matches!(compare(bytes("grüße\n"), bytes("grüße\n")), Ok(false)));
    assert!(matches!(compare(bytes("grüße\n"), bytes("grüsse\n")), Ok(true)));
}

#[test]
fn divergence_hint_names_the_case_and_both_files() {
    let hint = divergence_hint(&config(), "cases/basic/select_1");
    assert_eq!(
        hint,
        "Result unexpected, path:\"cases/basic/select_1\"\nHint: compare them with \"diff cases/basic/select_1.output cases/basic/select_1.result\"\n"
    );
    assert!(hint.contains("cases/basic/select_1.output"));
    assert!(hint.contains("cases/basic/select_1.result"));
}
