use std::collections::HashSet;

use filterfrom::filter::{filter, filter_lines, load_list, pass_line, select_column, FilterError};
use filterfrom::text::split_spans;

fn hello_world_set() -> HashSet<String> {
    let mut set = HashSet::new();
    set.insert("Helloworld".into());

    set
}

#[test]
fn test_filer_allow_nocolumn() -> Result<(), FilterError> {
    assert!(filter("Helloworld", None, true, &hello_world_set())?);

    assert!(!filter("elloworld", None, true, &hello_world_set())?);

    Ok(())
}

#[test]
fn test_filer_allow_column() -> Result<(), FilterError> {
    assert!(filter(
        "qwerty Helloworld",
        Some(1),
        true,
        &hello_world_set()
    )?);

    assert!(!filter(
        "qwerty Helloworld pikachu",
        Some(2),
        true,
        &hello_world_set()
    )?);

    Ok(())
}

#[test]
fn test_filter_ban_nocolumn() -> Result<(), FilterError> {
    assert!(filter(
        "not just Helloworld",
        None,
        false,
        &hello_world_set()
    )?);

    assert!(!filter("Helloworld", None, false, &hello_world_set())?);

    Ok(())
}

#[test]
fn test_filter_ban_column() -> Result<(), FilterError> {
    assert!(filter(
        "not just Helloworld",
        Some(0),
        false,
        &hello_world_set()
    )?);

    assert!(!filter("Helloworld", Some(0), false, &hello_world_set())?);

    Ok(())
}

#[test]
fn negative_column_counts_from_the_back() {
    let set = hello_world_set();
    assert!(filter("a Helloworld b", Some(-2), true, &set).unwrap());
    assert!(!filter("a Helloworld b", Some(-1), true, &set).unwrap());
    assert!(filter("Helloworld b c", Some(-3), true, &set).unwrap());
}

#[test]
fn column_out_of_range_is_an_error() {
    let set = hello_world_set();
    let e = filter("one two", Some(2), true, &set).unwrap_err();
    assert_eq!(e.column, 2);
    assert_eq!(e.line, "one two");
    assert_eq!(e.cause.kind(), std::io::ErrorKind::Other);
    assert_eq!(
        e.cause.to_string(),
        "Requested column 2 absent on input one two"
    );
    let e = filter("one two", Some(-3), false, &set).unwrap_err();
    assert_eq!(e.column, -3);
    assert!(filter("", Some(0), false, &set).is_err());
    assert!(filter("   ", Some(-1), false, &set).is_err());
    assert!(filter("x", Some(i32::MIN), false, &set).is_err());
}

#[test]
fn columns_split_on_runs_of_whitespace() {
    assert_eq!(select_column("  a \t bb\n  ccc  ", 0), Some("a"));
    assert_eq!(select_column("  a \t bb\n  ccc  ", 1), Some("bb"));
    assert_eq!(select_column("  a \t bb\n  ccc  ", 2), Some("ccc"));
    assert_eq!(select_column("  a \t bb\n  ccc  ", -1), Some("ccc"));
    assert_eq!(select_column("  a \t bb\n  ccc  ", 3), None);
    assert_eq!(select_column("é\u{3000}ü", 1), Some("ü"));
    assert_eq!(split_spans("  a \t bb"), vec![(2, 3), (6, 8)]);
    assert_eq!(split_spans(""), vec![]);
}

#[test]
fn whole_line_is_matched_untrimmed() {
    let set = hello_world_set();
    assert!(!filter(" Helloworld", None, true, &set).unwrap());
    assert!(filter("Helloworld\n", None, false, &set).unwrap());
    assert!(filter(" Helloworld ", Some(0), true, &set).unwrap());
}

#[test]
fn passing_lines_come_out_trimmed() {
    let set = hello_world_set();
    assert_eq!(
        pass_line("  Helloworld there \n", Some(0), true, &set).unwrap(),
        Some("Helloworld there".to_string())
    );
    assert_eq!(pass_line("Helloworld", None, false, &set).unwrap(), None);
    assert!(pass_line("", Some(0), true, &set).is_err());
}

#[test]
fn filtering_its_own_output_changes_nothing() {
    let set = hello_world_set();
    let lines: Vec<String> = vec![
        " x Helloworld ".into(),
        "Helloworld y".into(),
        "\tz  w".into(),
    ];
    let once = filter_lines(&lines, Some(-1), false, &set).unwrap();
    assert_eq!(once, vec!["Helloworld y".to_string(), "z  w".to_string()]);
    let twice = filter_lines(&once, Some(-1), false, &set).unwrap();
    assert_eq!(once, twice);

    let lines: Vec<String> = vec!["Helloworld".into(), "other".into()];
    let once = filter_lines(&lines, None, true, &set).unwrap();
    assert_eq!(once, vec!["Helloworld".to_string()]);
    assert_eq!(filter_lines(&once, None, true, &set).unwrap(), once);
}

#[test]
fn stream_stops_at_a_missing_column() {
    let set = hello_world_set();
    let lines: Vec<String> = vec!["a b".into(), "c".into(), "d".into()];
    let e = filter_lines(&lines, Some(1), false, &set).unwrap_err();
    assert_eq!(e.line, "c");
    assert_eq!(e.column, 1);
    assert_eq!(filter_lines(&Vec::new(), Some(1), false, &set).unwrap(), Vec::<String>::new());
}

#[test]
fn list_entries_are_trimmed_lines() {
    let set = load_list("  Helloworld \r\nfoo\n\n bar baz\t\nfoo\n");
    let mut expected: HashSet<String> = HashSet::new();
    for s in ["Helloworld", "foo", "", "bar baz"] {
        expected.insert(s.to_string());
    }
    assert_eq!(set, expected);
    assert!(load_list("").is_empty());
    assert!(filter("Helloworld", None, true, &set).unwrap());
}
