use migren::directive::SqlDirective;
use migren::statements::{group_lines, has_several_statements, split_statements, sql_lines};

#[test]
fn split_directive_closes_the_group_it_stands_in() {
    let groups = split_statements("A\n-- migren:split\nB\n");
    assert_eq!(groups, vec!["A\n-- migren:split\n".to_string(), "B\n".to_string()]);
}

#[test]
fn script_without_directive_is_one_group() {
    let groups = split_statements("CREATE TABLE t (id INTEGER);\nINSERT INTO t VALUES (1);\n");
    assert_eq!(
        groups,
        vec!["CREATE TABLE t (id INTEGER);\nINSERT INTO t VALUES (1);\n".to_string()]
    );
}

#[test]
fn empty_script_is_one_empty_group() {
    assert_eq!(split_statements(""), vec![String::new()]);
}

#[test]
fn lines_end_at_feeds_and_drop_returns() {
    assert_eq!(
        sql_lines("a\r\nb\n\nc"),
        vec!["a".to_string(), "b".to_string(), String::new(), "c".to_string()]
    );
    assert_eq!(sql_lines("x\r"), vec!["x\r".to_string()]);
}

#[test]
fn directive_is_found_anywhere_in_a_comment() {
    assert_eq!(SqlDirective::match_str("  -- please migren:split here  "), Some(SqlDirective::Split));
    assert_eq!(SqlDirective::match_str("migren:split"), None);
    assert_eq!(SqlDirective::match_str("SELECT 1;"), None);
}

#[test]
fn group_lines_follows_the_given_directives() {
    let lines = vec!["a".to_string(), "b".to_string(), "c".to_string()];
    let directives = vec![Some(SqlDirective::Split), None];
    assert_eq!(group_lines(&lines, &directives), vec!["a\n".to_string(), "b\nc\n".to_string()]);
}

#[test]
fn directive_on_the_last_line_leaves_an_empty_group() {
    let groups = split_statements("A;\n--migren:split\n");
    assert_eq!(groups, vec!["A;\n--migren:split\n".to_string(), String::new()]);
}

#[test]
fn every_line_gets_a_line_feed() {
    assert_eq!(split_statements("SELECT 1"), vec!["SELECT 1\n".to_string()]);
    assert_eq!(split_statements("a\r\nb"), vec!["a\nb\n".to_string()]);
}

#[test]
fn two_directives_make_three_groups() {
    let groups = split_statements("a\n-- migren:split\nb\n  -- x migren:split y  \nc\n");
    assert_eq!(
        groups,
        vec![
            "a\n-- migren:split\n".to_string(),
            "b\n  -- x migren:split y  \n".to_string(),
            "c\n".to_string(),
        ]
    );
}

#[test]
fn groups_read_together_are_the_script() {
    let script = "a;\n-- migren:split\nb;\nc;\n-- migren:split\n";
    assert_eq!(split_statements(script).concat(), script);
}

#[test]
fn more_than_one_semicolon_is_a_hazard() {
    assert!(!has_several_statements(""));
    assert!(!has_several_statements("SELECT 1"));
    assert!(!has_several_statements("SELECT 1;"));
    assert!(has_several_statements("SELECT 1; SELECT 2;"));
    assert!(has_several_statements(";;"));
}

#[test]
fn lines_of_an_empty_text_are_none() {
    assert_eq!(sql_lines(""), Vec::<String>::new());
    assert_eq!(sql_lines("\n"), vec![String::new()]);
    assert_eq!(sql_lines("\n\n"), vec![String::new(), String::new()]);
    assert_eq!(sql_lines("\r\n"), vec![String::new()]);
    assert_eq!(sql_lines("a\rb\n"), vec!["a\rb".to_string()]);
}
