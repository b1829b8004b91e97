use migren::directive::SqlDirective;

#[test]
fn split_pattern_is_a_comment_with_the_marker() {
    assert_eq!(SqlDirective::Split.directive_regex(), "--.*migren:split.*");
}

#[test]
fn directive_matches_itself_or_nothing() {
    assert_eq!(SqlDirective::Split.match_self_str("-- migren:split"), Some(SqlDirective::Split));
    assert_eq!(SqlDirective::Split.match_self_str("--migren:split"), Some(SqlDirective::Split));
    assert_eq!(SqlDirective::Split.match_self_str("-- migren: split"), None);
    assert_eq!(SqlDirective::Split.match_self_str(""), None);
}

#[test]
fn text_around_the_marker_is_allowed() {
    assert_eq!(
        SqlDirective::match_str("SELECT 1; -- then migren:split, please"),
        Some(SqlDirective::Split)
    );
    assert_eq!(SqlDirective::match_str("\t-- migren:split\r"), Some(SqlDirective::Split));
}

#[test]
fn marker_before_the_comment_sign_is_no_directive() {
    assert_eq!(SqlDirective::match_str("migren:split --"), None);
    assert_eq!(SqlDirective::match_str("- - migren:split"), None);
}

#[test]
fn searched_text_has_no_white_space_at_its_ends() {
    assert_eq!(SqlDirective::searched_text("  \t-- migren:split \r\n"), "-- migren:split");
    assert_eq!(SqlDirective::searched_text("a  b"), "a  b");
    assert_eq!(SqlDirective::searched_text("   "), "");
}

#[test]
fn search_outcome_decides() {
    assert_eq!(SqlDirective::Split.when_found(Some(true)), Some(SqlDirective::Split));
    assert_eq!(SqlDirective::Split.when_found(Some(false)), None);
    assert_eq!(SqlDirective::Split.when_found(None), None);
}
