use cities::parse::parse_line;

fn pair(s: &str) -> Option<(String, String)> {
    parse_line(s)
}

#[test]
fn plain_pair_parses() {
    assert_eq!(pair("London Paris"), Some(("London".to_string(), "Paris".to_string())));
}

#[test]
fn trailing_newline_is_trimmed() {
    assert_eq!(pair("London Paris\n"), Some(("London".to_string(), "Paris".to_string())));
}

#[test]
fn surrounding_whitespace_is_trimmed() {
    assert_eq!(pair("  London Paris \t\n"), Some(("London".to_string(), "Paris".to_string())));
}

#[test]
fn extra_tokens_are_ignored() {
    assert_eq!(pair("A B C D\n"), Some(("A".to_string(), "B".to_string())));
}

#[test]
fn two_spaces_make_an_empty_second_token() {
    assert_eq!(pair("A  B\n"), Some(("A".to_string(), "".to_string())));
}

#[test]
fn empty_line_fails() {
    assert_eq!(pair(""), None);
    assert_eq!(pair("\n"), None);
}

#[test]
fn one_character_line_fails() {
    assert_eq!(pair("A"), None);
}

#[test]
fn single_token_line_fails() {
    assert_eq!(pair("London\n"), None);
    assert_eq!(pair("AB"), None);
}

#[test]
fn whitespace_only_line_fails() {
    assert_eq!(pair("   \t \n"), None);
}
