use issue_rank::link_header::parse_next_url;

#[test]
fn single_next_part() {
    let header = "<https://api.github.com/repositories/1/issues?page=2>; rel=\"next\"";
    let url = parse_next_url(header);
    assert_eq!(
        url.as_deref(),
        Some("https://api.github.com/repositories/1/issues?page=2")
    );
}

#[test]
fn next_part_first_of_two() {
    let header = "<https://host/a?page=2>; rel=\"next\",<https://host/a?page=5>; rel=\"last\"";
    let url = parse_next_url(header);
    assert_eq!(url.as_deref(), Some("https://host/a?page=2"));
}

#[test]
fn next_part_second_of_two() {
    let header = "<https://host/a?page=1>; rel=\"prev\",<https://host/a?page=3>; rel=\"next\"";
    let url = parse_next_url(header);
    assert_eq!(url.as_deref(), Some("https://host/a?page=3"));
}

#[test]
fn space_after_comma_is_no_obstacle() {
    // The url is the text between the angle brackets, so a space between
    // the comma and the '<' does not reach the result.
    let header = "<https://host/a?page=1>; rel=\"prev\", <https://host/a?page=3>; rel=\"next\"";
    let url = parse_next_url(header);
    assert_eq!(url.as_deref(), Some("https://host/a?page=3"));
}

#[test]
fn no_next_relation() {
    let header = "<https://host/a?page=9>; rel=\"last\"";
    assert!(parse_next_url(header).is_none());
}

#[test]
fn empty_header() {
    assert!(parse_next_url("").is_none());
}

#[test]
fn marker_without_brackets_is_malformed() {
    // A part that carries the marker but no angle bracket pair names no
    // url, and pagination simply ends.
    assert!(parse_next_url("https://host/b; rel=\"next\"").is_none());
}

#[test]
fn unclosed_bracket_is_malformed() {
    assert!(parse_next_url("<https://host/c; rel=\"next\"").is_none());
}
