use issue_rank::urls::{format_decimal, reactions_url};

#[test]
fn single_digit() {
    assert_eq!(format_decimal(0), "0");
    assert_eq!(format_decimal(7), "7");
}

#[test]
fn several_digits() {
    assert_eq!(format_decimal(10), "10");
    assert_eq!(format_decimal(42), "42");
    assert_eq!(format_decimal(90530), "90530");
}

#[test]
fn largest_value_round_trips() {
    let text = format_decimal(usize::MAX);
    assert_eq!(text.parse::<usize>().unwrap(), usize::MAX);
}

#[test]
fn reactions_endpoint() {
    assert_eq!(
        reactions_url("octo", "repo", 42),
        "https://api.github.com/repos/octo/repo/issues/42/reactions"
    );
}
