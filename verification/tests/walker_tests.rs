use issue_rank::model::{Issue, PullRequest};
use issue_rank::walker::{dedup_issues, filter_pull_requests, PageResponse, PageWalker};

fn issue(number: usize, title: &str) -> Issue {
    Issue {
        number,
        title: title.to_string(),
        pull_request: None,
    }
}

fn pull_request(number: usize, title: &str) -> Issue {
    Issue {
        number,
        title: title.to_string(),
        pull_request: Some(PullRequest {}),
    }
}

fn numbers(issues: &[Issue]) -> Vec<usize> {
    issues.iter().map(|i| i.number).collect()
}

#[test]
fn pull_requests_never_appear() {
    let page = vec![
        pull_request(1, "pr one"),
        issue(2, "real two"),
        pull_request(3, "pr three"),
        issue(4, "real four"),
    ];
    let kept = filter_pull_requests(page);
    assert_eq!(numbers(&kept), vec![2, 4]);
    assert!(kept.iter().all(|i| i.pull_request.is_none()));
}

#[test]
fn page_of_only_pull_requests_is_empty() {
    let page = vec![pull_request(1, "a"), pull_request(2, "b")];
    assert!(filter_pull_requests(page).is_empty());
}

#[test]
fn start_url_is_default_listing() {
    let walker = PageWalker::new();
    let url = walker.request_url("octo", "repo");
    assert_eq!(
        url.as_deref(),
        Some("https://api.github.com/repos/octo/repo/issues?state=open&page=1&per_page=100")
    );
}

#[test]
fn three_pages_concatenate_in_order() {
    let mut walker = PageWalker::new();
    assert!(!walker.is_finished());

    walker.step(PageResponse {
        success: true,
        issues: vec![issue(1, "a"), issue(2, "b")],
        link_header: Some("<https://host/p2>; rel=\"next\"".to_string()),
    });
    assert!(!walker.is_finished());
    assert_eq!(
        walker.request_url("octo", "repo").as_deref(),
        Some("https://host/p2")
    );

    walker.step(PageResponse {
        success: true,
        issues: vec![issue(3, "c"), pull_request(4, "pr")],
        link_header: Some("<https://host/p3>; rel=\"next\"".to_string()),
    });
    assert_eq!(
        walker.request_url("octo", "repo").as_deref(),
        Some("https://host/p3")
    );

    walker.step(PageResponse {
        success: true,
        issues: vec![issue(5, "e")],
        link_header: None,
    });
    assert!(walker.is_finished());
    assert!(walker.request_url("octo", "repo").is_none());

    let collected = walker.into_issues();
    assert_eq!(numbers(&collected), vec![1, 2, 3, 5]);
}

#[test]
fn header_without_next_ends_walk() {
    let mut walker = PageWalker::new();
    walker.step(PageResponse {
        success: true,
        issues: vec![issue(7, "last page")],
        link_header: Some("<https://host/p1>; rel=\"prev\"".to_string()),
    });
    assert!(walker.is_finished());
    assert_eq!(numbers(&walker.into_issues()), vec![7]);
}

#[test]
fn failed_page_keeps_collected_issues() {
    let mut walker = PageWalker::new();
    walker.step(PageResponse {
        success: true,
        issues: vec![issue(1, "a"), issue(2, "b")],
        link_header: Some("<https://host/p2>; rel=\"next\"".to_string()),
    });
    walker.step(PageResponse {
        success: false,
        issues: vec![issue(9, "never seen")],
        link_header: Some("<https://host/p3>; rel=\"next\"".to_string()),
    });
    assert!(walker.is_finished());
    assert_eq!(numbers(&walker.into_issues()), vec![1, 2]);
}

#[test]
fn repeated_issue_number_keeps_first_record() {
    let issues = vec![
        issue(1, "a"),
        issue(2, "b"),
        issue(1, "a repeated"),
        issue(3, "c"),
        issue(2, "b repeated"),
    ];
    let deduped = dedup_issues(issues);
    assert_eq!(numbers(&deduped), vec![1, 2, 3]);
    assert_eq!(deduped[0].title, "a");
    assert_eq!(deduped[1].title, "b");
}

#[test]
fn dedup_keeps_a_distinct_list_as_it_is() {
    let issues = vec![issue(4, "d"), issue(5, "e"), issue(6, "f")];
    let deduped = dedup_issues(issues);
    assert_eq!(numbers(&deduped), vec![4, 5, 6]);
}

#[test]
fn failure_on_first_page_yields_no_issues() {
    let mut walker = PageWalker::new();
    walker.step(PageResponse {
        success: false,
        issues: vec![],
        link_header: None,
    });
    assert!(walker.is_finished());
    assert!(walker.into_issues().is_empty());
}
