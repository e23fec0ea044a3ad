use issue_rank::model::{count_positive_reactions, reactions_of_response, IssueReaction, User};
use issue_rank::ranking::{aggregate, rank_issues, sort_entries, truncate_ranking, FetchedReactions};

fn reaction(content: &str, login: &str) -> IssueReaction {
    IssueReaction {
        content: content.to_string(),
        user: User {
            login: login.to_string(),
        },
    }
}

fn reactions(contents: &[&str]) -> Vec<IssueReaction> {
    contents
        .iter()
        .enumerate()
        .map(|(i, c)| reaction(c, &format!("user{}", i)))
        .collect()
}

fn fetched(number: usize, title: &str, contents: &[&str]) -> FetchedReactions {
    FetchedReactions {
        number,
        title: title.to_string(),
        reactions: reactions(contents),
    }
}

#[test]
fn count_matches_manual_count() {
    let rs = reactions(&["+1", "heart", "+1", "-1", "+1"]);
    let manual = rs.iter().filter(|r| r.content == "+1").count();
    assert_eq!(count_positive_reactions(&rs), manual);
    assert_eq!(count_positive_reactions(&rs), 3);
}

#[test]
fn count_of_no_reactions_is_zero() {
    assert_eq!(count_positive_reactions(&Vec::new()), 0);
}

#[test]
fn count_ignores_other_tokens() {
    let rs = reactions(&["-1", "heart", "rocket", "eyes"]);
    assert_eq!(count_positive_reactions(&rs), 0);
}

#[test]
fn example_two_issue_ranking() {
    let results = vec![
        fetched(42, "Fix crash", &["+1", "+1", "heart"]),
        fetched(7, "Typo", &["+1"]),
    ];
    let ranking = rank_issues(results, 0);
    assert_eq!(ranking.len(), 2);
    assert_eq!(ranking[0].issue_number, 42);
    assert_eq!(ranking[0].title, "Fix crash");
    assert_eq!(ranking[0].positive_reaction_count, 2);
    assert_eq!(ranking[1].issue_number, 7);
    assert_eq!(ranking[1].title, "Typo");
    assert_eq!(ranking[1].positive_reaction_count, 1);
}

#[test]
fn zero_count_issues_never_appear() {
    let results = vec![
        fetched(1, "loved", &["heart", "heart"]),
        fetched(2, "liked", &["+1"]),
        fetched(3, "ignored", &[]),
    ];
    let ranking = rank_issues(results, 0);
    assert_eq!(ranking.len(), 1);
    assert_eq!(ranking[0].issue_number, 2);
}

#[test]
fn ranking_is_descending_by_count() {
    let results = vec![
        fetched(1, "one", &["+1"]),
        fetched(2, "three", &["+1", "+1", "+1"]),
        fetched(3, "two", &["+1", "+1"]),
    ];
    let ranking = rank_issues(results, 0);
    let counts: Vec<usize> = ranking.iter().map(|e| e.positive_reaction_count).collect();
    assert_eq!(counts, vec![3, 2, 1]);
    for pair in ranking.windows(2) {
        assert!(pair[0].positive_reaction_count >= pair[1].positive_reaction_count);
    }
}

#[test]
fn equal_counts_order_by_issue_number() {
    let results = vec![
        fetched(9, "late", &["+1"]),
        fetched(4, "early", &["+1"]),
    ];
    let ranking = rank_issues(results, 0);
    assert_eq!(ranking[0].issue_number, 4);
    assert_eq!(ranking[1].issue_number, 9);
}

#[test]
fn completion_order_does_not_change_ranking() {
    let in_one_order = vec![
        fetched(1, "a", &["+1"]),
        fetched(2, "b", &["+1", "+1"]),
        fetched(3, "c", &["heart"]),
        fetched(4, "d", &["+1", "+1", "+1"]),
    ];
    let in_another_order = vec![
        fetched(4, "d", &["+1", "+1", "+1"]),
        fetched(3, "c", &["heart"]),
        fetched(1, "a", &["+1"]),
        fetched(2, "b", &["+1", "+1"]),
    ];
    let first = rank_issues(in_one_order, 0);
    let second = rank_issues(in_another_order, 0);
    assert_eq!(first.len(), second.len());
    for (a, b) in first.iter().zip(second.iter()) {
        assert_eq!(a.issue_number, b.issue_number);
        assert_eq!(a.title, b.title);
        assert_eq!(a.positive_reaction_count, b.positive_reaction_count);
    }
}

#[test]
fn limit_truncates_to_top_entries() {
    let mut results = Vec::new();
    for n in 1..=10usize {
        // issue n carries n positive reactions
        let contents: Vec<&str> = std::iter::repeat("+1").take(n).collect();
        results.push(fetched(n, &format!("issue {}", n), &contents));
    }
    let ranking = rank_issues(results, 3);
    assert_eq!(ranking.len(), 3);
    let counts: Vec<usize> = ranking.iter().map(|e| e.positive_reaction_count).collect();
    assert_eq!(counts, vec![10, 9, 8]);
}

#[test]
fn limit_zero_means_unlimited() {
    let results = vec![
        fetched(1, "a", &["+1"]),
        fetched(2, "b", &["+1"]),
        fetched(3, "c", &["+1"]),
    ];
    let ranking = rank_issues(results, 0);
    assert_eq!(ranking.len(), 3);
}

#[test]
fn limit_beyond_length_keeps_everything() {
    let results = vec![fetched(1, "a", &["+1"]), fetched(2, "b", &["+1"])];
    let ranking = rank_issues(results, 50);
    assert_eq!(ranking.len(), 2);
}

#[test]
fn aggregate_sort_truncate_compose() {
    let results = vec![
        fetched(5, "mid", &["+1", "+1"]),
        fetched(6, "none", &[]),
        fetched(7, "top", &["+1", "+1", "+1"]),
        fetched(8, "low", &["+1"]),
    ];
    let entries = aggregate(results);
    assert_eq!(entries.len(), 3);
    let sorted = sort_entries(entries);
    let top = truncate_ranking(sorted, 2);
    assert_eq!(top.len(), 2);
    assert_eq!(top[0].issue_number, 7);
    assert_eq!(top[1].issue_number, 5);
}

#[test]
fn failed_fetch_counts_as_no_reactions() {
    let rs = reactions(&["+1", "+1"]);
    let kept = reactions_of_response(true, rs);
    assert_eq!(kept.len(), 2);
    let dropped = reactions_of_response(false, reactions(&["+1", "+1"]));
    assert!(dropped.is_empty());
}
