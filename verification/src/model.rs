//! The data that one run of the tool works on: issues, reactions, and the
//! reaction-counting rule.

use vstd::prelude::*;

verus! {

/// A user who left a reaction on an issue.
#[derive(Debug)]
pub struct User {
    pub login: String,
}

/// One emoji-style reaction attached to an issue.
#[derive(Debug)]
pub struct IssueReaction {
    pub content: String,
    pub user: User,
}

/// Marker present on an issue record exactly when the record is really a
/// pull request.
#[derive(Debug, Clone, Copy, PartialEq, Eq, Structural)]
pub struct PullRequest {}

/// An open issue of a repository.
#[derive(Debug)]
pub struct Issue {
    pub number: usize,
    pub title: String,
    pub pull_request: Option<PullRequest>,
}

impl Issue {
    /// Whether this record is a pull request rather than a real issue.
    pub open spec fn is_pull_request(self) -> bool {
        self.pull_request is Some
    }
}

/// The content token that marks a positive reaction.
pub open spec fn positive_marker() -> Seq<char> {
    "+1"@
}

/// Whether a reaction counts towards an issue's positive total.
pub open spec fn is_positive(r: IssueReaction) -> bool {
    r.content@ == positive_marker()
}

/// How many reactions of a sequence are positive.
pub open spec fn count_positive(rs: Seq<IssueReaction>) -> int
    decreases rs.len(),
{
    if rs.len() == 0 {
        0
    } else {
        count_positive(rs.drop_last()) + if is_positive(rs.last()) {
            1int
        } else {
            0int
        }
    }
}

/// The positive count never exceeds the number of reactions.
pub proof fn lemma_count_positive_bounds(rs: Seq<IssueReaction>)
    ensures
        0 <= count_positive(rs) <= rs.len(),
    decreases rs.len(),
{
    if rs.len() > 0 {
        lemma_count_positive_bounds(rs.drop_last());
    }
}

/// Law: the positive count of a reaction sequence equals the length of the
/// subsequence of its positive reactions.
pub proof fn lemma_count_positive_is_filter_len(rs: Seq<IssueReaction>)
    ensures
        count_positive(rs) == rs.filter(|r: IssueReaction| is_positive(r)).len(),
    decreases rs.len(),
{
    reveal(Seq::filter);
    if rs.len() > 0 {
        lemma_count_positive_is_filter_len(rs.drop_last());
    }
}

/// Counts the reactions whose content equals the positive marker.
pub fn count_positive_reactions(rs: &Vec<IssueReaction>) -> (n: usize)
    ensures
        n == count_positive(rs@),
{
    let marker = String::from_str("+1");
    let mut n: usize = 0;
    let mut i: usize = 0;
    while i < rs.len()
        invariant
            i <= rs.len(),
            n == count_positive(rs@.take(i as int)),
            marker@ == positive_marker(),
        decreases rs.len() - i,
    {
        proof {
            lemma_count_positive_bounds(rs@.take(i as int));
            assert(rs@.take(i + 1).drop_last() =~= rs@.take(i as int));
            assert(rs@.take(i + 1).last() == rs@[i as int]);
        }
        if rs[i].content == marker {
            n = n + 1;
        }
        i = i + 1;
    }
    proof {
        assert(rs@.take(rs@.len() as int) =~= rs@);
    }
    n
}

/// The reactions one issue contributes to the ranking: what a successful
/// fetch returned, and none when the fetch came back unsuccessful, so that
/// one issue's unavailable reactions cannot abort the whole ranking.
pub fn reactions_of_response(success: bool, reactions: Vec<IssueReaction>) -> (r: Vec<
    IssueReaction,
>)
    ensures
        success ==> r@ == reactions@,
        !success ==> r@ == Seq::<IssueReaction>::empty(),
{
    if success {
        reactions
    } else {
        Vec::new()
    }
}

} // verus!
