//! The page-walking state machine that collects the open issues of a
//! repository.
//!
//! Pagination is sequential: each page's url is only known from the
//! previous response's link header. The walker itself performs no request;
//! it names the url of the pending request, and is fed each response as
//! plain values. A response with an unsuccessful status ends the walk and
//! keeps the issues collected so far; records marked as pull requests are
//! dropped. The module also deduplicates the collected list by issue
//! number, so that one reaction fetch runs per issue.

use vstd::prelude::*;
use crate::link_header::spec_next_url;
use crate::link_header::parse_next_url;
use crate::model::Issue;
use crate::urls::default_issues_url;

verus! {

/// The subsequence of records that are real issues, pull requests dropped,
/// order kept.
pub open spec fn spec_real_issues(s: Seq<Issue>) -> Seq<Issue> {
    s.filter(|i: Issue| !i.is_pull_request())
}

/// Law: a record marked as a pull request never survives the filter.
pub proof fn lemma_no_pull_requests(s: Seq<Issue>)
    ensures
        forall|k: int|
            0 <= k < spec_real_issues(s).len() ==> !(#[trigger] spec_real_issues(
                s,
            )[k]).is_pull_request(),
{
    broadcast use Seq::lemma_filter_pred;

}

/// Drops every record marked as a pull request, keeping the order.
pub fn filter_pull_requests(issues: Vec<Issue>) -> (r: Vec<Issue>)
    ensures
        r@ == spec_real_issues(issues@),
{
    let ghost all = issues@;
    let mut rest = issues;
    let mut r: Vec<Issue> = Vec::new();
    proof {
        assert(r@ + spec_real_issues(rest@) =~= spec_real_issues(all));
    }
    while rest.len() > 0
        invariant
            r@ + spec_real_issues(rest@) == spec_real_issues(all),
        decreases rest.len(),
    {
        let ghost before = rest@;
        let head = rest.remove(0);
        proof {
            let pred = |i: Issue| !i.is_pull_request();
            assert(before =~= seq![head] + rest@);
            Seq::filter_distributes_over_add(seq![head], rest@, pred);
            assert(seq![head].drop_last() =~= Seq::<Issue>::empty());
            assert(Seq::<Issue>::empty().filter(pred) == Seq::<Issue>::empty());
            reveal(Seq::filter);
            if pred(head) {
                assert(seq![head].filter(pred) =~= seq![head]);
                assert((r@ + seq![head]) + spec_real_issues(rest@) =~= r@ + spec_real_issues(
                    before,
                ));
            } else {
                assert(seq![head].filter(pred) =~= Seq::<Issue>::empty());
                assert(spec_real_issues(before) =~= spec_real_issues(rest@));
            }
        }
        if head.pull_request.is_none() {
            r.push(head);
        }
    }
    proof {
        assert(spec_real_issues(rest@) =~= Seq::<Issue>::empty()) by {
            reveal(Seq::filter);
        }
        assert(r@ =~= r@ + spec_real_issues(rest@));
    }
    r
}

/// Whether some record of `s` names the issue number `n`.
pub open spec fn names_number(s: Seq<Issue>, n: usize) -> bool {
    exists|i: int| 0 <= i < s.len() && s[i].number == n
}

/// Whether no two records name the same issue number.
pub open spec fn distinct_issue_records(s: Seq<Issue>) -> bool {
    forall|i: int, j: int| 0 <= i < j < s.len() ==> s[i].number != s[j].number
}

/// The records with each issue number's first occurrence kept and later
/// repeats dropped, order kept.
pub open spec fn spec_dedup_issues(s: Seq<Issue>) -> Seq<Issue>
    decreases s.len(),
{
    if s.len() == 0 {
        Seq::empty()
    } else if names_number(s.drop_last(), s.last().number) {
        spec_dedup_issues(s.drop_last())
    } else {
        spec_dedup_issues(s.drop_last()).push(s.last())
    }
}

/// Whether some record of `r` names the issue number `n`, decided
/// executably.
fn contains_number(r: &Vec<Issue>, n: usize) -> (found: bool)
    ensures
        found == names_number(r@, n),
{
    let mut j: usize = 0;
    while j < r.len()
        invariant
            j <= r@.len(),
            forall|k: int| 0 <= k < j ==> r@[k].number != n,
        decreases r@.len() - j,
    {
        if r[j].number == n {
            proof {
                assert(names_number(r@, n));
            }
            return true;
        }
        j = j + 1;
    }
    false
}

/// Keeps the first record of each issue number and drops later repeats,
/// so that one reaction fetch runs per issue and no issue is counted
/// twice.
pub fn dedup_issues(issues: Vec<Issue>) -> (r: Vec<Issue>)
    ensures
        r@ == spec_dedup_issues(issues@),
        distinct_issue_records(r@),
{
    let mut r: Vec<Issue> = Vec::new();
    let mut i: usize = 0;
    proof {
        assert(issues@.take(0) =~= Seq::<Issue>::empty());
    }
    while i < issues.len()
        invariant
            i <= issues@.len(),
            r@ == spec_dedup_issues(issues@.take(i as int)),
            distinct_issue_records(r@),
            forall|n: usize| names_number(r@, n) == names_number(issues@.take(i as int), n),
        decreases issues@.len() - i,
    {
        let ghost prefix = issues@.take(i as int);
        let ghost next = issues@.take(i + 1);
        proof {
            assert(next.drop_last() =~= prefix);
            assert(next.last() == issues@[i as int]);
            assert forall|n: usize| names_number(next, n) == (names_number(prefix, n) || n
                == issues@[i as int].number) by {
                if names_number(next, n) {
                    let k = choose|k: int| 0 <= k < next.len() && next[k].number == n;
                    if k < i {
                        assert(prefix[k] == next[k]);
                        assert(names_number(prefix, n));
                    } else {
                        assert(next[k] == issues@[i as int]);
                    }
                }
                if names_number(prefix, n) {
                    let k = choose|k: int| 0 <= k < prefix.len() && prefix[k].number == n;
                    assert(next[k] == prefix[k]);
                    assert(names_number(next, n));
                }
                if n == issues@[i as int].number {
                    assert(next[i as int].number == n);
                    assert(names_number(next, n));
                }
            }
        }
        let num = issues[i].number;
        let found = contains_number(&r, num);
        if !found {
            let issue = Issue {
                number: issues[i].number,
                title: issues[i].title.clone(),
                pull_request: issues[i].pull_request,
            };
            let ghost old_r = r@;
            proof {
                assert(issue == issues@[i as int]);
                assert(!names_number(prefix, num));
                assert(spec_dedup_issues(next) == spec_dedup_issues(prefix).push(
                    issues@[i as int],
                ));
            }
            r.push(issue);
            proof {
                assert(distinct_issue_records(r@)) by {
                    assert forall|p: int, q: int| 0 <= p < q < r@.len() implies r@[p].number
                        != r@[q].number by {
                        if q == old_r.len() {
                            assert(r@[p] == old_r[p]);
                            assert(!names_number(old_r, num));
                            assert(old_r[p].number != num);
                        } else {
                            assert(r@[p] == old_r[p] && r@[q] == old_r[q]);
                        }
                    }
                }
                assert forall|n: usize| names_number(r@, n) == names_number(next, n) by {
                    if names_number(r@, n) {
                        let k = choose|k: int| 0 <= k < r@.len() && r@[k].number == n;
                        if k < old_r.len() {
                            assert(old_r[k] == r@[k]);
                            assert(names_number(old_r, n));
                        } else {
                            assert(r@[k] == issue);
                        }
                    }
                    if names_number(old_r, n) {
                        let k = choose|k: int| 0 <= k < old_r.len() && old_r[k].number == n;
                        assert(r@[k] == old_r[k]);
                        assert(names_number(r@, n));
                    }
                    if n == num {
                        assert(r@[old_r.len() as int].number == n);
                        assert(names_number(r@, n));
                    }
                }
            }
        } else {
            proof {
                assert(names_number(prefix, num));
                assert(spec_dedup_issues(next) == spec_dedup_issues(prefix));
            }
        }
        i = i + 1;
    }
    proof {
        assert(issues@.take(issues@.len() as int) =~= issues@);
    }
    r
}

/// Where the walk stands: before the first request, at a known next-page
/// url, or done.
pub enum PageCursor {
    Start,
    Next(String),
    Finished,
}

/// One page response, as plain values: whether the status was a success,
/// the records parsed from the body, and the raw link header if one came.
pub struct PageResponse {
    pub success: bool,
    pub issues: Vec<Issue>,
    pub link_header: Option<String>,
}

/// Whether a cursor is the one that a link header leads to: the parsed
/// next url when the header names one, else the end of the walk.
pub open spec fn cursor_follows_link(c: PageCursor, link: Option<String>) -> bool {
    match link {
        Option::None => c is Finished,
        Option::Some(h) => match spec_next_url(h@) {
            Option::Some(u) => c matches PageCursor::Next(s) && s@ == u,
            Option::None => c is Finished,
        },
    }
}

/// Collects the open issues of a repository page by page.
pub struct PageWalker {
    pub issues: Vec<Issue>,
    pub cursor: PageCursor,
}

impl PageWalker {
    /// A walk that has not requested anything yet.
    pub fn new() -> (w: PageWalker)
        ensures
            w.issues@ == Seq::<Issue>::empty(),
            w.cursor is Start,
    {
        PageWalker { issues: Vec::new(), cursor: PageCursor::Start }
    }

    /// Whether the walk is over, either because a response named no next
    /// page or because one came back unsuccessful.
    pub fn is_finished(&self) -> (r: bool)
        ensures
            r == (self.cursor is Finished),
    {
        match self.cursor {
            PageCursor::Finished => true,
            _ => false,
        }
    }

    /// The url the pending request must go to: the default first page at
    /// the start, afterwards exactly the url the last link header named.
    pub fn request_url(&self, owner: &str, repo: &str) -> (r: Option<String>)
        ensures
            match self.cursor {
                PageCursor::Start => r matches Some(u) && u@ == default_issues_url(owner@, repo@),
                PageCursor::Next(next) => r matches Some(u) && u@ == next@,
                PageCursor::Finished => r is None,
            },
    {
        match &self.cursor {
            PageCursor::Finished => None,
            PageCursor::Start => {
                let mut u = String::from_str("https://api.github.com/repos/");
                u.append(owner);
                u.append("/");
                u.append(repo);
                u.append("/issues?state=open&page=1&per_page=100");
                Some(u)
            },
            PageCursor::Next(next) => Some(next.clone()),
        }
    }

    /// Feeds the response of the pending request into the walk. A failed
    /// page keeps what was collected and ends the walk; a successful page
    /// appends its records with pull requests dropped, and the walk goes
    /// on exactly when the link header names a next page.
    pub fn step(&mut self, page: PageResponse)
        ensures
            !page.success ==> final(self).issues@ == old(self).issues@,
            !page.success ==> final(self).cursor is Finished,
            page.success ==> final(self).issues@ == old(self).issues@ + spec_real_issues(
                page.issues@,
            ),
            page.success ==> cursor_follows_link(final(self).cursor, page.link_header),
    {
        if !page.success {
            self.cursor = PageCursor::Finished;
            return;
        }
        let mut filtered = filter_pull_requests(page.issues);
        self.issues.append(&mut filtered);
        match page.link_header {
            Option::None => {
                self.cursor = PageCursor::Finished;
            },
            Option::Some(h) => {
                match parse_next_url(h.as_str()) {
                    Option::Some(u) => {
                        self.cursor = PageCursor::Next(u);
                    },
                    Option::None => {
                        self.cursor = PageCursor::Finished;
                    },
                }
            },
        }
    }

    /// Hands out every issue the walk collected, in page order with the
    /// order inside each page kept.
    pub fn into_issues(self) -> (r: Vec<Issue>)
        ensures
            r@ == self.issues@,
    {
        self.issues
    }
}

} // verus!
