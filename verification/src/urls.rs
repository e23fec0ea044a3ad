//! The endpoint urls that the tool requests, built from plain values.

use vstd::prelude::*;

verus! {

/// The character of one decimal digit.
pub open spec fn digit_char(d: nat) -> char {
    if d == 0 {
        '0'
    } else if d == 1 {
        '1'
    } else if d == 2 {
        '2'
    } else if d == 3 {
        '3'
    } else if d == 4 {
        '4'
    } else if d == 5 {
        '5'
    } else if d == 6 {
        '6'
    } else if d == 7 {
        '7'
    } else if d == 8 {
        '8'
    } else {
        '9'
    }
}

/// The decimal digits of a number, most significant first.
pub open spec fn spec_decimal(n: nat) -> Seq<char>
    decreases n,
{
    if n < 10 {
        seq![digit_char(n)]
    } else {
        spec_decimal(n / 10) + seq![digit_char(n % 10)]
    }
}

/// One decimal digit as text.
fn digit_str(d: usize) -> (r: String)
    requires
        d < 10,
    ensures
        r@ == seq![digit_char(d as nat)],
{
    proof {
        reveal_strlit("0");
        reveal_strlit("1");
        reveal_strlit("2");
        reveal_strlit("3");
        reveal_strlit("4");
        reveal_strlit("5");
        reveal_strlit("6");
        reveal_strlit("7");
        reveal_strlit("8");
        reveal_strlit("9");
    }
    let s: &str = if d == 0 {
        "0"
    } else if d == 1 {
        "1"
    } else if d == 2 {
        "2"
    } else if d == 3 {
        "3"
    } else if d == 4 {
        "4"
    } else if d == 5 {
        "5"
    } else if d == 6 {
        "6"
    } else if d == 7 {
        "7"
    } else if d == 8 {
        "8"
    } else {
        "9"
    };
    proof {
        assert(s@ =~= seq![digit_char(d as nat)]);
    }
    String::from_str(s)
}

/// Writes a number in decimal, most significant digit first.
pub fn format_decimal(n: usize) -> (r: String)
    ensures
        r@ == spec_decimal(n as nat),
{
    let mut r = digit_str(n % 10);
    let mut m: usize = n / 10;
    proof {
        if m == 0 {
            assert(spec_decimal(n as nat) == seq![digit_char(n as nat)]);
            assert(n as nat % 10 == n as nat);
        } else {
            assert(spec_decimal(n as nat) == spec_decimal(n as nat / 10) + seq![
                digit_char(n as nat % 10),
            ]);
        }
    }
    while m > 0
        invariant
            m > 0 ==> spec_decimal(n as nat) == spec_decimal(m as nat) + r@,
            m == 0 ==> spec_decimal(n as nat) == r@,
        decreases m,
    {
        let tail = r;
        r = digit_str(m % 10).concat(tail.as_str());
        proof {
            if m >= 10 {
                assert(spec_decimal(m as nat) == spec_decimal(m as nat / 10) + seq![
                    digit_char(m as nat % 10),
                ]);
                assert(spec_decimal(m as nat / 10) + (seq![digit_char(m as nat % 10)] + tail@)
                    =~= (spec_decimal(m as nat / 10) + seq![digit_char(m as nat % 10)]) + tail@);
            } else {
                assert(spec_decimal(m as nat) == seq![digit_char(m as nat)]);
                assert(m as nat % 10 == m as nat);
            }
        }
        m = m / 10;
    }
    r
}

/// The first-page url of the open-issue listing of a repository.
pub open spec fn default_issues_url(owner: Seq<char>, repo: Seq<char>) -> Seq<char> {
    "https://api.github.com/repos/"@ + owner + "/"@ + repo
        + "/issues?state=open&page=1&per_page=100"@
}

/// The url of one issue's reactions listing.
pub open spec fn spec_reactions_url(owner: Seq<char>, repo: Seq<char>, number: nat) -> Seq<char> {
    "https://api.github.com/repos/"@ + owner + "/"@ + repo + "/issues/"@ + spec_decimal(number)
        + "/reactions"@
}

/// Builds the url that one issue's reactions are fetched from.
pub fn reactions_url(owner: &str, repo: &str, number: usize) -> (r: String)
    ensures
        r@ == spec_reactions_url(owner@, repo@, number as nat),
{
    let mut u = String::from_str("https://api.github.com/repos/");
    u.append(owner);
    u.append("/");
    u.append(repo);
    u.append("/issues/");
    let digits = format_decimal(number);
    u.append(digits.as_str());
    u.append("/reactions");
    u
}

} // verus!
