//! Parsing of the pagination link header.
//!
//! A link header is a comma-separated list of parts; the part that carries
//! the token `rel="next"` names the url of the next page between angle
//! brackets, as in `<url>; rel="next"`.

use vstd::prelude::*;

verus! {

/// The token that marks the next-page relation inside one header part.
pub open spec fn next_marker() -> Seq<char> {
    "rel=\"next\""@
}

/// Whether `pat` occurs in `s` starting at position `i`.
pub open spec fn matches_at(s: Seq<char>, pat: Seq<char>, i: int) -> bool {
    0 <= i && i + pat.len() <= s.len() && s.subrange(i, i + pat.len()) == pat
}

/// Whether `pat` occurs anywhere in `s`.
pub open spec fn contains_seq(s: Seq<char>, pat: Seq<char>) -> bool {
    exists|i: int| matches_at(s, pat, i)
}

/// The comma-separated parts of a header value, in order.
pub open spec fn split_parts(s: Seq<char>) -> Seq<Seq<char>>
    decreases s.len(),
{
    match s.index_of_first(',') {
        Some(i) => if 0 <= i < s.len() {
            seq![s.take(i)] + split_parts(s.skip(i + 1))
        } else {
            seq![s]
        },
        None => seq![s],
    }
}

/// The first part that carries the next-page relation, if any.
pub open spec fn first_next_part(parts: Seq<Seq<char>>) -> Option<Seq<char>>
    decreases parts.len(),
{
    if parts.len() == 0 {
        None
    } else if contains_seq(parts[0], next_marker()) {
        Some(parts[0])
    } else {
        first_next_part(parts.skip(1))
    }
}

/// The url a part carries: the text between the part's first '<' and the
/// '>' that follows it. A part without such a bracket pair is malformed
/// and names no url.
pub open spec fn url_in_part(part: Seq<char>) -> Option<Seq<char>> {
    match part.index_of_first('<') {
        Some(i) => if 0 <= i < part.len() {
            let rest = part.skip(i + 1);
            match rest.index_of_first('>') {
                Some(j) => if 0 <= j < rest.len() {
                    Some(rest.take(j))
                } else {
                    None
                },
                None => None,
            }
        } else {
            None
        },
        None => None,
    }
}

/// The url of the next page named by a link header, if it names one: the
/// url between the angle brackets of the first part that carries the
/// next-page relation. A malformed part simply ends pagination.
pub open spec fn spec_next_url(link: Seq<char>) -> Option<Seq<char>> {
    match first_next_part(split_parts(link)) {
        Some(part) => url_in_part(part),
        None => None,
    }
}

/// Whether `pat` occurs in `s` at position `i`.
fn matches_at_exec(s: &str, pat: &str, i: usize) -> (r: bool)
    requires
        i + pat@.len() <= s@.len(),
    ensures
        r == matches_at(s@, pat@, i as int),
{
    let s_len = s.unicode_len();
    let pat_len = pat.unicode_len();
    let mut j: usize = 0;
    while j < pat_len
        invariant
            j <= pat_len,
            pat_len == pat@.len(),
            s_len == s@.len(),
            i + pat@.len() <= s@.len(),
            forall|k: int| 0 <= k < j ==> s@[i + k] == pat@[k],
        decreases pat_len - j,
    {
        if s.get_char(i + j) != pat.get_char(j) {
            proof {
                assert(s@.subrange(i as int, i + pat@.len())[j as int] == s@[i + j]);
            }
            return false;
        }
        j = j + 1;
    }
    proof {
        assert(s@.subrange(i as int, i + pat@.len()) =~= pat@);
    }
    true
}

/// Whether `pat` occurs anywhere in `s`.
fn contains_seq_exec(s: &str, pat: &str) -> (r: bool)
    ensures
        r == contains_seq(s@, pat@),
{
    let n = s.unicode_len();
    let m = pat.unicode_len();
    if m > n {
        proof {
            assert(forall|k: int| matches_at(s@, pat@, k) ==> k + pat@.len() <= s@.len());
        }
        return false;
    }
    if m == 0 {
        proof {
            assert(s@.subrange(0, 0) =~= pat@);
            assert(matches_at(s@, pat@, 0));
        }
        return true;
    }
    let mut i: usize = 0;
    while i <= n - m
        invariant
            n == s@.len(),
            m == pat@.len(),
            1 <= m <= n,
            i <= n - m + 1,
            forall|k: int| 0 <= k < i ==> !matches_at(s@, pat@, k),
        decreases n - m + 1 - i,
    {
        if matches_at_exec(s, pat, i) {
            return true;
        }
        i = i + 1;
    }
    proof {
        assert(forall|k: int| matches_at(s@, pat@, k) ==> 0 <= k && k + pat@.len() <= s@.len());
    }
    false
}

/// The position of the first `target` at or after `from`, or the length
/// of `s` when there is none.
fn find_char(s: &str, from: usize, target: char) -> (r: usize)
    requires
        from <= s@.len(),
    ensures
        from <= r <= s@.len(),
        forall|k: int| from <= k < r ==> s@[k] != target,
        r < s@.len() ==> s@[r as int] == target,
{
    let n = s.unicode_len();
    let mut i = from;
    while i < n
        invariant
            from <= i <= n,
            n == s@.len(),
            forall|k: int| from <= k < i ==> s@[k] != target,
        decreases n - i,
    {
        if s.get_char(i) == target {
            return i;
        }
        i = i + 1;
    }
    n
}

/// A scan that found no `target` before `r`, and one at `r` unless `r` is
/// the length, pins down `index_of_first`.
proof fn lemma_index_of_first_scan(s: Seq<char>, target: char, r: int)
    requires
        0 <= r <= s.len(),
        forall|k: int| 0 <= k < r ==> s[k] != target,
        r < s.len() ==> s[r] == target,
    ensures
        s.index_of_first(target) == if r < s.len() {
            Some(r)
        } else {
            None::<int>
        },
{
    s.index_of_first_ensures(target);
    match s.index_of_first(target) {
        Some(idx) => {
            if r == s.len() {
                assert(s[idx] == target);
                assert(false);
            } else {
                if idx < r {
                    assert(s[idx] != target);
                } else if idx > r {
                    assert(s[r] != target);
                }
            }
        },
        None => {
            if r < s.len() {
                assert(s.contains(target));
            }
        },
    }
}

/// Extracts the url between the first angle bracket pair of a part; a
/// part without such a pair is malformed and yields nothing.
fn extract_url(s: &str) -> (r: Option<String>)
    ensures
        match r {
            Some(u) => url_in_part(s@) == Some(u@),
            None => url_in_part(s@) is None,
        },
{
    let n = s.unicode_len();
    let lt = find_char(s, 0, '<');
    proof {
        lemma_index_of_first_scan(s@, '<', lt as int);
    }
    if lt == n {
        return None;
    }
    let ghost rest = s@.skip(lt + 1);
    let gt = find_char(s, lt + 1, '>');
    proof {
        assert(forall|k: int| 0 <= k < gt - lt - 1 ==> rest[k] == s@[lt + 1 + k]);
        assert(gt - lt - 1 < rest.len() ==> rest[gt - lt - 1] == s@[gt as int]);
        lemma_index_of_first_scan(rest, '>', gt - lt - 1);
    }
    if gt == n {
        return None;
    }
    proof {
        assert(rest.take(gt - lt - 1) =~= s@.subrange(lt + 1, gt as int));
    }
    Some(String::from_str(s.substring_char(lt + 1, gt)))
}

/// Extracts the url of the next-page relation from a link header value:
/// splits the value on commas, takes the first part that carries the next
/// marker, and hands back the url between that part's angle brackets.
pub fn parse_next_url(link: &str) -> (r: Option<String>)
    ensures
        match r {
            Some(u) => spec_next_url(link@) == Some(u@),
            None => spec_next_url(link@) is None,
        },
{
    let n = link.unicode_len();
    let marker: &str = "rel=\"next\"";
    proof {
        reveal_strlit("rel=\"next\"");
        assert(marker@ =~= next_marker());
        assert(link@.skip(0) =~= link@);
    }
    let mut start: usize = 0;
    loop
        invariant
            start <= n,
            n == link@.len(),
            marker@ == next_marker(),
            first_next_part(split_parts(link@)) == first_next_part(
                split_parts(link@.skip(start as int)),
            ),
        decreases n - start,
    {
        let ghost t = link@.skip(start as int);
        let end = find_char(link, start, ',');
        let part = link.substring_char(start, end);
        proof {
            assert(forall|k: int| 0 <= k < end - start ==> t[k] == link@[start + k]);
            assert((end - start) < t.len() ==> t[end - start] == link@[end as int]);
            lemma_index_of_first_scan(t, ',', end - start);
            if end < n {
                assert(t.take(end - start) =~= part@);
                assert(t.skip(end - start + 1) =~= link@.skip(end + 1));
                assert(split_parts(t) == seq![part@] + split_parts(link@.skip(end + 1)));
                assert((seq![part@] + split_parts(link@.skip(end + 1)))[0] == part@);
            } else {
                assert(t =~= part@);
                assert(split_parts(t) == seq![t]);
                assert(seq![t][0] == t);
            }
        }
        if contains_seq_exec(part, marker) {
            proof {
                assert(first_next_part(split_parts(t)) == Some(part@));
            }
            return extract_url(part);
        }
        if end == n {
            proof {
                assert(!contains_seq(t, next_marker()));
                assert(seq![t].skip(1) =~= Seq::<Seq<char>>::empty());
                assert(first_next_part(seq![t]) == first_next_part(Seq::<Seq<char>>::empty()));
                assert(first_next_part(Seq::<Seq<char>>::empty()) is None);
            }
            return None;
        }
        proof {
            let parts = seq![part@] + split_parts(link@.skip(end + 1));
            assert(parts.skip(1) =~= split_parts(link@.skip(end + 1)));
            assert(first_next_part(split_parts(t)) == first_next_part(
                split_parts(link@.skip(end + 1)),
            ));
        }
        start = end + 1;
    }
}

} // verus!
