//! The reduction of fetched reactions into a sorted ranking.
//!
//! One reaction fetch runs per issue and the fetches complete in no fixed
//! order, so the reduction may only depend on *which* results arrived,
//! never on their order: it counts each issue's positive reactions, drops
//! issues without any, and sorts by count with the issue number as the
//! tie-breaker, which makes the ranking a function of the result set.

use vstd::prelude::*;
use vstd::seq_lib::group_to_multiset_ensures;
use vstd::seq_lib::lemma_multiset_commutative;
use vstd::multiset::Multiset;
use vstd::multiset::group_multiset_axioms;
use crate::model::IssueReaction;
use crate::model::count_positive;
use crate::model::count_positive_reactions;
use crate::model::lemma_count_positive_bounds;

verus! {

/// What one reaction fetch came back with: the issue it belongs to and
/// the reactions attached to that issue.
pub struct FetchedReactions {
    pub number: usize,
    pub title: String,
    pub reactions: Vec<IssueReaction>,
}

/// One line of the ranking.
pub struct RankedEntry {
    pub issue_number: usize,
    pub title: String,
    pub positive_reaction_count: usize,
}

/// The entry that one fetch result reduces to.
pub open spec fn entry_of(r: FetchedReactions) -> RankedEntry {
    RankedEntry {
        issue_number: r.number,
        title: r.title,
        positive_reaction_count: count_positive(r.reactions@) as usize,
    }
}

/// Whether an entry carries at least one positive reaction.
pub open spec fn has_positive(e: RankedEntry) -> bool {
    e.positive_reaction_count > 0
}

/// The entries of a batch of fetch results in arrival order, issues
/// without a positive reaction dropped.
pub open spec fn spec_aggregate(rs: Seq<FetchedReactions>) -> Seq<RankedEntry>
    decreases rs.len(),
{
    if rs.len() == 0 {
        Seq::empty()
    } else {
        spec_aggregate(rs.drop_last()) + if has_positive(entry_of(rs.last())) {
            seq![entry_of(rs.last())]
        } else {
            Seq::empty()
        }
    }
}

/// The ranking entries of a batch, taken as a set with multiplicity: the
/// form in which the reduction forgets arrival order.
pub open spec fn aggregate_multiset(rs: Seq<FetchedReactions>) -> Multiset<RankedEntry> {
    spec_aggregate(rs).to_multiset()
}

/// Every aggregated entry carries a positive reaction.
pub proof fn lemma_aggregate_positive(rs: Seq<FetchedReactions>)
    ensures
        forall|k: int|
            0 <= k < spec_aggregate(rs).len() ==> has_positive(#[trigger] spec_aggregate(rs)[k]),
    decreases rs.len(),
{
    if rs.len() > 0 {
        lemma_aggregate_positive(rs.drop_last());
        let prefix = spec_aggregate(rs.drop_last());
        assert forall|k: int|
            0 <= k < spec_aggregate(rs).len() implies has_positive(
            #[trigger] spec_aggregate(rs)[k],
        ) by {
            if k < prefix.len() {
                assert(spec_aggregate(rs)[k] == prefix[k]);
            } else {
                assert(spec_aggregate(rs)[k] == entry_of(rs.last()));
            }
        }
    }
}

/// Reduces fetch results to ranking entries: counts each issue's positive
/// reactions and drops the issues without any.
pub fn aggregate(results: Vec<FetchedReactions>) -> (entries: Vec<RankedEntry>)
    ensures
        entries@ == spec_aggregate(results@),
{
    let mut entries: Vec<RankedEntry> = Vec::new();
    let mut i: usize = 0;
    proof {
        assert(results@.take(0) =~= Seq::<FetchedReactions>::empty());
    }
    while i < results.len()
        invariant
            i <= results@.len(),
            entries@ == spec_aggregate(results@.take(i as int)),
        decreases results@.len() - i,
    {
        let count = count_positive_reactions(&results[i].reactions);
        proof {
            lemma_count_positive_bounds(results@[i as int].reactions@);
            assert(results@.take(i + 1).drop_last() =~= results@.take(i as int));
            assert(results@.take(i + 1).last() == results@[i as int]);
        }
        if count > 0 {
            let entry = RankedEntry {
                issue_number: results[i].number,
                title: results[i].title.clone(),
                positive_reaction_count: count,
            };
            proof {
                assert(entry == entry_of(results@[i as int]));
                assert(entries@ + seq![entry] =~= spec_aggregate(results@.take(i + 1)));
            }
            entries.push(entry);
        } else {
            proof {
                assert(spec_aggregate(results@.take(i + 1)) =~= entries@ + Seq::<
                    RankedEntry,
                >::empty());
                assert(entries@ + Seq::<RankedEntry>::empty() =~= entries@);
            }
        }
        i = i + 1;
    }
    proof {
        assert(results@.take(results@.len() as int) =~= results@);
    }
    entries
}

/// The ranking order: more positive reactions first, and between equal
/// counts the smaller issue number first, so that the order of a ranking
/// never depends on the order the fetches completed in.
pub open spec fn entry_le(a: RankedEntry, b: RankedEntry) -> bool {
    ||| a.positive_reaction_count > b.positive_reaction_count
    ||| (a.positive_reaction_count == b.positive_reaction_count && a.issue_number
        <= b.issue_number)
}

/// Whether a sequence of entries is in ranking order.
pub open spec fn ranking_sorted(s: Seq<RankedEntry>) -> bool {
    forall|i: int, j: int| 0 <= i < j < s.len() ==> entry_le(s[i], s[j])
}

/// Where an entry belongs in a ranking already in order: after every
/// entry that ranks at least as high, so that an entry inserted later
/// never overtakes an equal one.
pub open spec fn spec_insert_ranked(s: Seq<RankedEntry>, e: RankedEntry) -> Seq<RankedEntry>
    decreases s.len(),
{
    if s.len() > 0 && entry_le(s.first(), e) {
        seq![s.first()] + spec_insert_ranked(s.drop_first(), e)
    } else {
        seq![e] + s
    }
}

/// The ranking of a sequence of entries: each inserted, in order, into
/// the ranking of the entries before it.
pub open spec fn spec_rank(entries: Seq<RankedEntry>) -> Seq<RankedEntry>
    decreases entries.len(),
{
    if entries.len() == 0 {
        Seq::empty()
    } else {
        spec_insert_ranked(spec_rank(entries.drop_last()), entries.last())
    }
}

/// Inserting at the first position whose entry does not rank at least as
/// high is the ordered insertion.
proof fn lemma_insert_at_position(s: Seq<RankedEntry>, e: RankedEntry, j: int)
    requires
        0 <= j <= s.len(),
        forall|k: int| 0 <= k < j ==> entry_le(#[trigger] s[k], e),
        j < s.len() ==> !entry_le(s[j], e),
    ensures
        s.insert(j, e) == spec_insert_ranked(s, e),
    decreases s.len(),
{
    if j == 0 {
        assert(s.insert(0, e) =~= seq![e] + s);
    } else {
        let tail = s.drop_first();
        assert(forall|k: int| 0 <= k < j - 1 ==> tail[k] == s[k + 1]);
        assert(j - 1 < tail.len() ==> !entry_le(tail[j - 1], e));
        lemma_insert_at_position(tail, e, j - 1);
        assert(entry_le(s.first(), e));
        assert(s.insert(j, e) =~= seq![s.first()] + tail.insert(j - 1, e));
    }
}

/// The ranking order, decided executably.
fn entry_le_exec(a: &RankedEntry, b: &RankedEntry) -> (r: bool)
    ensures
        r == entry_le(*a, *b),
{
    a.positive_reaction_count > b.positive_reaction_count || (a.positive_reaction_count
        == b.positive_reaction_count && a.issue_number <= b.issue_number)
}

/// Sorts entries into ranking order: the result is the ranking of the
/// entries, and the entries themselves are kept.
pub fn sort_entries(entries: Vec<RankedEntry>) -> (r: Vec<RankedEntry>)
    ensures
        ranking_sorted(r@),
        r@.to_multiset() == entries@.to_multiset(),
        r@ == spec_rank(entries@),
{
    broadcast use group_to_multiset_ensures;
    broadcast use group_multiset_axioms;

    let ghost all = entries@;
    let mut rest = entries;
    let mut r: Vec<RankedEntry> = Vec::new();
    proof {
        assert(r@ + rest@ =~= rest@);
        lemma_multiset_commutative(r@, rest@);
        assert(all.skip(0) =~= all);
        assert(all.take(0) =~= Seq::<RankedEntry>::empty());
    }
    while rest.len() > 0
        invariant
            ranking_sorted(r@),
            r@.to_multiset().add(rest@.to_multiset()) == all.to_multiset(),
            rest@.len() <= all.len(),
            rest@ == all.skip(all.len() - rest@.len()),
            r@ == spec_rank(all.take(all.len() - rest@.len())),
        decreases rest.len(),
    {
        let ghost before = rest@;
        let ghost pos = all.len() - before.len();
        let e = rest.remove(0);
        proof {
            assert(before[0] == all[pos as int]);
            assert(before[0] == e);
            assert(before.remove(0) =~= rest@);
            assert(before.skip(1) =~= all.skip(pos as int + 1));
            vstd::seq_lib::to_multiset_remove(before, 0);
            vstd::seq_lib::to_multiset_contains(before, e);
            assert(before.contains(e));
            assert(before.to_multiset().count(e) > 0);
            assert(before.to_multiset() =~= rest@.to_multiset().insert(e));
        }
        let mut j: usize = 0;
        while j < r.len() && entry_le_exec(&r[j], &e)
            invariant
                j <= r@.len(),
                forall|k: int| 0 <= k < j ==> entry_le(#[trigger] r@[k], e),
            decreases r@.len() - j,
        {
            j = j + 1;
        }
        proof {
            assert(j < r@.len() ==> !entry_le(r@[j as int], e));
            assert forall|k: int| j <= k < r@.len() implies entry_le(e, #[trigger] r@[k]) by {
                assert(!entry_le(r@[j as int], e));
                if k > j {
                    assert(entry_le(r@[j as int], r@[k]));
                }
            }
        }
        let ghost old_r = r@;
        r.insert(j, e);
        proof {
            assert(r@ == old_r.insert(j as int, e));
            vstd::seq_lib::to_multiset_insert(old_r, j as int, e);
            assert(old_r.insert(j as int, e).to_multiset() == old_r.to_multiset().insert(e));
            lemma_insert_at_position(old_r, e, j as int);
            assert(all.take(pos + 1).drop_last() =~= all.take(pos as int));
            assert(all.take(pos + 1).last() == all[pos as int]);
            assert(spec_rank(all.take(pos + 1)) == spec_insert_ranked(
                spec_rank(all.take(pos as int)),
                e,
            ));
            assert(r@ == spec_rank(all.take(pos + 1)));
            assert(ranking_sorted(r@)) by {
                assert forall|p: int, q: int| 0 <= p < q < r@.len() implies entry_le(
                    r@[p],
                    r@[q],
                ) by {
                    assert(forall|k: int|
                        0 <= k < r@.len() ==> r@[k] == (if k < j {
                            old_r[k]
                        } else if k == j {
                            e
                        } else {
                            old_r[k - 1]
                        }));
                }
            }
            assert(r@.to_multiset().add(rest@.to_multiset()) =~= old_r.to_multiset().add(
                before.to_multiset(),
            ));
        }
    }
    proof {
        vstd::seq_lib::to_multiset_len(rest@);
        assert(rest@.to_multiset().len() == 0);
        assert(rest@.to_multiset() =~= Multiset::<RankedEntry>::empty());
        assert(r@.to_multiset().add(Multiset::<RankedEntry>::empty()) =~= r@.to_multiset());
        assert(all.take(all.len() as int) =~= all);
    }
    r
}

/// The first `limit` entries of a ranking when `limit` is positive; the
/// whole ranking when `limit` is zero, which means unlimited.
pub fn truncate_ranking(entries: Vec<RankedEntry>, limit: usize) -> (r: Vec<RankedEntry>)
    ensures
        limit == 0 ==> r@ == entries@,
        limit > 0 ==> r@ == entries@.take(
            if limit <= entries@.len() {
                limit as int
            } else {
                entries@.len() as int
            },
        ),
{
    let ghost all = entries@;
    if limit == 0 || limit >= entries.len() {
        proof {
            assert(all.take(all.len() as int) =~= all);
        }
        return entries;
    }
    let mut r = entries;
    proof {
        assert(all.take(all.len() as int) =~= all);
    }
    while r.len() > limit
        invariant
            limit <= r@.len() <= all.len(),
            r@ == all.take(r@.len() as int),
        decreases r@.len(),
    {
        let ghost m = r@.len() as int;
        r.pop();
        proof {
            assert(all.take(m).drop_last() =~= all.take(m - 1));
        }
    }
    r
}

/// Produces the ranking of a batch of fetch results: one entry per issue
/// with a positive reaction, in ranking order, truncated to the first
/// `limit` entries when `limit` is positive (zero means unlimited). The
/// untruncated ranking is exactly the ordered reduction of the batch, and
/// carries exactly the entries the batch reduces to.
///
/// The batch holds one result per issue — one fetch runs per issue, over
/// an issue list with repeats dropped — so no accumulation across results
/// is called for: an issue's whole count stands in its one result.
pub fn rank_issues(results: Vec<FetchedReactions>, limit: usize) -> (r: Vec<RankedEntry>)
    requires
        distinct_issue_numbers(results@),
    ensures
        ranking_sorted(r@),
        forall|k: int| 0 <= k < r@.len() ==> has_positive(#[trigger] r@[k]),
        r@ == (if limit == 0 {
            spec_rank(spec_aggregate(results@))
        } else {
            spec_rank(spec_aggregate(results@)).take(
                if limit <= spec_rank(spec_aggregate(results@)).len() {
                    limit as int
                } else {
                    spec_rank(spec_aggregate(results@)).len() as int
                },
            )
        }),
{
    broadcast use group_to_multiset_ensures;

    let ghost input = results@;
    let entries = aggregate(results);
    let sorted = sort_entries(entries);
    let ghost full = sorted@;
    let r = truncate_ranking(sorted, limit);
    proof {
        lemma_aggregate_positive(input);
        assert forall|k: int| 0 <= k < full.len() implies has_positive(#[trigger] full[k]) by {
            let agg = spec_aggregate(input);
            vstd::seq_lib::to_multiset_contains(full, full[k]);
            vstd::seq_lib::to_multiset_contains(agg, full[k]);
            assert(full.contains(full[k]));
            assert(full.to_multiset().count(full[k]) > 0);
            assert(agg.to_multiset().count(full[k]) > 0);
            assert(agg.contains(full[k]));
            let i = choose|i: int| 0 <= i < agg.len() && agg[i] == full[k];
            assert(has_positive(agg[i]));
        }
        if limit > 0 {
            assert forall|k: int| 0 <= k < r@.len() implies has_positive(#[trigger] r@[k]) by {
                assert(r@[k] == full[k]);
            }
            assert(ranking_sorted(r@)) by {
                assert forall|i: int, j: int| 0 <= i < j < r@.len() implies entry_le(
                    r@[i],
                    r@[j],
                ) by {
                    assert(r@[i] == full[i] && r@[j] == full[j]);
                }
            }
        }
    }
    r
}

/// Ordered insertion keeps a ranking in order and adds exactly the new
/// entry.
proof fn lemma_spec_insert_ranked_ensures(s: Seq<RankedEntry>, e: RankedEntry)
    requires
        ranking_sorted(s),
    ensures
        ranking_sorted(spec_insert_ranked(s, e)),
        spec_insert_ranked(s, e).to_multiset() == s.to_multiset().insert(e),
    decreases s.len(),
{
    broadcast use group_multiset_axioms;

    let res = spec_insert_ranked(s, e);
    if s.len() > 0 && entry_le(s.first(), e) {
        let tail = s.drop_first();
        assert(ranking_sorted(tail)) by {
            assert(forall|i: int| 0 <= i < tail.len() ==> tail[i] == s[i + 1]);
        }
        lemma_spec_insert_ranked_ensures(tail, e);
        let t = spec_insert_ranked(tail, e);
        lemma_to_multiset_singleton(s.first());
        lemma_multiset_commutative(seq![s.first()], t);
        assert(seq![s.first()] + tail =~= s);
        lemma_multiset_commutative(seq![s.first()], tail);
        assert(res.to_multiset() =~= s.to_multiset().insert(e));
        assert forall|p: int, q: int| 0 <= p < q < res.len() implies entry_le(res[p], res[q]) by {
            if p == 0 {
                let x = res[q];
                assert(x == t[q - 1]);
                assert(t.contains(x));
                vstd::seq_lib::to_multiset_contains(t, x);
                assert(t.to_multiset().count(x) > 0);
                if x == e {
                    assert(entry_le(s.first(), e));
                } else {
                    assert(tail.to_multiset().count(x) > 0);
                    vstd::seq_lib::to_multiset_contains(tail, x);
                    assert(tail.contains(x));
                    let i = choose|i: int| 0 <= i < tail.len() && tail[i] == x;
                    assert(tail[i] == s[i + 1]);
                    assert(entry_le(s[0], s[i + 1]));
                }
            } else {
                assert(res[p] == t[p - 1] && res[q] == t[q - 1]);
                assert(entry_le(t[p - 1], t[q - 1]));
            }
        }
    } else {
        lemma_to_multiset_singleton(e);
        lemma_multiset_commutative(seq![e], s);
        assert(res.to_multiset() =~= s.to_multiset().insert(e));
        assert forall|p: int, q: int| 0 <= p < q < res.len() implies entry_le(res[p], res[q]) by {
            if p == 0 {
                assert(s.len() > 0);
                assert(!entry_le(s.first(), e));
                assert(entry_le(e, s[0]));
                assert(res[q] == s[q - 1]);
                if q > 1 {
                    assert(entry_le(s[0], s[q - 1]));
                }
                assert(entry_le(e, s[q - 1]));
            } else {
                assert(res[p] == s[p - 1] && res[q] == s[q - 1]);
                assert(entry_le(s[p - 1], s[q - 1]));
            }
        }
    }
}

/// Law: the ranking of a sequence of entries is in ranking order and
/// holds exactly those entries.
pub proof fn lemma_spec_rank_ensures(entries: Seq<RankedEntry>)
    ensures
        ranking_sorted(spec_rank(entries)),
        spec_rank(entries).to_multiset() == entries.to_multiset(),
    decreases entries.len(),
{
    if entries.len() == 0 {
        assert(entries =~= Seq::<RankedEntry>::empty());
        lemma_to_multiset_empty::<RankedEntry>();
    } else {
        lemma_spec_rank_ensures(entries.drop_last());
        lemma_spec_insert_ranked_ensures(spec_rank(entries.drop_last()), entries.last());
        assert(spec_rank(entries) == spec_insert_ranked(
            spec_rank(entries.drop_last()),
            entries.last(),
        ));
        assert(entries.drop_last().push(entries.last()) =~= entries);
        vstd::seq_lib::to_multiset_build(entries.drop_last(), entries.last());
        assert(entries.to_multiset() == entries.drop_last().push(entries.last()).to_multiset());
        assert(spec_rank(entries).to_multiset() == spec_rank(
            entries.drop_last(),
        ).to_multiset().insert(entries.last()));
    }
}

/// Law: truncation keeps the top of the ranking: every entry kept ranks
/// at least as high as every entry of the full ranking it stands for.
pub proof fn lemma_truncation_keeps_top(full: Seq<RankedEntry>, limit: int)
    requires
        ranking_sorted(full),
        0 <= limit <= full.len(),
    ensures
        forall|i: int, j: int|
            0 <= i < limit && i <= j < full.len() ==> entry_le(
                #[trigger] full.take(limit)[i],
                #[trigger] full[j],
            ),
{
    assert forall|i: int, j: int|
        0 <= i < limit && i <= j < full.len() implies entry_le(
        #[trigger] full.take(limit)[i],
        #[trigger] full[j],
    ) by {
        assert(full.take(limit)[i] == full[i]);
        if i < j {
            assert(entry_le(full[i], full[j]));
        } else {
            assert(full[i] == full[j]);
        }
    }
}

/// The multiset of the empty sequence is the empty multiset.
proof fn lemma_to_multiset_empty<T>()
    ensures
        Seq::<T>::empty().to_multiset() == Multiset::<T>::empty(),
{
    broadcast use group_multiset_axioms;

    assert(Seq::<T>::empty().to_multiset() =~= Multiset::<T>::empty()) by {
        assert forall|a: T| Seq::<T>::empty().to_multiset().count(a) == 0 by {
            vstd::seq_lib::to_multiset_contains(Seq::<T>::empty(), a);
            assert(!Seq::<T>::empty().contains(a));
        }
    }
}

/// The multiset of a one-element sequence is the singleton multiset.
proof fn lemma_to_multiset_singleton<T>(x: T)
    ensures
        seq![x].to_multiset() == Multiset::<T>::singleton(x),
{
    broadcast use group_multiset_axioms;

    assert(seq![x] =~= Seq::<T>::empty().push(x));
    vstd::seq_lib::to_multiset_build(Seq::<T>::empty(), x);
    lemma_to_multiset_empty::<T>();
    assert(Multiset::<T>::empty().insert(x) =~= Multiset::<T>::singleton(x));
}

/// What one fetch result adds to the reduction: its entry when the issue
/// has a positive reaction, else nothing.
spec fn entry_contribution(r: FetchedReactions) -> Multiset<RankedEntry> {
    if has_positive(entry_of(r)) {
        Multiset::singleton(entry_of(r))
    } else {
        Multiset::empty()
    }
}

/// Taking one result out of a batch takes exactly its contribution out of
/// the reduction, wherever in the batch it stood.
proof fn lemma_aggregate_remove(rs: Seq<FetchedReactions>, j: int)
    requires
        0 <= j < rs.len(),
    ensures
        aggregate_multiset(rs) == aggregate_multiset(rs.remove(j)).add(entry_contribution(rs[j])),
    decreases rs.len(),
{
    broadcast use group_multiset_axioms;

    let last = rs.last();
    let tail_seq = if has_positive(entry_of(last)) {
        seq![entry_of(last)]
    } else {
        Seq::<RankedEntry>::empty()
    };
    assert(spec_aggregate(rs) == spec_aggregate(rs.drop_last()) + tail_seq);
    lemma_multiset_commutative(spec_aggregate(rs.drop_last()), tail_seq);
    if has_positive(entry_of(last)) {
        lemma_to_multiset_singleton(entry_of(last));
    } else {
        lemma_to_multiset_empty::<RankedEntry>();
    }
    assert(tail_seq.to_multiset() == entry_contribution(last));
    if j == rs.len() - 1 {
        assert(rs.remove(j) =~= rs.drop_last());
    } else {
        let prev = rs.drop_last();
        assert(rs[j] == prev[j]);
        lemma_aggregate_remove(prev, j);
        assert(rs.remove(j).len() > 0);
        assert(rs.remove(j).drop_last() =~= prev.remove(j));
        assert(rs.remove(j).last() == last);
        assert(spec_aggregate(rs.remove(j)) == spec_aggregate(prev.remove(j)) + tail_seq);
        lemma_multiset_commutative(spec_aggregate(prev.remove(j)), tail_seq);
        assert(aggregate_multiset(rs) =~= aggregate_multiset(rs.remove(j)).add(
            entry_contribution(rs[j]),
        ));
    }
}

/// Law: the reduction of a batch of fetch results does not depend on the
/// order the results arrived in: batches that hold the same results give
/// the same entries.
pub proof fn lemma_aggregate_order_invariant(a: Seq<FetchedReactions>, b: Seq<FetchedReactions>)
    requires
        a.to_multiset() == b.to_multiset(),
    ensures
        aggregate_multiset(a) == aggregate_multiset(b),
    decreases a.len(),
{
    broadcast use group_multiset_axioms;

    vstd::seq_lib::to_multiset_len(a);
    vstd::seq_lib::to_multiset_len(b);
    if a.len() == 0 {
        assert(a =~= b);
    } else {
        let n = a.len() - 1;
        let x = a.last();
        assert(a.contains(x));
        vstd::seq_lib::to_multiset_contains(a, x);
        vstd::seq_lib::to_multiset_contains(b, x);
        assert(b.contains(x));
        let j = choose|j: int| 0 <= j < b.len() && b[j] == x;
        vstd::seq_lib::to_multiset_remove(a, n);
        vstd::seq_lib::to_multiset_remove(b, j);
        assert(a.remove(n).to_multiset() == b.remove(j).to_multiset());
        lemma_aggregate_order_invariant(a.remove(n), b.remove(j));
        lemma_aggregate_remove(a, n);
        lemma_aggregate_remove(b, j);
    }
}

/// Whether no two entries of a ranking name the same issue, as holds when
/// one fetch ran per issue.
pub open spec fn distinct_numbers(s: Seq<RankedEntry>) -> bool {
    forall|i: int, j: int| 0 <= i < j < s.len() ==> s[i].issue_number != s[j].issue_number
}

/// Whether no two fetch results name the same issue, as holds when one
/// fetch ran per issue.
pub open spec fn distinct_issue_numbers(rs: Seq<FetchedReactions>) -> bool {
    forall|i: int, j: int| 0 <= i < j < rs.len() ==> rs[i].number != rs[j].number
}

/// Whether some result of a batch names the issue `n`.
spec fn names_issue(rs: Seq<FetchedReactions>, n: usize) -> bool {
    exists|i: int| 0 <= i < rs.len() && rs[i].number == n
}

/// Every aggregated entry names an issue of the batch.
proof fn lemma_aggregate_numbers(rs: Seq<FetchedReactions>)
    ensures
        forall|k: int|
            0 <= k < spec_aggregate(rs).len() ==> names_issue(
                rs,
                (#[trigger] spec_aggregate(rs)[k]).issue_number,
            ),
    decreases rs.len(),
{
    if rs.len() > 0 {
        let prev = rs.drop_last();
        lemma_aggregate_numbers(prev);
        let prefix = spec_aggregate(prev);
        assert forall|k: int|
            0 <= k < spec_aggregate(rs).len() implies names_issue(
            rs,
            (#[trigger] spec_aggregate(rs)[k]).issue_number,
        ) by {
            if k < prefix.len() {
                assert(spec_aggregate(rs)[k] == prefix[k]);
                let i = choose|i: int|
                    0 <= i < prev.len() && prev[i].number == prefix[k].issue_number;
                assert(rs[i].number == prefix[k].issue_number);
            } else {
                assert(spec_aggregate(rs)[k] == entry_of(rs.last()));
                assert(rs[rs.len() - 1].number == entry_of(rs.last()).issue_number);
            }
        }
    }
}

/// Law: a batch with one result per issue reduces to entries that name
/// pairwise distinct issues.
pub proof fn lemma_aggregate_distinct(rs: Seq<FetchedReactions>)
    requires
        distinct_issue_numbers(rs),
    ensures
        distinct_numbers(spec_aggregate(rs)),
    decreases rs.len(),
{
    if rs.len() > 0 {
        let prev = rs.drop_last();
        assert(distinct_issue_numbers(prev)) by {
            assert(forall|i: int, j: int|
                0 <= i < j < prev.len() ==> prev[i] == rs[i] && prev[j] == rs[j]);
        }
        lemma_aggregate_distinct(prev);
        lemma_aggregate_numbers(prev);
        let agg = spec_aggregate(rs);
        let prefix = spec_aggregate(prev);
        assert forall|p: int, q: int| 0 <= p < q < agg.len() implies agg[p].issue_number
            != agg[q].issue_number by {
            assert(agg[p] == prefix[p]);
            if q < prefix.len() {
                assert(agg[q] == prefix[q]);
            } else {
                assert(agg[q] == entry_of(rs.last()));
                assert(names_issue(prev, prefix[p].issue_number));
                let i = choose|i: int|
                    0 <= i < prev.len() && prev[i].number == prefix[p].issue_number;
                assert(rs[i].number == prefix[p].issue_number);
                assert(rs[i].number != rs[rs.len() - 1].number);
            }
        }
    }
}

/// Distinct issue numbers carry over to any reordering of the entries.
proof fn lemma_distinct_transfer(agg: Seq<RankedEntry>, x: Seq<RankedEntry>)
    requires
        distinct_numbers(agg),
        x.to_multiset() == agg.to_multiset(),
    ensures
        distinct_numbers(x),
{
    broadcast use group_multiset_axioms;

    assert(agg.no_duplicates()) by {
        assert forall|i: int, j: int|
            0 <= i < agg.len() && 0 <= j < agg.len() && i != j implies agg[i] != agg[j] by {
            if i < j {
                assert(agg[i].issue_number != agg[j].issue_number);
            } else {
                assert(agg[j].issue_number != agg[i].issue_number);
            }
        }
    }
    agg.lemma_multiset_has_no_duplicates();
    x.lemma_multiset_has_no_duplicates_conv();
    assert forall|p: int, q: int| 0 <= p < q < x.len() implies x[p].issue_number
        != x[q].issue_number by {
        assert(x[p] != x[q]);
        assert(x.contains(x[p]));
        assert(x.contains(x[q]));
        vstd::seq_lib::to_multiset_contains(x, x[p]);
        vstd::seq_lib::to_multiset_contains(x, x[q]);
        vstd::seq_lib::to_multiset_contains(agg, x[p]);
        vstd::seq_lib::to_multiset_contains(agg, x[q]);
        assert(agg.contains(x[p]));
        assert(agg.contains(x[q]));
        if x[p].issue_number == x[q].issue_number {
            let i = choose|i: int| 0 <= i < agg.len() && agg[i] == x[p];
            let j = choose|j: int| 0 <= j < agg.len() && agg[j] == x[q];
            assert(i != j);
            if i < j {
                assert(agg[i].issue_number != agg[j].issue_number);
            } else {
                assert(agg[j].issue_number != agg[i].issue_number);
            }
            assert(false);
        }
    }
}

/// Law: rankings are unique: two sequences in ranking order that hold the
/// same entries, with no issue named twice, are the same sequence.
pub proof fn lemma_sorted_ranking_unique(x: Seq<RankedEntry>, y: Seq<RankedEntry>)
    requires
        ranking_sorted(x),
        ranking_sorted(y),
        x.to_multiset() == y.to_multiset(),
        distinct_numbers(x),
    ensures
        x == y,
    decreases x.len(),
{
    broadcast use group_multiset_axioms;

    vstd::seq_lib::to_multiset_len(x);
    vstd::seq_lib::to_multiset_len(y);
    if x.len() == 0 {
        assert(x =~= y);
    } else {
        assert(y.contains(y[0]));
        vstd::seq_lib::to_multiset_contains(y, y[0]);
        vstd::seq_lib::to_multiset_contains(x, y[0]);
        assert(x.contains(y[0]));
        let k = choose|k: int| 0 <= k < x.len() && x[k] == y[0];
        assert(x.contains(x[0]));
        vstd::seq_lib::to_multiset_contains(x, x[0]);
        vstd::seq_lib::to_multiset_contains(y, x[0]);
        assert(y.contains(x[0]));
        let l = choose|l: int| 0 <= l < y.len() && y[l] == x[0];
        assert(entry_le(x[0], y[0])) by {
            if k != 0 {
                assert(entry_le(x[0], x[k]));
            }
        }
        assert(entry_le(y[0], x[0])) by {
            if l != 0 {
                assert(entry_le(y[0], y[l]));
            }
        }
        assert(x[0].issue_number == y[0].issue_number);
        if k != 0 {
            assert(x[0].issue_number != x[k].issue_number);
            assert(false);
        }
        assert(x[0] == y[0]);
        let xt = x.remove(0);
        let yt = y.remove(0);
        vstd::seq_lib::to_multiset_remove(x, 0);
        vstd::seq_lib::to_multiset_remove(y, 0);
        assert(xt.to_multiset() == yt.to_multiset());
        assert(forall|i: int| 0 <= i < xt.len() ==> xt[i] == x[i + 1]);
        assert(forall|i: int| 0 <= i < yt.len() ==> yt[i] == y[i + 1]);
        assert(ranking_sorted(xt)) by {
            assert forall|p: int, q: int| 0 <= p < q < xt.len() implies entry_le(
                xt[p],
                xt[q],
            ) by {
                assert(entry_le(x[p + 1], x[q + 1]));
            }
        }
        assert(ranking_sorted(yt)) by {
            assert forall|p: int, q: int| 0 <= p < q < yt.len() implies entry_le(
                yt[p],
                yt[q],
            ) by {
                assert(entry_le(y[p + 1], y[q + 1]));
            }
        }
        assert(distinct_numbers(xt)) by {
            assert forall|p: int, q: int| 0 <= p < q < xt.len() implies xt[p].issue_number
                != xt[q].issue_number by {
                assert(x[p + 1].issue_number != x[q + 1].issue_number);
            }
        }
        lemma_sorted_ranking_unique(xt, yt);
        assert(x =~= y) by {
            assert(forall|i: int| 0 < i < x.len() ==> x[i] == xt[i - 1] && y[i] == yt[i - 1]);
        }
    }
}

/// Law: the final ranking is invariant to the completion order of the
/// concurrent reaction fetches: when one fetch ran per issue, two runs
/// that collect the same results in any two orders have the same sorted
/// ranking, down to the sequence.
pub proof fn lemma_ranking_order_invariant(
    a: Seq<FetchedReactions>,
    b: Seq<FetchedReactions>,
    x: Seq<RankedEntry>,
    y: Seq<RankedEntry>,
)
    requires
        distinct_issue_numbers(a),
        a.to_multiset() == b.to_multiset(),
        ranking_sorted(x),
        x.to_multiset() == aggregate_multiset(a),
        ranking_sorted(y),
        y.to_multiset() == aggregate_multiset(b),
    ensures
        x == y,
{
    lemma_aggregate_distinct(a);
    lemma_distinct_transfer(spec_aggregate(a), x);
    lemma_aggregate_order_invariant(a, b);
    lemma_sorted_ranking_unique(x, y);
}

/// Law: the whole reduction is invariant to completion order: two batches
/// that hold the same results, one fetch per issue, rank to the same
/// sequence.
pub proof fn lemma_rank_issues_order_invariant(
    a: Seq<FetchedReactions>,
    b: Seq<FetchedReactions>,
)
    requires
        distinct_issue_numbers(a),
        a.to_multiset() == b.to_multiset(),
    ensures
        spec_rank(spec_aggregate(a)) == spec_rank(spec_aggregate(b)),
{
    lemma_spec_rank_ensures(spec_aggregate(a));
    lemma_spec_rank_ensures(spec_aggregate(b));
    lemma_ranking_order_invariant(
        a,
        b,
        spec_rank(spec_aggregate(a)),
        spec_rank(spec_aggregate(b)),
    );
}

} // verus!
