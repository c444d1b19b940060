//! The ranked view of a catalog for a query.

use crate::catalog::Application;
use crate::catalog::Catalog;
use crate::scoring::scorable;
use crate::scoring::skim_match;
use crate::scoring::skim_score;
use vstd::prelude::*;

verus! {

/// The score of each entry's name for `query`, in the entries' order.
pub open spec fn scores_of(entries: Seq<Application>, query: Seq<char>) -> Seq<Option<i64>> {
    Seq::new(entries.len(), |i: int| skim_score(entries[i].name@, query))
}

/// Whether entry `a` stands before entry `b` in a ranking: its score is
/// higher, or the scores are equal and it stands before `b` in the catalog.
pub open spec fn outranks(scores: Seq<Option<i64>>, a: int, b: int) -> bool {
    scores[a].unwrap() > scores[b].unwrap() || (scores[a].unwrap() == scores[b].unwrap() && a < b)
}

/// Whether `order` lists only positions among the first `n` whose entry
/// matched.
pub open spec fn lists_matches(scores: Seq<Option<i64>>, n: int, order: Seq<int>) -> bool {
    forall|k: int|
        0 <= k < order.len() ==> 0 <= #[trigger] order[k] < n && scores[order[k]].is_some()
}

/// Whether `order` lists every position among the first `n` whose entry
/// matched.
pub open spec fn lists_all_matches(scores: Seq<Option<i64>>, n: int, order: Seq<int>) -> bool {
    forall|i: int| 0 <= i < n && (#[trigger] scores[i]).is_some() ==> order.contains(i)
}

/// Whether each position of `order` outranks all that follow it.
pub open spec fn descends(scores: Seq<Option<i64>>, order: Seq<int>) -> bool {
    forall|k: int, l: int|
        0 <= k < l < order.len() ==> outranks(scores, #[trigger] order[k], #[trigger] order[l])
}

/// Whether `order` ranks the first `n` entries: it lists the positions of
/// those that matched, and no others, and each outranks all that follow it.
pub open spec fn ranks(scores: Seq<Option<i64>>, n: int, order: Seq<int>) -> bool {
    &&& lists_matches(scores, n, order)
    &&& lists_all_matches(scores, n, order)
    &&& descends(scores, order)
}

/// Where an entry with score `s` that comes after all of `order` in the
/// catalog goes: behind the last entry whose score is not lower.
pub open spec fn slot(scores: Seq<Option<i64>>, order: Seq<int>, s: i64) -> int
    decreases order.len(),
{
    if order.len() == 0 {
        0
    } else if scores[order.last()].unwrap() >= s {
        order.len() as int
    } else {
        slot(scores, order.drop_last(), s)
    }
}

/// The ranking of the first `n` entries.
pub open spec fn ranking_of_first(scores: Seq<Option<i64>>, n: nat) -> Seq<int>
    decreases n,
{
    if n == 0 {
        Seq::empty()
    } else {
        let earlier = ranking_of_first(scores, (n - 1) as nat);
        match scores[n - 1] {
            None => earlier,
            Some(s) => earlier.insert(slot(scores, earlier, s), n - 1),
        }
    }
}

/// The positions in the catalog of the entries that matched, best score
/// first, entries of equal score in the catalog's order.
pub open spec fn ranking(scores: Seq<Option<i64>>) -> Seq<int> {
    ranking_of_first(scores, scores.len())
}

/// The positions in the catalog of the entries of the view, in the view's
/// order: every position where the query is empty, the ranking where it is not.
pub open spec fn view_order(entries: Seq<Application>, query: Seq<char>) -> Seq<int> {
    if query.len() == 0 {
        Seq::new(entries.len(), |i: int| i)
    } else {
        ranking(scores_of(entries, query))
    }
}

/// The entries at the positions `order`.
pub open spec fn pick(entries: Seq<Application>, order: Seq<int>) -> Seq<Application> {
    Seq::new(order.len(), |k: int| entries[order[k]])
}

/// The view of the catalog for `query`.
pub open spec fn ranked_view(entries: Seq<Application>, query: Seq<char>) -> Seq<Application> {
    pick(entries, view_order(entries, query))
}

/// What `slot` chooses splits a descending order: no score before it is lower
/// than `s`, every score from it on is.
pub proof fn lemma_slot_splits(scores: Seq<Option<i64>>, order: Seq<int>, s: i64)
    requires
        descends(scores, order),
    ensures
        0 <= slot(scores, order, s) <= order.len(),
        forall|k: int|
            0 <= k < slot(scores, order, s) ==> scores[#[trigger] order[k]].unwrap() >= s,
        forall|k: int|
            slot(scores, order, s) <= k < order.len() ==> scores[#[trigger] order[k]].unwrap() < s,
    decreases order.len(),
{
    if order.len() == 0 {
    } else if scores[order.last()].unwrap() >= s {
        let last = order.len() - 1;
        assert forall|k: int| 0 <= k < order.len() implies scores[#[trigger] order[k]].unwrap()
            >= s by {
            if k < last {
                assert(outranks(scores, order[k], order[last]));
            }
        }
    } else {
        let shorter = order.drop_last();
        assert(descends(scores, shorter)) by {
            assert forall|k: int, l: int| 0 <= k < l < shorter.len() implies outranks(
                scores,
                #[trigger] shorter[k],
                #[trigger] shorter[l],
            ) by {
                assert(shorter[k] == order[k] && shorter[l] == order[l]);
            }
        }
        lemma_slot_splits(scores, shorter, s);
        assert forall|k: int| 0 <= k < slot(scores, order, s) implies scores[#[trigger] order[k]].unwrap()
            >= s by {
            assert(shorter[k] == order[k]);
        }
        assert forall|k: int| slot(scores, order, s) <= k < order.len() implies scores[#[trigger] order[k]].unwrap()
            < s by {
            if k < shorter.len() {
                assert(shorter[k] == order[k]);
            }
        }
    }
}

/// The ranking of the first `n` entries ranks them.
pub proof fn lemma_ranking_of_first_ranks(scores: Seq<Option<i64>>, n: nat)
    requires
        n <= scores.len(),
    ensures
        ranks(scores, n as int, ranking_of_first(scores, n)),
    decreases n,
{
    if n > 0 {
        let earlier = ranking_of_first(scores, (n - 1) as nat);
        lemma_ranking_of_first_ranks(scores, (n - 1) as nat);
        match scores[n - 1] {
            None => {},
            Some(s) => {
                lemma_slot_splits(scores, earlier, s);
                let p = slot(scores, earlier, s);
                let order = earlier.insert(p, n - 1);
                assert(order == ranking_of_first(scores, n));
                assert forall|k: int| 0 <= k < order.len() implies 0 <= #[trigger] order[k] < n
                    && scores[order[k]].is_some() by {
                    if k < p {
                        assert(order[k] == earlier[k]);
                    } else if k > p {
                        assert(order[k] == earlier[k - 1]);
                    }
                }
                assert forall|i: int| 0 <= i < n && (#[trigger] scores[i]).is_some() implies order.contains(
                    i,
                ) by {
                    if i == n - 1 {
                        assert(order[p] == i);
                    } else {
                        assert(earlier.contains(i));
                        let k = choose|k: int| 0 <= k < earlier.len() && earlier[k] == i;
                        if k < p {
                            assert(order[k] == i);
                        } else {
                            assert(order[k + 1] == i);
                        }
                    }
                }
                assert forall|k: int, l: int| 0 <= k < l < order.len() implies outranks(
                    scores,
                    #[trigger] order[k],
                    #[trigger] order[l],
                ) by {
                    let a = if k < p { k } else { k - 1 };
                    let b = if l < p { l } else { l - 1 };
                    if k != p {
                        assert(order[k] == earlier[a]);
                    }
                    if l != p {
                        assert(order[l] == earlier[b]);
                    }
                    if k != p && l != p {
                        assert(outranks(scores, earlier[a], earlier[b]));
                    }
                }
            },
        }
    }
}

/// Two orders that rank the same entries are the same order.
pub proof fn lemma_ranks_once(scores: Seq<Option<i64>>, n: int, a: Seq<int>, b: Seq<int>)
    requires
        ranks(scores, n, a),
        ranks(scores, n, b),
    ensures
        a == b,
{
    lemma_ranks_agree(scores, n, a, b, a.len() as int);
    lemma_ranks_agree(scores, n, b, a, b.len() as int);
    assert(a =~= b);
}

/// Two orders that rank the same entries agree on their first `m` places, and
/// the second has at least `m`.
proof fn lemma_ranks_agree(scores: Seq<Option<i64>>, n: int, a: Seq<int>, b: Seq<int>, m: int)
    requires
        ranks(scores, n, a),
        ranks(scores, n, b),
        0 <= m <= a.len(),
    ensures
        m <= b.len(),
        forall|k: int| 0 <= k < m ==> a[k] == b[k],
    decreases m,
{
    if m > 0 {
        lemma_ranks_agree(scores, n, a, b, m - 1);
        let k = m - 1;
        // a[k] stands somewhere in b, and not among the places that agree.
        assert(scores[a[k]].is_some());
        assert(b.contains(a[k]));
        let j = choose|j: int| 0 <= j < b.len() && b[j] == a[k];
        if j < k {
            assert(a[j] == b[j]);
            assert(outranks(scores, a[j], a[k]));
        }
        if j > k {
            // Then b[k] stands in a behind its place k, and each outranks the other.
            assert(scores[b[k]].is_some());
            assert(a.contains(b[k]));
            let i = choose|i: int| 0 <= i < a.len() && a[i] == b[k];
            if i < k {
                assert(a[i] == b[i]);
                assert(outranks(scores, b[i], b[k]));
            }
            if i > k {
                assert(outranks(scores, a[k], a[i]));
                assert(outranks(scores, b[k], b[j]));
            }
        }
    }
}

/// The ranking lists exactly the entries that matched, each outranking all
/// that follow it, and no other order does.
pub proof fn lemma_ranking_ranks(scores: Seq<Option<i64>>)
    ensures
        ranks(scores, scores.len() as int, ranking(scores)),
        forall|order: Seq<int>|
            ranks(scores, scores.len() as int, order) ==> order == ranking(scores),
{
    lemma_ranking_of_first_ranks(scores, scores.len());
    assert forall|order: Seq<int>| ranks(scores, scores.len() as int, order) implies order
        == ranking(scores) by {
        lemma_ranks_once(scores, scores.len() as int, order, ranking(scores));
    }
}

/// The positions of a vector of positions, as integers.
pub open spec fn positions(order: Seq<usize>) -> Seq<int> {
    Seq::new(order.len(), |k: int| order[k] as int)
}

/// Finds where an entry with score `s` goes among the entries ranked so far,
/// whose scores are `keys`.
fn find_slot(
    keys: &Vec<i64>,
    s: i64,
    Ghost(scores): Ghost<Seq<Option<i64>>>,
    Ghost(order): Ghost<Seq<int>>,
) -> (p: usize)
    requires
        keys@.len() == order.len(),
        forall|k: int| 0 <= k < order.len() ==> scores[#[trigger] order[k]] == Some(keys@[k]),
    ensures
        p == slot(scores, order, s),
        p <= keys@.len(),
{
    let mut p: usize = keys.len();
    proof {
        assert(order.take(p as int) =~= order);
    }
    while p > 0 && keys[p - 1] < s
        invariant
            p <= keys@.len(),
            keys@.len() == order.len(),
            forall|k: int| 0 <= k < order.len() ==> scores[#[trigger] order[k]] == Some(keys@[k]),
            slot(scores, order, s) == slot(scores, order.take(p as int), s),
        decreases p,
    {
        proof {
            let front = order.take(p as int);
            assert(front.last() == order[p - 1]);
            assert(front.drop_last() =~= order.take(p - 1));
        }
        p -= 1;
    }
    proof {
        let front = order.take(p as int);
        if p > 0 {
            assert(front.last() == order[p - 1]);
        }
    }
    p
}

/// The score of each entry's name for `query`, in the catalog's order.
pub fn score_entries(catalog: &Catalog, query: &str) -> (scores: Vec<Option<i64>>)
    requires
        scorable(query@),
    ensures
        scores@ == scores_of(catalog@, query@),
{
    let entries = catalog.entries();
    let mut scores: Vec<Option<i64>> = Vec::new();
    let mut i: usize = 0;
    while i < entries.len()
        invariant
            i <= entries@.len(),
            entries@ == catalog@,
            scorable(query@),
            scores@.len() == i,
            forall|k: int| 0 <= k < i ==> scores@[k] == skim_score(entries@[k].name@, query@),
        decreases entries@.len() - i,
    {
        scores.push(skim_match(entries[i].name.as_str(), query));
        i += 1;
    }
    proof {
        assert(scores@ =~= scores_of(catalog@, query@));
    }
    scores
}

/// Ranks entries by their scores: the positions of those that have one, best
/// score first, positions of equal score in ascending order.
pub fn rank_scores(scores: &Vec<Option<i64>>) -> (order: Vec<usize>)
    ensures
        positions(order@) == ranking(scores@),
        forall|k: int| 0 <= k < order@.len() ==> (#[trigger] order@[k]) < scores@.len(),
{
    let n: usize = scores.len();
    let mut order: Vec<usize> = Vec::new();
    let mut keys: Vec<i64> = Vec::new();
    let mut i: usize = 0;
    proof {
        assert(positions(order@) =~= ranking_of_first(scores@, 0));
    }
    while i < n
        invariant
            i <= n,
            n == scores@.len(),
            keys@.len() == order@.len(),
            positions(order@) == ranking_of_first(scores@, i as nat),
            forall|k: int| 0 <= k < order@.len() ==> (#[trigger] order@[k]) < i,
            forall|k: int|
                0 <= k < order@.len() ==> scores@[#[trigger] positions(order@)[k]] == Some(
                    keys@[k],
                ),
        decreases n - i,
    {
        if let Some(s) = scores[i] {
            let ghost before = positions(order@);
            let p = find_slot(&keys, s, Ghost(scores@), Ghost(before));
            order.insert(p, i);
            keys.insert(p, s);
            proof {
                assert(positions(order@) =~= before.insert(p as int, i as int));
                assert forall|k: int| 0 <= k < order@.len() implies scores@[#[trigger] positions(
                    order@,
                )[k]] == Some(keys@[k]) by {
                    if k < p {
                        assert(positions(order@)[k] == before[k]);
                    } else if k > p {
                        assert(positions(order@)[k] == before[k - 1]);
                    }
                }
            }
        }
        i += 1;
    }
    order
}

/// The positions in the catalog of the entries of the view for `query`, in
/// the view's order.
pub fn rank_positions(catalog: &Catalog, query: &str) -> (order: Vec<usize>)
    requires
        scorable(query@),
    ensures
        positions(order@) == view_order(catalog@, query@),
        forall|k: int| 0 <= k < order@.len() ==> (#[trigger] order@[k]) < catalog@.len(),
{
    if query.is_empty() {
        let n: usize = catalog.len();
        let mut order: Vec<usize> = Vec::new();
        let mut i: usize = 0;
        while i < n
            invariant
                i <= n,
                n == catalog@.len(),
                order@.len() == i,
                forall|k: int| 0 <= k < i ==> order@[k] == k,
            decreases n - i,
        {
            order.push(i);
            i += 1;
        }
        proof {
            assert(positions(order@) =~= view_order(catalog@, query@));
        }
        order
    } else {
        let scores = score_entries(catalog, query);
        rank_scores(&scores)
    }
}

/// The view of the catalog for `query`.
///
/// For the empty query it is the whole catalog in its own order. For any
/// other query it holds the entries whose name the query matches, best score
/// first; entries of equal score keep the order they have in the catalog.
pub fn rank(catalog: &Catalog, query: &str) -> (view: Vec<Application>)
    requires
        scorable(query@),
    ensures
        view@ == ranked_view(catalog@, query@),
{
    let order = rank_positions(catalog, query);
    let entries = catalog.entries();
    let mut view: Vec<Application> = Vec::new();
    let mut k: usize = 0;
    while k < order.len()
        invariant
            k <= order@.len(),
            view@.len() == k,
            entries@ == catalog@,
            forall|m: int| 0 <= m < order@.len() ==> (#[trigger] order@[m]) < catalog@.len(),
            forall|m: int| 0 <= m < k ==> view@[m] == entries@[order@[m] as int],
        decreases order@.len() - k,
    {
        view.push(entries[order[k]].clone());
        k += 1;
    }
    proof {
        assert(view@ =~= pick(catalog@, positions(order@)));
    }
    view
}

/// The view for the empty query is the catalog itself: every entry, in the
/// catalog's order.
pub proof fn lemma_empty_query_keeps_catalog(entries: Seq<Application>, query: Seq<char>)
    requires
        query.len() == 0,
    ensures
        ranked_view(entries, query) == entries,
{
    assert(ranked_view(entries, query) =~= entries);
}

/// Ranking is stable: of two entries with the same score, the one that
/// stands first in the catalog stands first in the view, whatever the query.
pub proof fn lemma_ranking_is_stable(
    entries: Seq<Application>,
    query: Seq<char>,
    i: int,
    j: int,
    k: int,
    l: int,
)
    requires
        0 <= i < j < entries.len(),
        skim_score(entries[i].name@, query) == skim_score(entries[j].name@, query),
        0 <= k < view_order(entries, query).len(),
        0 <= l < view_order(entries, query).len(),
        view_order(entries, query)[k] == i,
        view_order(entries, query)[l] == j,
    ensures
        k < l,
{
    if query.len() > 0 {
        let scores = scores_of(entries, query);
        let order = ranking(scores);
        lemma_ranking_ranks(scores);
        if l < k {
            assert(outranks(scores, order[l], order[k]));
        }
    }
}

/// The view holds the entries that its order names: it is as long as the
/// order, and each of its entries is the entry of the catalog at the position
/// that the order gives. For a query that is not empty, the order lists the
/// entries that matched, and no others, and each outranks all that follow it.
pub proof fn lemma_view_is_ranked(entries: Seq<Application>, query: Seq<char>)
    ensures
        ranked_view(entries, query).len() == view_order(entries, query).len(),
        forall|k: int|
            0 <= k < view_order(entries, query).len() ==> 0 <= #[trigger] view_order(
                entries,
                query,
            )[k] < entries.len() && ranked_view(entries, query)[k] == entries[view_order(
                entries,
                query,
            )[k]],
        query.len() > 0 ==> ranks(
            scores_of(entries, query),
            entries.len() as int,
            view_order(entries, query),
        ),
{
    if query.len() > 0 {
        lemma_ranking_ranks(scores_of(entries, query));
    }
}

} // verus!
