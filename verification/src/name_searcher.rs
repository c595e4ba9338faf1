//! Ranking of parties by name similarity.
//!
//! Similarity scores are numbers from 0 to 1.  The library receives each
//! score as its *score key*: the IEEE-754 bit pattern of the score, which for
//! non-negative numbers orders exactly as the numbers do.  A party's score is
//! the best score among its guests (0 when it has none).  A searcher returns
//! the parties scoring above 0.75, best first, parties with equal scores in
//! the order they were listed; `handler::search_parties` keeps the parties
//! scoring 0.75 or more.

use vstd::prelude::*;

use crate::guest_list::{GuestList, PartyEntry, PartyMapView, PartyView, lookup};

verus! {

/// The score key of 0.75, the similarity threshold.
pub const SCORE_THRESHOLD: u64 = 0x3FE8_0000_0000_0000;

/// Whether a score key passes the threshold: reaches it when `inclusive`,
/// else lies above it.
pub open spec fn qualifies(score: u64, inclusive: bool) -> bool {
    if inclusive {
        score >= SCORE_THRESHOLD
    } else {
        score > SCORE_THRESHOLD
    }
}

/// The threshold is the score 0.75: the search of the guest-list service
/// keeps exactly the score keys above that of 0.75, the site's own server
/// those at or above it.
pub proof fn lemma_threshold(score: u64)
    ensures
        qualifies(score, false) <==> score > 0x3FE8_0000_0000_0000u64,
        qualifies(score, true) <==> score >= 0x3FE8_0000_0000_0000u64,
        !qualifies(0, true),
{
}

/// Whether a score key passes the threshold.
pub fn passes(score: u64, inclusive: bool) -> (r: bool)
    ensures
        r == qualifies(score, inclusive),
{
    if inclusive {
        score >= SCORE_THRESHOLD
    } else {
        score > SCORE_THRESHOLD
    }
}

// ── Best score of a party ────────────────────────────────────────────────────

/// The largest of `s`, or 0 when `s` is empty.
pub open spec fn max_score(s: Seq<u64>) -> u64
    decreases s.len(),
{
    if s.len() == 0 {
        0
    } else {
        let m = max_score(s.drop_last());
        if s.last() > m {
            s.last()
        } else {
            m
        }
    }
}

/// The best score is the largest: no score of `s` exceeds it, and it is one
/// of the scores of `s` (0 when `s` is empty).
pub proof fn lemma_max_score(s: Seq<u64>)
    ensures
        forall|i: int| 0 <= i < s.len() ==> #[trigger] s[i] <= max_score(s),
        s.len() == 0 ==> max_score(s) == 0,
        s.len() > 0 ==> exists|i: int| 0 <= i < s.len() && #[trigger] s[i] == max_score(s),
    decreases s.len(),
{
    if s.len() > 0 {
        let p = s.drop_last();
        lemma_max_score(p);
        assert forall|i: int| 0 <= i < s.len() implies #[trigger] s[i] <= max_score(s) by {
            if i < p.len() {
                assert(s[i] == p[i]);
            }
        }
        if s.last() <= max_score(p) && p.len() > 0 {
            let i = choose|i: int| 0 <= i < p.len() && #[trigger] p[i] == max_score(p);
            assert(s[i] == p[i]);
        } else {
            assert(s[s.len() - 1] == max_score(s));
        }
    }
}

/// The largest of `scores`, or 0 when there are none.
pub fn best_score(scores: &Vec<u64>) -> (r: u64)
    ensures
        r == max_score(scores@),
        forall|i: int| 0 <= i < scores@.len() ==> #[trigger] scores@[i] <= r,
        scores@.len() == 0 ==> r == 0,
        scores@.len() > 0 ==> exists|i: int| 0 <= i < scores@.len() && #[trigger] scores@[i] == r,
{
    proof {
        lemma_max_score(scores@);
    }
    let mut best: u64 = 0;
    let mut i: usize = 0;
    while i < scores.len()
        invariant
            i <= scores@.len(),
            best == max_score(scores@.take(i as int)),
        decreases scores@.len() - i,
    {
        assert(scores@.take(i + 1).drop_last() =~= scores@.take(i as int));
        if scores[i] > best {
            best = scores[i];
        }
        i = i + 1;
    }
    assert(scores@.take(scores@.len() as int) =~= scores@);
    best
}

// ── Ranking ──────────────────────────────────────────────────────────────────

/// Whether the item at `i` ranks before the item at `j`: a higher score, or
/// an equal score and an earlier position.
pub open spec fn ranks_before(best: Seq<u64>, i: int, j: int) -> bool {
    best[i] > best[j] || (best[i] == best[j] && i < j)
}

/// The first position in `r`, from `k` on, whose item scores below `x`'s.
pub open spec fn insert_pos_from(best: Seq<u64>, r: Seq<usize>, x: int, k: int) -> int
    decreases r.len() - k,
{
    if k < 0 || k >= r.len() {
        r.len() as int
    } else if best[r[k] as int] < best[x] {
        k
    } else {
        insert_pos_from(best, r, x, k + 1)
    }
}

/// The positions `0..n` of `best` that pass the threshold, best first, ties
/// in position order.
pub open spec fn ranking_upto(best: Seq<u64>, n: nat, inclusive: bool) -> Seq<usize>
    decreases n,
{
    if n == 0 {
        Seq::empty()
    } else {
        let r = ranking_upto(best, (n - 1) as nat, inclusive);
        let x = n - 1;
        if qualifies(best[x], inclusive) {
            r.insert(insert_pos_from(best, r, x, 0), x as usize)
        } else {
            r
        }
    }
}

/// The positions of `best` that pass the threshold, best first, ties in
/// position order.
pub open spec fn ranking(best: Seq<u64>, inclusive: bool) -> Seq<usize> {
    ranking_upto(best, best.len(), inclusive)
}

/// What a ranking is: the positions passing the threshold, each once, in
/// `ranks_before` order.
pub open spec fn is_ranking(best: Seq<u64>, r: Seq<usize>, inclusive: bool) -> bool {
    &&& forall|k: int|
        0 <= k < r.len() ==> #[trigger] r[k] < best.len() && qualifies(best[r[k] as int], inclusive)
    &&& forall|i: int|
        0 <= i < best.len() && qualifies(best[i], inclusive) ==> r.contains(i as usize)
    &&& forall|k: int, l: int|
        0 <= k < l < r.len() ==> ranks_before(best, #[trigger] r[k] as int, #[trigger] r[l] as int)
}

proof fn lemma_insert_pos(best: Seq<u64>, r: Seq<usize>, x: int, k: int)
    requires
        0 <= k <= r.len(),
        forall|a: int| 0 <= a < r.len() ==> #[trigger] r[a] < best.len(),
        0 <= x < best.len(),
    ensures
        k <= insert_pos_from(best, r, x, k) <= r.len(),
        forall|a: int|
            k <= a < insert_pos_from(best, r, x, k) ==> best[#[trigger] r[a] as int] >= best[x],
        insert_pos_from(best, r, x, k) < r.len() ==> best[r[insert_pos_from(best, r, x, k)] as int]
            < best[x],
    decreases r.len() - k,
{
    if k < r.len() && best[r[k] as int] >= best[x] {
        lemma_insert_pos(best, r, x, k + 1);
    }
}

/// The ranking of positions below `n` is a ranking of those positions.
#[verifier::rlimit(40)]
proof fn lemma_ranking_upto(best: Seq<u64>, n: nat, inclusive: bool)
    requires
        n <= best.len() <= usize::MAX,
    ensures
        ({
            let r = ranking_upto(best, n, inclusive);
            &&& forall|k: int|
                0 <= k < r.len() ==> #[trigger] r[k] < n && qualifies(best[r[k] as int], inclusive)
            &&& forall|i: int| 0 <= i < n && qualifies(best[i], inclusive) ==> r.contains(i as usize)
            &&& forall|k: int, l: int|
                0 <= k < l < r.len() ==> ranks_before(
                    best,
                    #[trigger] r[k] as int,
                    #[trigger] r[l] as int,
                )
        }),
    decreases n,
{
    if n > 0 {
        let r = ranking_upto(best, (n - 1) as nat, inclusive);
        lemma_ranking_upto(best, (n - 1) as nat, inclusive);
        let x = n - 1;
        if qualifies(best[x], inclusive) {
            let p = insert_pos_from(best, r, x, 0);
            lemma_insert_pos(best, r, x, 0);
            r.insert_ensures(p, x as usize);
            let s = r.insert(p, x as usize);
            assert(s == ranking_upto(best, n, inclusive));
            // Positions after `p` score below `x`, since `r` is sorted.
            assert forall|a: int| p <= a < r.len() implies best[#[trigger] r[a] as int]
                < best[x] by {
                if a > p {
                    assert(ranks_before(best, r[p] as int, r[a] as int));
                }
            }
            assert forall|k: int| 0 <= k < s.len() implies #[trigger] s[k] < n && qualifies(
                best[s[k] as int],
                inclusive,
            ) by {
                if k < p {
                    assert(s[k] == r[k]);
                } else if k > p {
                    assert(s[k] == r[k - 1]);
                } else {
                    assert(s[k] == x as usize);
                }
            }
            assert forall|i: int| 0 <= i < n && qualifies(best[i], inclusive) implies s.contains(
                i as usize,
            ) by {
                if i == x {
                    assert(s[p] == x as usize);
                } else {
                    assert(r.contains(i as usize));
                    let j = choose|j: int| 0 <= j < r.len() && r[j] == i as usize;
                    if j < p {
                        assert(s[j] == r[j]);
                    } else {
                        assert(s[j + 1] == r[j]);
                    }
                }
            }
            assert forall|k: int, l: int| 0 <= k < l < s.len() implies ranks_before(
                best,
                #[trigger] s[k] as int,
                #[trigger] s[l] as int,
            ) by {
                if l < p {
                    assert(s[k] == r[k] && s[l] == r[l]);
                } else if l == p {
                    assert(s[k] == r[k] && s[l] == x as usize);
                } else if k < p {
                    assert(s[k] == r[k] && s[l] == r[l - 1]);
                } else if k == p {
                    assert(s[k] == x as usize && s[l] == r[l - 1]);
                } else {
                    assert(s[k] == r[k - 1] && s[l] == r[l - 1]);
                }
            }
        }
    }
}

/// The ranking of `best` is a ranking: it lists exactly the positions that
/// pass the threshold, best score first, equal scores in position order.
pub proof fn lemma_ranking_is_ranking(best: Seq<u64>, inclusive: bool)
    requires
        best.len() <= usize::MAX,
    ensures
        is_ranking(best, ranking(best, inclusive), inclusive),
{
    lemma_ranking_upto(best, best.len(), inclusive);
}

/// The positions of `best` that pass the threshold, best first, ties in
/// position order (a stable sort by descending score).
pub fn rank(best: &Vec<u64>, inclusive: bool) -> (r: Vec<usize>)
    ensures
        r@ == ranking(best@, inclusive),
{
    let mut r: Vec<usize> = Vec::new();
    let mut n: usize = 0;
    while n < best.len()
        invariant
            n <= best@.len(),
            r@ == ranking_upto(best@, n as nat, inclusive),
        decreases best@.len() - n,
    {
        proof {
            lemma_ranking_upto(best@, n as nat, inclusive);
        }
        if passes(best[n], inclusive) {
            let mut p: usize = 0;
            while p < r.len() && best[r[p]] >= best[n]
                invariant
                    p <= r@.len(),
                    n < best@.len(),
                    forall|a: int| 0 <= a < r@.len() ==> #[trigger] r@[a] < n,
                    insert_pos_from(best@, r@, n as int, 0) == insert_pos_from(
                        best@,
                        r@,
                        n as int,
                        p as int,
                    ),
                decreases r@.len() - p,
            {
                p = p + 1;
            }
            r.insert(p, n);
        }
        n = n + 1;
    }
    r
}

// ── Ranking parties ──────────────────────────────────────────────────────────

/// The score of each party: the best score among its guests.
pub open spec fn party_scores(guest_scores: Seq<Seq<u64>>) -> Seq<u64> {
    Seq::new(guest_scores.len(), |i: int| max_score(guest_scores[i]))
}

/// `guest_scores[i][j]` is a score for guest `j` of party `i`.
pub open spec fn scores_fit(parties: Seq<PartyView>, guest_scores: Seq<Seq<u64>>) -> bool {
    &&& guest_scores.len() == parties.len()
    &&& forall|i: int|
        0 <= i < parties.len() ==> #[trigger] guest_scores[i].len() == parties[i].guests.len()
}

/// The parties that pass the threshold with their scores, best first, ties
/// in listing order.
pub open spec fn ranked(parties: Seq<PartyView>, guest_scores: Seq<Seq<u64>>, inclusive: bool) -> Seq<
    (u64, PartyView),
> {
    let best = party_scores(guest_scores);
    ranking(best, inclusive).map_values(|i: usize| (best[i as int], parties[i as int]))
}

/// Ranked parties pass the threshold, come best first, and include every
/// party whose best guest score passes the threshold.
pub proof fn lemma_ranked_parties(parties: Seq<PartyView>, guest_scores: Seq<Seq<u64>>, inclusive: bool)
    requires
        scores_fit(parties, guest_scores),
        parties.len() <= usize::MAX,
    ensures
        ({
            let r = ranked(parties, guest_scores, inclusive);
            let best = party_scores(guest_scores);
            &&& forall|k: int| 0 <= k < r.len() ==> qualifies(#[trigger] r[k].0, inclusive)
            &&& forall|k: int, l: int| 0 <= k < l < r.len() ==> #[trigger] r[k].0 >= #[trigger] r[l].0
            &&& forall|i: int|
                0 <= i < parties.len() && qualifies(best[i], inclusive) ==> exists|k: int|
                    0 <= k < r.len() && #[trigger] r[k] == (best[i], parties[i])
        }),
{
    let best = party_scores(guest_scores);
    let order = ranking(best, inclusive);
    lemma_ranking_is_ranking(best, inclusive);
    let r = ranked(parties, guest_scores, inclusive);
    assert forall|k: int, l: int| 0 <= k < l < r.len() implies #[trigger] r[k].0 >= #[trigger] r[l].0 by {
        assert(ranks_before(best, order[k] as int, order[l] as int));
    }
    assert forall|i: int|
        0 <= i < parties.len() && qualifies(best[i], inclusive) implies exists|k: int|
            0 <= k < r.len() && #[trigger] r[k] == (best[i], parties[i]) by {
        assert(order.contains(i as usize));
        let k = choose|k: int| 0 <= k < order.len() && order[k] == i as usize;
        assert(r[k] == (best[i], parties[i]));
    }
}

/// Each ranked party is one of `parties`, ranked under its best guest's
/// score (no guest of it scores higher, and some guest scores exactly that),
/// which passes the threshold; ranked parties come best first.
pub proof fn lemma_ranked_sound(
    parties: Seq<PartyView>,
    guest_scores: Seq<Seq<u64>>,
    inclusive: bool,
)
    requires
        scores_fit(parties, guest_scores),
        parties.len() <= usize::MAX,
    ensures
        ({
            let r = ranked(parties, guest_scores, inclusive);
            &&& forall|k: int|
                0 <= k < r.len() ==> exists|i: int|
                    0 <= i < parties.len() && #[trigger] r[k].1 == parties[i] && qualifies(
                        r[k].0,
                        inclusive,
                    ) && (forall|j: int|
                        0 <= j < guest_scores[i].len() ==> #[trigger] guest_scores[i][j]
                            <= r[k].0) && (exists|j: int|
                        0 <= j < guest_scores[i].len() && #[trigger] guest_scores[i][j]
                            == r[k].0)
            &&& forall|k: int, l: int| 0 <= k < l < r.len() ==> #[trigger] r[k].0 >= #[trigger] r[l].0
        }),
{
    let best = party_scores(guest_scores);
    let order = ranking(best, inclusive);
    let r = ranked(parties, guest_scores, inclusive);
    lemma_ranking_is_ranking(best, inclusive);
    lemma_ranked_parties(parties, guest_scores, inclusive);
    assert forall|k: int| 0 <= k < r.len() implies exists|i: int|
        0 <= i < parties.len() && #[trigger] r[k].1 == parties[i] && qualifies(r[k].0, inclusive)
            && (forall|j: int|
            0 <= j < guest_scores[i].len() ==> #[trigger] guest_scores[i][j] <= r[k].0) && (exists|
            j: int,
        |
            0 <= j < guest_scores[i].len() && #[trigger] guest_scores[i][j] == r[k].0) by {
        let i = order[k] as int;
        assert(0 <= i < best.len());
        assert(r[k] == (best[i], parties[i]));
        lemma_max_score(guest_scores[i]);
        assert(qualifies(best[i], inclusive));
        assert(best[i] == max_score(guest_scores[i]));
        if guest_scores[i].len() == 0 {
            assert(best[i] == 0);
        }
    }
}

/// Every party with a guest whose score passes the threshold is ranked.
pub proof fn lemma_ranked_complete(
    parties: Seq<PartyView>,
    guest_scores: Seq<Seq<u64>>,
    inclusive: bool,
    i: int,
    j: int,
) -> (k: int)
    requires
        scores_fit(parties, guest_scores),
        parties.len() <= usize::MAX,
        0 <= i < parties.len(),
        0 <= j < guest_scores[i].len(),
        qualifies(guest_scores[i][j], inclusive),
    ensures
        0 <= k < ranked(parties, guest_scores, inclusive).len(),
        ranked(parties, guest_scores, inclusive)[k].1 == parties[i],
{
    let best = party_scores(guest_scores);
    let r = ranked(parties, guest_scores, inclusive);
    lemma_ranked_parties(parties, guest_scores, inclusive);
    lemma_max_score(guest_scores[i]);
    assert(best[i] == max_score(guest_scores[i]));
    assert(qualifies(best[i], inclusive));
    let k = choose|k: int| 0 <= k < r.len() && #[trigger] r[k] == (best[i], parties[i]);
    k
}

/// What a ranking of parties holds, in terms of the guests' score keys:
/// each ranked party is one of `parties`, ranked under its best guest's
/// score (no guest of it scores higher, and some guest scores exactly that),
/// which passes the threshold; ranked parties come best first; and every
/// party with a guest whose score passes the threshold is ranked.
pub proof fn lemma_ranked_by_best_guest(
    parties: Seq<PartyView>,
    guest_scores: Seq<Seq<u64>>,
    inclusive: bool,
)
    requires
        scores_fit(parties, guest_scores),
        parties.len() <= usize::MAX,
    ensures
        ({
            let r = ranked(parties, guest_scores, inclusive);
            &&& forall|k: int|
                0 <= k < r.len() ==> exists|i: int|
                    0 <= i < parties.len() && #[trigger] r[k].1 == parties[i] && qualifies(
                        r[k].0,
                        inclusive,
                    ) && (forall|j: int|
                        0 <= j < guest_scores[i].len() ==> #[trigger] guest_scores[i][j]
                            <= r[k].0) && (exists|j: int|
                        0 <= j < guest_scores[i].len() && #[trigger] guest_scores[i][j]
                            == r[k].0)
            &&& forall|k: int, l: int| 0 <= k < l < r.len() ==> #[trigger] r[k].0 >= #[trigger] r[l].0
            &&& forall|i: int, j: int|
                0 <= i < parties.len() && 0 <= j < guest_scores[i].len() && qualifies(
                    #[trigger] guest_scores[i][j],
                    inclusive,
                ) ==> exists|k: int| 0 <= k < r.len() && #[trigger] r[k].1 == parties[i]
        }),
{
    let r = ranked(parties, guest_scores, inclusive);
    lemma_ranked_sound(parties, guest_scores, inclusive);
    assert forall|i: int, j: int|
        0 <= i < parties.len() && 0 <= j < guest_scores[i].len() && qualifies(
            #[trigger] guest_scores[i][j],
            inclusive,
        ) implies exists|k: int| 0 <= k < r.len() && #[trigger] r[k].1 == parties[i] by {
        let k = lemma_ranked_complete(parties, guest_scores, inclusive, i, j);
        assert(r[k].1 == parties[i]);
    }
}

/// The views of scored parties.
pub open spec fn scored_views(r: Seq<(u64, &PartyEntry)>) -> Seq<(u64, PartyView)> {
    r.map_values(|e: (u64, &PartyEntry)| (e.0, e.1@))
}

/// Ranks `parties` by the best score of their guests, keeping those that
/// pass the threshold.
pub fn rank_parties<'a>(
    parties: &Vec<&'a PartyEntry>,
    guest_scores: &Vec<Vec<u64>>,
    inclusive: bool,
) -> (r: Vec<(u64, &'a PartyEntry)>)
    requires
        guest_scores@.len() == parties@.len(),
    ensures
        scored_views(r@) == ranked(
            parties@.map_values(|p: &PartyEntry| p@),
            guest_scores.deep_view(),
            inclusive,
        ),
{
    let ghost views = parties@.map_values(|p: &PartyEntry| p@);
    let mut best: Vec<u64> = Vec::new();
    let mut i: usize = 0;
    while i < guest_scores.len()
        invariant
            i <= guest_scores@.len(),
            best@.len() == i,
            forall|k: int|
                0 <= k < i ==> #[trigger] best@[k] == party_scores(guest_scores.deep_view())[k],
        decreases guest_scores@.len() - i,
    {
        let b = best_score(&guest_scores[i]);
        assert(guest_scores.deep_view()[i as int] == guest_scores@[i as int]@);
        best.push(b);
        i = i + 1;
    }
    assert(best@ =~= party_scores(guest_scores.deep_view()));
    let order = rank(&best, inclusive);
    proof {
        lemma_ranking_is_ranking(best@, inclusive);
    }
    let mut out: Vec<(u64, &'a PartyEntry)> = Vec::new();
    let mut k: usize = 0;
    while k < order.len()
        invariant
            k <= order@.len(),
            order@ == ranking(best@, inclusive),
            best@.len() == parties@.len(),
            is_ranking(best@, order@, inclusive),
            out@.len() == k,
            forall|j: int|
                0 <= j < k ==> #[trigger] out@[j].0 == best@[order@[j] as int] && out@[j].1@
                    == parties@[order@[j] as int]@,
        decreases order@.len() - k,
    {
        let idx = order[k];
        out.push((best[idx], parties[idx]));
        k = k + 1;
    }
    assert(scored_views(out@) =~= ranked(views, guest_scores.deep_view(), inclusive));
    out
}

// ── Searchers ────────────────────────────────────────────────────────────────

/// Searches a guest list by name similarity and supports party lookup by ID.
pub trait NameSimilaritySearcher {
    /// The parties a search scores, in the order it visits them.
    spec fn candidates(&self) -> Seq<PartyView>;

    /// The party with id `party_id`.
    spec fn party(&self, party_id: Seq<char>) -> Option<PartyView>;

    /// The parties a search scores, in the order it visits them.
    fn parties_to_score(&self) -> (r: Vec<&PartyEntry>)
        ensures
            r@.len() == self.candidates().len(),
            forall|k: int| 0 <= k < r@.len() ==> #[trigger] r@[k]@ == self.candidates()[k],
    ;

    /// Returns all parties whose guests score above the similarity
    /// threshold, sorted descending by score; `guest_scores[i][j]` is the
    /// score key of guest `j` of candidate `i`.
    fn search(&self, guest_scores: &Vec<Vec<u64>>) -> (r: Vec<(u64, &PartyEntry)>)
        requires
            scores_fit(self.candidates(), guest_scores.deep_view()),
        ensures
            scored_views(r@) == ranked(self.candidates(), guest_scores.deep_view(), false),
    {
        let ps = self.parties_to_score();
        assert(ps@.map_values(|p: &PartyEntry| p@) =~= self.candidates());
        rank_parties(&ps, guest_scores, false)
    }

    /// Looks up a party by its exact ID.
    fn get_party(&self, party_id: &str) -> (r: Option<&PartyEntry>)
        ensures
            match r {
                Some(p) => self.party(party_id@) == Some(p@),
                None => self.party(party_id@) is None,
            },
    ;
}

impl<T: NameSimilaritySearcher> NameSimilaritySearcher for &T {
    open spec fn candidates(&self) -> Seq<PartyView> {
        (**self).candidates()
    }

    open spec fn party(&self, party_id: Seq<char>) -> Option<PartyView> {
        (**self).party(party_id)
    }

    fn parties_to_score(&self) -> (r: Vec<&PartyEntry>) {
        (**self).parties_to_score()
    }

    fn search(&self, guest_scores: &Vec<Vec<u64>>) -> (r: Vec<(u64, &PartyEntry)>) {
        (**self).search(guest_scores)
    }

    fn get_party(&self, party_id: &str) -> (r: Option<&PartyEntry>) {
        (**self).get_party(party_id)
    }
}

/// The parties of a keyed map, in order.
pub open spec fn map_parties(m: PartyMapView) -> Seq<PartyView> {
    m.map_values(|e: (Seq<char>, PartyView)| e.1)
}

/// Searches a guest list by fuzzy name similarity.
#[derive(Clone)]
pub struct FuzzyNameSearcher<G> {
    guest_list: G,
}

impl<G: GuestList> FuzzyNameSearcher<G> {
    pub fn new(guest_list: G) -> (r: Self)
        ensures
            r.candidates() == map_parties(guest_list.parties()),
            forall|id: Seq<char>| r.party(id) == lookup(guest_list.parties(), id),
    {
        Self { guest_list }
    }
}

impl<G: GuestList> NameSimilaritySearcher for FuzzyNameSearcher<G> {
    closed spec fn candidates(&self) -> Seq<PartyView> {
        map_parties(self.guest_list.parties())
    }

    closed spec fn party(&self, party_id: Seq<char>) -> Option<PartyView> {
        lookup(self.guest_list.parties(), party_id)
    }

    fn parties_to_score(&self) -> (r: Vec<&PartyEntry>) {
        self.guest_list.all_parties()
    }

    fn get_party(&self, party_id: &str) -> (r: Option<&PartyEntry>) {
        self.guest_list.get_party(party_id)
    }
}

} // verus!
