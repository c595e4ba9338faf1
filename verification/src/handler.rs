//! The RSVP request logic: name search, party lookup with previously stored
//! answers, and validation of submitted answers.
//!
//! Storing and loading answers is outside work; the functions here are the
//! decisions taken before and after it.

use vstd::prelude::*;

use crate::guest_list::{clone_strings, GuestView, PartyEntry, PartyView};
use crate::name_searcher::{
    lemma_max_score, lemma_ranked_complete, lemma_ranked_sound, lemma_ranking_is_ranking, max_score,
    party_scores, qualifies, rank_parties, ranked, ranking, scores_fit, NameSimilaritySearcher,
};
use crate::text::append_str;

verus! {

/// Maximum length, in characters, of a guest's dietary restrictions.
pub const MAXIMUM_LENGTH: usize = 100;

/// Number of parties a search returns at most.
pub const MAX_SEARCH_RESULTS: usize = 5;

// ── Public DTOs ──────────────────────────────────────────────────────────────

/// A party found by a search.
#[derive(Debug)]
pub struct SearchMatch {
    pub party_id: String,
    pub display_name: String,
    pub guest_names: Vec<String>,
}

/// What a `SearchMatch` holds, as character sequences.
pub struct SearchMatchView {
    pub party_id: Seq<char>,
    pub display_name: Seq<char>,
    pub guest_names: Seq<Seq<char>>,
}

impl View for SearchMatch {
    type V = SearchMatchView;

    open spec fn view(&self) -> SearchMatchView {
        SearchMatchView {
            party_id: self.party_id@,
            display_name: self.display_name@,
            guest_names: self.guest_names.deep_view(),
        }
    }
}

/// The result of a search.
#[derive(Debug)]
pub struct SearchResult {
    pub matches: Vec<SearchMatch>,
}

/// One guest's answer.
#[derive(Debug)]
pub struct GuestRsvp {
    pub name: String,
    pub attending: bool,
    pub dietary_restrictions: Option<String>,
}

/// What a `GuestRsvp` holds, as character sequences.
pub struct GuestRsvpView {
    pub name: Seq<char>,
    pub attending: bool,
    pub dietary_restrictions: Option<Seq<char>>,
}

impl View for GuestRsvp {
    type V = GuestRsvpView;

    open spec fn view(&self) -> GuestRsvpView {
        GuestRsvpView {
            name: self.name@,
            attending: self.attending,
            dietary_restrictions: match &self.dietary_restrictions {
                Some(d) => Some(d@),
                None => None,
            },
        }
    }
}

impl Clone for GuestRsvp {
    fn clone(&self) -> (r: Self)
        ensures
            r@ == self@,
    {
        let dietary_restrictions = match &self.dietary_restrictions {
            Some(d) => Some(d.clone()),
            None => None,
        };
        GuestRsvp { name: self.name.clone(), attending: self.attending, dietary_restrictions }
    }
}

/// A guest of a party with the answer stored for them, if any.
#[derive(Debug)]
pub struct GuestWithRsvp {
    pub name: String,
    pub rsvp: Option<GuestRsvp>,
}

/// What a `GuestWithRsvp` holds, as character sequences.
pub struct GuestWithRsvpView {
    pub name: Seq<char>,
    pub rsvp: Option<GuestRsvpView>,
}

impl View for GuestWithRsvp {
    type V = GuestWithRsvpView;

    open spec fn view(&self) -> GuestWithRsvpView {
        GuestWithRsvpView {
            name: self.name@,
            rsvp: match &self.rsvp {
                Some(r) => Some(r@),
                None => None,
            },
        }
    }
}

/// A party with its guests' stored answers.
#[derive(Debug)]
pub struct PartyResult {
    pub party_id: String,
    pub display_name: String,
    pub guests: Vec<GuestWithRsvp>,
}

/// What a `PartyResult` holds, as character sequences.
pub struct PartyResultView {
    pub party_id: Seq<char>,
    pub display_name: Seq<char>,
    pub guests: Seq<GuestWithRsvpView>,
}

impl View for PartyResult {
    type V = PartyResultView;

    open spec fn view(&self) -> PartyResultView {
        PartyResultView {
            party_id: self.party_id@,
            display_name: self.display_name@,
            guests: self.guests@.map_values(|g: GuestWithRsvp| g@),
        }
    }
}

/// A submission of answers for a party.
#[derive(Debug)]
pub struct PutRsvpInput {
    pub party_id: String,
    pub responses: Vec<GuestRsvp>,
}

/// The views of a list of answers.
pub open spec fn rsvp_views(rs: Seq<GuestRsvp>) -> Seq<GuestRsvpView> {
    rs.map_values(|r: GuestRsvp| r@)
}

// ── Error types ──────────────────────────────────────────────────────────────

/// Why a request failed.
#[derive(Debug)]
pub enum HandlerError {
    NotFound(String),
    BadRequest(String),
    Internal(String),
}

impl HandlerError {
    /// The error's description: its kind and its message.
    pub fn message(&self) -> (r: String)
        ensures
            r@ == match self {
                HandlerError::NotFound(m) => "not found: "@ + m@,
                HandlerError::BadRequest(m) => "bad request: "@ + m@,
                HandlerError::Internal(m) => "internal error: "@ + m@,
            },
    {
        let mut out = String::new();
        match self {
            HandlerError::NotFound(m) => {
                append_str(&mut out, "not found: ");
                append_str(&mut out, m.as_str());
            },
            HandlerError::BadRequest(m) => {
                append_str(&mut out, "bad request: ");
                append_str(&mut out, m.as_str());
            },
            HandlerError::Internal(m) => {
                append_str(&mut out, "internal error: ");
                append_str(&mut out, m.as_str());
            },
        }
        out
    }

    /// The HTTP status that answers the error.
    pub fn status_code(&self) -> (r: i64)
        ensures
            r == match self {
                HandlerError::NotFound(_) => 404i64,
                HandlerError::BadRequest(_) => 400i64,
                HandlerError::Internal(_) => 500i64,
            },
    {
        match self {
            HandlerError::NotFound(_) => 404,
            HandlerError::BadRequest(_) => 400,
            HandlerError::Internal(_) => 500,
        }
    }
}

// ── Search ───────────────────────────────────────────────────────────────────

/// The search match for a party.
pub open spec fn match_of(p: PartyView) -> SearchMatchView {
    SearchMatchView {
        party_id: p.id,
        display_name: p.display_name,
        guest_names: p.guests.map_values(|g: GuestView| g.name),
    }
}

/// The first `max_results` ranked entries as search matches.
pub open spec fn first_matches(r: Seq<(u64, PartyView)>, max_results: nat) -> Seq<SearchMatchView> {
    let n = if r.len() < max_results {
        r.len()
    } else {
        max_results
    };
    r.take(n as int).map_values(|e: (u64, PartyView)| match_of(e.1))
}

/// The first `max_results` parties ranked with the given threshold mode, as
/// search matches.
pub open spec fn search_matches(
    parties: Seq<PartyView>,
    guest_scores: Seq<Seq<u64>>,
    max_results: nat,
    inclusive: bool,
) -> Seq<SearchMatchView> {
    first_matches(ranked(parties, guest_scores, inclusive), max_results)
}

/// A search returns at most `max_results` matches: the best-ranked parties.
pub proof fn lemma_search_matches(
    parties: Seq<PartyView>,
    guest_scores: Seq<Seq<u64>>,
    max_results: nat,
    inclusive: bool,
)
    ensures
        search_matches(parties, guest_scores, max_results, inclusive).len() <= max_results,
        forall|k: int|
            0 <= k < search_matches(parties, guest_scores, max_results, inclusive).len()
                ==> #[trigger] search_matches(parties, guest_scores, max_results, inclusive)[k]
                == match_of(ranked(parties, guest_scores, inclusive)[k].1),
{
}

/// A search match shows its party as it is: the party's own id, its own
/// display name, and the names of all its guests in order.
pub proof fn lemma_match_of(p: PartyView)
    ensures
        match_of(p).party_id == p.id,
        match_of(p).display_name == p.display_name,
        match_of(p).guest_names.len() == p.guests.len(),
        forall|j: int| 0 <= j < p.guests.len() ==> #[trigger] match_of(p).guest_names[j] == p.guests[j].name,
{
}

/// Match `m` of a search, ranked under `score`, shows party `i`: one of
/// `parties`, with its own id, display name and guest names; `score` is its
/// best guest's score (some guest scores exactly that, none more), and it
/// passes the threshold.
#[verifier::opaque]
pub open spec fn shows_party(
    parties: Seq<PartyView>,
    guest_scores: Seq<Seq<u64>>,
    m: SearchMatchView,
    score: u64,
    inclusive: bool,
    i: int,
) -> bool {
    &&& 0 <= i < parties.len()
    &&& m.party_id == parties[i].id
    &&& m.display_name == parties[i].display_name
    &&& m.guest_names.len() == parties[i].guests.len()
    &&& forall|j: int|
        0 <= j < parties[i].guests.len() ==> m.guest_names[j] == #[trigger] parties[i].guests[j].name
    &&& qualifies(score, inclusive)
    &&& exists|j: int| 0 <= j < guest_scores[i].len() && #[trigger] guest_scores[i][j] == score
    &&& forall|j: int| 0 <= j < guest_scores[i].len() ==> #[trigger] guest_scores[i][j] <= score
}

/// The position in `parties` of the party ranked `k`-th.
pub open spec fn ranked_position(guest_scores: Seq<Seq<u64>>, inclusive: bool, k: int) -> int {
    ranking(party_scores(guest_scores), inclusive)[k] as int
}

proof fn lemma_search_result_at(
    parties: Seq<PartyView>,
    guest_scores: Seq<Seq<u64>>,
    max_results: nat,
    inclusive: bool,
    k: int,
)
    requires
        scores_fit(parties, guest_scores),
        parties.len() <= usize::MAX,
        0 <= k < search_matches(parties, guest_scores, max_results, inclusive).len(),
    ensures
        shows_party(
            parties,
            guest_scores,
            search_matches(parties, guest_scores, max_results, inclusive)[k],
            ranked(parties, guest_scores, inclusive)[k].0,
            inclusive,
            ranked_position(guest_scores, inclusive, k),
        ),
{
    let m = search_matches(parties, guest_scores, max_results, inclusive);
    let r = ranked(parties, guest_scores, inclusive);
    let best = party_scores(guest_scores);
    let order = ranking(best, inclusive);
    lemma_ranking_is_ranking(best, inclusive);
    lemma_search_matches(parties, guest_scores, max_results, inclusive);
    let i = order[k] as int;
    assert(0 <= i < best.len());
    assert(r[k] == (best[i], parties[i]));
    assert(m[k] == match_of(r[k].1));
    lemma_match_of(parties[i]);
    lemma_max_score(guest_scores[i]);
    assert(best[i] == max_score(guest_scores[i]));
    assert(qualifies(best[i], inclusive));
    if guest_scores[i].len() == 0 {
        assert(best[i] == 0);
    }
    let j = choose|j: int| 0 <= j < guest_scores[i].len() && #[trigger] guest_scores[i][j] == best[i];
    assert(qualifies(guest_scores[i][j], inclusive));
    reveal(shows_party);
    assert(shows_party(parties, guest_scores, m[k], r[k].0, inclusive, i));
}

/// What a search returns, in terms of the guests' score keys: at most
/// `max_results` matches, fewer only when fewer parties pass; each match
/// shows one of `parties` with its own id, display name and guest names,
/// some guest of it scoring past the threshold (`shows_party`); matches come
/// best first by the party's best guest score; and when no more than
/// `max_results` parties pass, every party with a guest whose score passes
/// the threshold is among the matches.
pub proof fn lemma_search_results(
    parties: Seq<PartyView>,
    guest_scores: Seq<Seq<u64>>,
    max_results: nat,
    inclusive: bool,
)
    requires
        scores_fit(parties, guest_scores),
        parties.len() <= usize::MAX,
    ensures
        ({
            let m = search_matches(parties, guest_scores, max_results, inclusive);
            let r = ranked(parties, guest_scores, inclusive);
            &&& m.len() <= max_results
            &&& m.len() == r.len() || m.len() == max_results
            &&& forall|k: int, l: int| 0 <= k < l < m.len() ==> #[trigger] r[k].0 >= #[trigger] r[l].0
            &&& r.len() <= max_results ==> forall|i: int, j: int|
                0 <= i < parties.len() && 0 <= j < guest_scores[i].len() && qualifies(
                    #[trigger] guest_scores[i][j],
                    inclusive,
                ) ==> exists|k: int| 0 <= k < m.len() && #[trigger] m[k].party_id == parties[i].id
        }),
        forall|k: int|
            0 <= k < search_matches(parties, guest_scores, max_results, inclusive).len()
                ==> #[trigger] shows_party(
                parties,
                guest_scores,
                search_matches(parties, guest_scores, max_results, inclusive)[k],
                ranked(parties, guest_scores, inclusive)[k].0,
                inclusive,
                ranked_position(guest_scores, inclusive, k),
            ),
{
    let m = search_matches(parties, guest_scores, max_results, inclusive);
    let r = ranked(parties, guest_scores, inclusive);
    assert(m.len() == if r.len() < max_results {
        r.len()
    } else {
        max_results
    }) by {
        lemma_search_matches(parties, guest_scores, max_results, inclusive);
    }
    assert(forall|k: int, l: int| 0 <= k < l < m.len() ==> #[trigger] r[k].0 >= #[trigger] r[l].0)
        by {
        lemma_ranked_sound(parties, guest_scores, inclusive);
    }
    assert forall|k: int|
        0 <= k < search_matches(parties, guest_scores, max_results, inclusive).len() implies #[trigger] shows_party(
            parties,
            guest_scores,
            search_matches(parties, guest_scores, max_results, inclusive)[k],
            ranked(parties, guest_scores, inclusive)[k].0,
            inclusive,
            ranked_position(guest_scores, inclusive, k),
        ) by {
        lemma_search_result_at(parties, guest_scores, max_results, inclusive, k);
    }
    assert(r.len() <= max_results ==> forall|i: int, j: int|
        0 <= i < parties.len() && 0 <= j < guest_scores[i].len() && qualifies(
            #[trigger] guest_scores[i][j],
            inclusive,
        ) ==> exists|k: int| 0 <= k < m.len() && #[trigger] m[k].party_id == parties[i].id) by {
        if r.len() <= max_results {
            assert forall|i: int, j: int|
                0 <= i < parties.len() && 0 <= j < guest_scores[i].len() && qualifies(
                    #[trigger] guest_scores[i][j],
                    inclusive,
                ) implies exists|k: int| 0 <= k < m.len() && #[trigger] m[k].party_id
                == parties[i].id by {
                let k = lemma_search_complete_at(parties, guest_scores, max_results, inclusive, i, j);
                assert(m[k].party_id == parties[i].id);
            }
        }
    }
}

proof fn lemma_search_complete_at(
    parties: Seq<PartyView>,
    guest_scores: Seq<Seq<u64>>,
    max_results: nat,
    inclusive: bool,
    i: int,
    j: int,
) -> (k: int)
    requires
        scores_fit(parties, guest_scores),
        parties.len() <= usize::MAX,
        ranked(parties, guest_scores, inclusive).len() <= max_results,
        0 <= i < parties.len(),
        0 <= j < guest_scores[i].len(),
        qualifies(guest_scores[i][j], inclusive),
    ensures
        0 <= k < search_matches(parties, guest_scores, max_results, inclusive).len(),
        search_matches(parties, guest_scores, max_results, inclusive)[k].party_id == parties[i].id,
{
    let r = ranked(parties, guest_scores, inclusive);
    let k = lemma_ranked_complete(parties, guest_scores, inclusive, i, j);
    lemma_search_matches(parties, guest_scores, max_results, inclusive);
    assert(search_matches(parties, guest_scores, max_results, inclusive)[k] == match_of(r[k].1));
    k
}

/// The search match for a party.
fn search_match(p: &PartyEntry) -> (r: SearchMatch)
    ensures
        r@ == match_of(p@),
{
    let mut guest_names: Vec<String> = Vec::new();
    let mut i: usize = 0;
    while i < p.guests.len()
        invariant
            i <= p.guests@.len(),
            guest_names@.len() == i,
            forall|k: int| 0 <= k < i ==> #[trigger] guest_names@[k]@ == p.guests@[k].name@,
        decreases p.guests@.len() - i,
    {
        guest_names.push(p.guests[i].name.clone());
        i = i + 1;
    }
    let r = SearchMatch {
        party_id: p.id.clone(),
        display_name: p.display_name.clone(),
        guest_names,
    };
    assert(r.guest_names.deep_view() =~= p@.guests.map_values(|g: GuestView| g.name));
    r
}

/// The first `max_results` entries of `scored` as search matches.
fn take_matches(scored: &Vec<(u64, &PartyEntry)>, max_results: usize) -> (r: Vec<SearchMatch>)
    ensures
        r@.map_values(|m: SearchMatch| m@) == first_matches(
            scored@.map_values(|e: (u64, &PartyEntry)| (e.0, e.1@)),
            max_results as nat,
        ),
{
    let ghost rk = scored@.map_values(|e: (u64, &PartyEntry)| (e.0, e.1@));
    let n = if scored.len() < max_results {
        scored.len()
    } else {
        max_results
    };
    let mut out: Vec<SearchMatch> = Vec::new();
    let mut i: usize = 0;
    while i < n
        invariant
            i <= n <= scored@.len(),
            rk == scored@.map_values(|e: (u64, &PartyEntry)| (e.0, e.1@)),
            out@.len() == i,
            forall|k: int| 0 <= k < i ==> #[trigger] out@[k]@ == match_of(rk[k].1),
        decreases n - i,
    {
        out.push(search_match(scored[i].1));
        i = i + 1;
    }
    assert(out@.map_values(|m: SearchMatch| m@) =~= first_matches(rk, max_results as nat));
    out
}

/// Ranks the parties of `searcher` by the given guest score keys and returns
/// at most `max_results` of those scoring 0.75 or more, best first.
pub fn search_parties<G: NameSimilaritySearcher>(
    searcher: &G,
    guest_scores: &Vec<Vec<u64>>,
    max_results: usize,
) -> (r: Vec<SearchMatch>)
    requires
        scores_fit(searcher.candidates(), guest_scores.deep_view()),
    ensures
        r@.map_values(|m: SearchMatch| m@) == search_matches(
            searcher.candidates(),
            guest_scores.deep_view(),
            max_results as nat,
            true,
        ),
{
    let ps = searcher.parties_to_score();
    assert(ps@.map_values(|p: &PartyEntry| p@) =~= searcher.candidates());
    let scored = rank_parties(&ps, guest_scores, true);
    take_matches(&scored, max_results)
}

// ── Party lookup ─────────────────────────────────────────────────────────────

/// The last answer in `loaded` for the guest named `name`.
pub open spec fn last_rsvp(loaded: Seq<GuestRsvpView>, name: Seq<char>) -> Option<GuestRsvpView>
    decreases loaded.len(),
{
    if loaded.len() == 0 {
        None
    } else if loaded.last().name == name {
        Some(loaded.last())
    } else {
        last_rsvp(loaded.drop_last(), name)
    }
}

/// The party's guests, each with the last stored answer under their name.
pub open spec fn party_result_spec(party: PartyView, loaded: Seq<GuestRsvpView>) -> PartyResultView {
    PartyResultView {
        party_id: party.id,
        display_name: party.display_name,
        guests: party.guests.map_values(
            |g: GuestView| GuestWithRsvpView { name: g.name, rsvp: last_rsvp(loaded, g.name) },
        ),
    }
}

/// The last answer in `loaded` for the guest named `name`.
fn find_last_rsvp(loaded: &Vec<GuestRsvp>, name: &String) -> (r: Option<GuestRsvp>)
    ensures
        match r {
            Some(x) => last_rsvp(rsvp_views(loaded@), name@) == Some(x@),
            None => last_rsvp(rsvp_views(loaded@), name@) is None,
        },
{
    let ghost views = rsvp_views(loaded@);
    let mut i: usize = loaded.len();
    assert(views.take(i as int) =~= views);
    while i > 0
        invariant
            i <= loaded@.len(),
            views == rsvp_views(loaded@),
            last_rsvp(views, name@) == last_rsvp(views.take(i as int), name@),
        decreases i,
    {
        assert(views.take(i as int).drop_last() =~= views.take(i - 1));
        if crate::text::str_equal(loaded[i - 1].name.as_str(), name.as_str()) {
            return Some(loaded[i - 1].clone());
        }
        i = i - 1;
    }
    assert(views.take(0) =~= Seq::<GuestRsvpView>::empty());
    None
}

/// A party's guests along with the answers loaded for the party; when a
/// guest has several answers, the last one counts.
pub fn party_result(party: &PartyEntry, loaded: &Vec<GuestRsvp>) -> (r: PartyResult)
    ensures
        r@ == party_result_spec(party@, rsvp_views(loaded@)),
{
    let mut guests: Vec<GuestWithRsvp> = Vec::new();
    let mut i: usize = 0;
    while i < party.guests.len()
        invariant
            i <= party.guests@.len(),
            guests@.len() == i,
            forall|k: int|
                0 <= k < i ==> #[trigger] guests@[k]@ == (GuestWithRsvpView {
                    name: party.guests@[k].name@,
                    rsvp: last_rsvp(rsvp_views(loaded@), party.guests@[k].name@),
                }),
        decreases party.guests@.len() - i,
    {
        let g = &party.guests[i];
        let rsvp = find_last_rsvp(loaded, &g.name);
        guests.push(GuestWithRsvp { name: g.name.clone(), rsvp });
        i = i + 1;
    }
    let r = PartyResult {
        party_id: party.id.clone(),
        display_name: party.display_name.clone(),
        guests,
    };
    assert(r@.guests =~= party_result_spec(party@, rsvp_views(loaded@)).guests);
    assert(r@ =~= party_result_spec(party@, rsvp_views(loaded@)));
    r
}

/// The message of a request for an unknown party.
pub open spec fn party_not_found_message(party_id: Seq<char>) -> Seq<char> {
    "party '"@ + party_id + "' not found"@
}

fn party_not_found(party_id: &str) -> (r: HandlerError)
    ensures
        r == HandlerError::NotFound(r->NotFound_0),
        r->NotFound_0@ == party_not_found_message(party_id@),
{
    let mut m = String::new();
    append_str(&mut m, "party '");
    append_str(&mut m, party_id);
    append_str(&mut m, "' not found");
    assert(m@ =~= party_not_found_message(party_id@));
    HandlerError::NotFound(m)
}

// ── Answer validation ────────────────────────────────────────────────────────

/// What is wrong with one answer.
pub enum RsvpProblem {
    /// The answer names nobody of the party.
    UnknownGuest,
    /// The dietary restrictions exceed `MAXIMUM_LENGTH` characters.
    TooLong,
}

/// What is wrong with answer `r` for a party whose guests are named `names`;
/// the length of dietary restrictions counts only where `limited` holds.
pub open spec fn rsvp_problem(names: Seq<Seq<char>>, r: GuestRsvpView, limited: bool) -> Option<
    RsvpProblem,
> {
    if !names.contains(r.name) {
        Some(RsvpProblem::UnknownGuest)
    } else if limited && (r.dietary_restrictions matches Some(d) && d.len() > MAXIMUM_LENGTH) {
        Some(RsvpProblem::TooLong)
    } else {
        None
    }
}

/// Position of the first answer from `from` on that has a problem, or
/// `rs.len()`.
pub open spec fn first_problem_from(
    names: Seq<Seq<char>>,
    rs: Seq<GuestRsvpView>,
    limited: bool,
    from: int,
) -> int
    decreases rs.len() - from,
{
    if from < 0 || from >= rs.len() {
        rs.len() as int
    } else if rsvp_problem(names, rs[from], limited) is Some {
        from
    } else {
        first_problem_from(names, rs, limited, from + 1)
    }
}

/// The names of a party's guests.
pub open spec fn guest_names(p: PartyView) -> Seq<Seq<char>> {
    p.guests.map_values(|g: GuestView| g.name)
}

/// The message of an answer for someone who is not in the party.
pub open spec fn unknown_guest_message(name: Seq<char>, party_id: Seq<char>) -> Seq<char> {
    "'"@ + name + "' is not in party '"@ + party_id + "'"@
}

/// The message of dietary restrictions that are too long.
pub open spec fn too_long_message() -> Seq<char> {
    "Maximum length of dietary restrictions is 100 characters."@
}

/// The outcome of validating `responses` for the party `party` (or for no
/// party) under id `party_id`, with the dietary length limit where `limited`
/// holds: the error message kind and text, if any.
pub open spec fn validation_spec(
    party: Option<PartyView>,
    party_id: Seq<char>,
    responses: Seq<GuestRsvpView>,
    limited: bool,
) -> Option<(bool, Seq<char>)> {
    match party {
        None => Some((false, party_not_found_message(party_id))),
        Some(p) => {
            let k = first_problem_from(guest_names(p), responses, limited, 0);
            if k >= responses.len() {
                None
            } else {
                match rsvp_problem(guest_names(p), responses[k], limited) {
                    Some(RsvpProblem::UnknownGuest) => Some(
                        (true, unknown_guest_message(responses[k].name, party_id)),
                    ),
                    _ => Some((true, too_long_message())),
                }
            }
        },
    }
}

/// The guest names of a party are the names of all its guests, in order: a
/// name is among them exactly when some guest of the party bears it.
pub proof fn lemma_guest_names(p: PartyView)
    ensures
        guest_names(p).len() == p.guests.len(),
        forall|j: int| 0 <= j < p.guests.len() ==> #[trigger] guest_names(p)[j] == p.guests[j].name,
        forall|n: Seq<char>|
            #[trigger] guest_names(p).contains(n) <==> exists|j: int|
                0 <= j < p.guests.len() && p.guests[j].name == n,
{
    assert forall|n: Seq<char>| #[trigger] guest_names(p).contains(n) <==> exists|j: int|
        0 <= j < p.guests.len() && p.guests[j].name == n by {
        if exists|j: int| 0 <= j < p.guests.len() && p.guests[j].name == n {
            let j = choose|j: int| 0 <= j < p.guests.len() && p.guests[j].name == n;
            assert(guest_names(p)[j] == n);
        }
    }
}

/// Whether `name` is one of the party's guest names.
fn has_guest(party: &PartyEntry, name: &String) -> (r: bool)
    ensures
        r == guest_names(party@).contains(name@),
        r <==> exists|j: int| 0 <= j < party@.guests.len() && party@.guests[j].name == name@,
{
    proof {
        lemma_guest_names(party@);
    }
    let mut i: usize = 0;
    while i < party.guests.len()
        invariant
            i <= party.guests@.len(),
            forall|k: int| 0 <= k < i ==> party.guests@[k].name@ != name@,
        decreases party.guests@.len() - i,
    {
        if crate::text::str_equal(party.guests[i].name.as_str(), name.as_str()) {
            assert(guest_names(party@)[i as int] == name@);
            return true;
        }
        i = i + 1;
    }
    proof {
        if guest_names(party@).contains(name@) {
            let k = choose|k: int|
                0 <= k < guest_names(party@).len() && guest_names(party@)[k] == name@;
            assert(party.guests@[k].name@ == name@);
        }
    }
    false
}

// ── Reading back answers ─────────────────────────────────────────────────────

proof fn lemma_no_problem_from(
    names: Seq<Seq<char>>,
    rs: Seq<GuestRsvpView>,
    limited: bool,
    from: int,
)
    requires
        0 <= from,
        first_problem_from(names, rs, limited, from) >= rs.len(),
    ensures
        forall|i: int|
            from <= i < rs.len() ==> rsvp_problem(names, #[trigger] rs[i], limited) is None,
    decreases rs.len() - from,
{
    if from < rs.len() {
        lemma_no_problem_from(names, rs, limited, from + 1);
    }
}

proof fn lemma_last_rsvp(loaded: Seq<GuestRsvpView>, name: Seq<char>)
    ensures
        last_rsvp(loaded, name) is None <==> forall|k: int|
            0 <= k < loaded.len() ==> #[trigger] loaded[k].name != name,
        forall|k: int|
            0 <= k < loaded.len() && loaded[k].name == name && (forall|l: int|
                k < l < loaded.len() ==> #[trigger] loaded[l].name != name) ==> last_rsvp(
                loaded,
                name,
            ) == Some(#[trigger] loaded[k]),
    decreases loaded.len(),
{
    if loaded.len() > 0 {
        let prefix = loaded.drop_last();
        lemma_last_rsvp(prefix, name);
        assert forall|k: int|
            0 <= k < loaded.len() && loaded[k].name == name && (forall|l: int|
                k < l < loaded.len() ==> #[trigger] loaded[l].name != name) implies last_rsvp(
            loaded,
            name,
        ) == Some(#[trigger] loaded[k]) by {
            if k < loaded.len() - 1 {
                assert(loaded[loaded.len() - 1].name != name);
                assert(prefix[k] == loaded[k]);
                assert forall|l: int| k < l < prefix.len() implies #[trigger] prefix[l].name
                    != name by {
                    assert(prefix[l] == loaded[l]);
                }
            }
        }
        assert forall|k: int| 0 <= k < prefix.len() implies #[trigger] prefix[k] == loaded[k] by {}
        if loaded.last().name == name {
            assert(loaded[loaded.len() - 1].name == name);
        } else {
            if forall|k: int| 0 <= k < prefix.len() ==> #[trigger] prefix[k].name != name {
                assert forall|k: int| 0 <= k < loaded.len() implies #[trigger] loaded[k].name
                    != name by {
                    if k < prefix.len() {
                        assert(prefix[k].name != name);
                    }
                }
            }
        }
    }
}

proof fn lemma_all_fine_from(
    names: Seq<Seq<char>>,
    rs: Seq<GuestRsvpView>,
    limited: bool,
    from: int,
)
    requires
        0 <= from,
        forall|i: int|
            from <= i < rs.len() ==> rsvp_problem(names, #[trigger] rs[i], limited) is None,
    ensures
        first_problem_from(names, rs, limited, from) >= rs.len(),
    decreases rs.len() - from,
{
    if from < rs.len() {
        lemma_all_fine_from(names, rs, limited, from + 1);
    }
}

/// The site's own server accepts a submission for an existing party exactly
/// when every answer names one of the party's guests, whatever the dietary
/// restrictions; with the length limit, an accepted submission also has no
/// dietary restrictions over `MAXIMUM_LENGTH` characters.
pub proof fn lemma_accepted_submissions(
    party: PartyView,
    party_id: Seq<char>,
    responses: Seq<GuestRsvpView>,
)
    ensures
        validation_spec(Some(party), party_id, responses, false) is None <==> forall|i: int|
            0 <= i < responses.len() ==> exists|j: int|
                0 <= j < party.guests.len() && party.guests[j].name == #[trigger] responses[i].name,
        validation_spec(Some(party), party_id, responses, true) is None <==> forall|i: int|
            0 <= i < responses.len() ==> (exists|j: int|
                0 <= j < party.guests.len() && party.guests[j].name == #[trigger] responses[i].name)
                && (responses[i].dietary_restrictions matches Some(d) ==> d.len()
                <= MAXIMUM_LENGTH),
{
    lemma_guest_names(party);
    let names = guest_names(party);
    if validation_spec(Some(party), party_id, responses, false) is None {
        lemma_no_problem_from(names, responses, false, 0);
        assert forall|i: int| 0 <= i < responses.len() implies names.contains(
            #[trigger] responses[i].name,
        ) by {
            assert(rsvp_problem(names, responses[i], false) is None);
        }
    }
    if forall|i: int| 0 <= i < responses.len() ==> names.contains(#[trigger] responses[i].name) {
        assert forall|i: int| 0 <= i < responses.len() implies rsvp_problem(
            names,
            #[trigger] responses[i],
            false,
        ) is None by {
            assert(names.contains(responses[i].name));
        }
        lemma_all_fine_from(names, responses, false, 0);
    }
    if validation_spec(Some(party), party_id, responses, true) is None {
        lemma_no_problem_from(names, responses, true, 0);
        assert forall|i: int| 0 <= i < responses.len() implies names.contains(
            #[trigger] responses[i].name,
        ) && (responses[i].dietary_restrictions matches Some(d) ==> d.len() <= MAXIMUM_LENGTH) by {
            assert(rsvp_problem(names, responses[i], true) is None);
        }
    }
    if forall|i: int|
        0 <= i < responses.len() ==> names.contains(#[trigger] responses[i].name) && (
        responses[i].dietary_restrictions matches Some(d) ==> d.len() <= MAXIMUM_LENGTH) {
        assert forall|i: int| 0 <= i < responses.len() implies rsvp_problem(
            names,
            #[trigger] responses[i],
            true,
        ) is None by {
            assert(names.contains(responses[i].name));
        }
        lemma_all_fine_from(names, responses, true, 0);
    }
}

proof fn lemma_first_problem(
    names: Seq<Seq<char>>,
    rs: Seq<GuestRsvpView>,
    limited: bool,
    from: int,
)
    requires
        0 <= from <= rs.len(),
    ensures
        from <= first_problem_from(names, rs, limited, from) <= rs.len(),
        forall|l: int|
            from <= l < first_problem_from(names, rs, limited, from) ==> rsvp_problem(
                names,
                #[trigger] rs[l],
                limited,
            ) is None,
        first_problem_from(names, rs, limited, from) < rs.len() ==> rsvp_problem(
            names,
            rs[first_problem_from(names, rs, limited, from)],
            limited,
        ) is Some,
    decreases rs.len() - from,
{
    if from < rs.len() && rsvp_problem(names, rs[from], limited) is None {
        lemma_first_problem(names, rs, limited, from + 1);
    }
}

/// Answer `r` is acceptable for `party`: it names one of the party's guests
/// and, where `limited` holds, its dietary restrictions are at most
/// `MAXIMUM_LENGTH` characters.
pub open spec fn answer_ok(party: PartyView, r: GuestRsvpView, limited: bool) -> bool {
    &&& exists|j: int| 0 <= j < party.guests.len() && party.guests[j].name == r.name
    &&& limited ==> (r.dietary_restrictions matches Some(d) ==> d.len() <= MAXIMUM_LENGTH)
}

/// How a submission is refused: for an unknown party, as not found; for a
/// known party, at the first unacceptable answer, as a bad request naming
/// the unknown guest, or, when the guest is known, saying that the dietary
/// restrictions are too long.
pub proof fn lemma_rejections(
    party: Option<PartyView>,
    party_id: Seq<char>,
    responses: Seq<GuestRsvpView>,
    limited: bool,
)
    ensures
        party is None ==> validation_spec(party, party_id, responses, limited) == Some(
            (false, party_not_found_message(party_id)),
        ),
        party matches Some(p) ==> match validation_spec(party, party_id, responses, limited) {
            None => forall|l: int| 0 <= l < responses.len() ==> answer_ok(p, #[trigger] responses[l], limited),
            Some((bad_request, m)) => bad_request && exists|k: int|
                0 <= k < responses.len() && (forall|l: int|
                    0 <= l < k ==> answer_ok(p, #[trigger] responses[l], limited)) && !answer_ok(
                    p,
                    #[trigger] responses[k],
                    limited,
                ) && m == if exists|j: int|
                    0 <= j < p.guests.len() && p.guests[j].name == responses[k].name {
                    too_long_message()
                } else {
                    unknown_guest_message(responses[k].name, party_id)
                },
        },
{
    if let Some(p) = party {
        let names = guest_names(p);
        lemma_guest_names(p);
        lemma_first_problem(names, responses, limited, 0);
        let k = first_problem_from(names, responses, limited, 0);
        assert forall|l: int| 0 <= l < k implies answer_ok(p, #[trigger] responses[l], limited) by {
            assert(rsvp_problem(names, responses[l], limited) is None);
            assert(names.contains(responses[l].name));
        }
        if k < responses.len() {
            assert(rsvp_problem(names, responses[k], limited) is Some);
            let m = validation_spec(party, party_id, responses, limited)->Some_0.1;
            if names.contains(responses[k].name) {
                assert(rsvp_problem(names, responses[k], limited) == Some(RsvpProblem::TooLong));
                assert(validation_spec(party, party_id, responses, limited) == Some(
                    (true, too_long_message()),
                ));
                assert(m == too_long_message());
                assert(!answer_ok(p, responses[k], limited));
            } else {
                assert(validation_spec(party, party_id, responses, limited) == Some(
                    (true, unknown_guest_message(responses[k].name, party_id)),
                ));
                assert(m == unknown_guest_message(responses[k].name, party_id));
                assert(!answer_ok(p, responses[k], limited));
            }
            assert(0 <= k < responses.len() && (forall|l: int|
                0 <= l < k ==> answer_ok(p, #[trigger] responses[l], limited)) && !answer_ok(
                p,
                responses[k],
                limited,
            ));
        } else {
            assert(validation_spec(party, party_id, responses, limited) is None);
        }
    }
}

/// What showing a party gives: the party's own id and display name, and
/// each of its guests in order, by name, with the last loaded answer under
/// that name, or with none when no loaded answer bears it.
pub proof fn lemma_party_result(party: PartyView, loaded: Seq<GuestRsvpView>)
    ensures
        party_result_spec(party, loaded).party_id == party.id,
        party_result_spec(party, loaded).display_name == party.display_name,
        party_result_spec(party, loaded).guests.len() == party.guests.len(),
        forall|j: int|
            0 <= j < party.guests.len() ==> #[trigger] party_result_spec(party, loaded).guests[j].name
                == party.guests[j].name,
        forall|j: int|
            0 <= j < party.guests.len() ==> ((#[trigger] party_result_spec(
                party,
                loaded,
            ).guests[j]).rsvp is None <==> forall|k: int|
                0 <= k < loaded.len() ==> loaded[k].name != party.guests[j].name),
        forall|j: int, k: int|
            0 <= j < party.guests.len() && 0 <= k < loaded.len() && loaded[k].name
                == party.guests[j].name && (forall|l: int|
                k < l < loaded.len() ==> #[trigger] loaded[l].name != party.guests[j].name) ==> (
            #[trigger] party_result_spec(party, loaded).guests[j]).rsvp == Some(#[trigger] loaded[k]),
{
    let res = party_result_spec(party, loaded);
    assert forall|j: int|
        0 <= j < party.guests.len() implies ((#[trigger] party_result_spec(
            party,
            loaded,
        ).guests[j]).rsvp is None <==> forall|k: int|
            0 <= k < loaded.len() ==> loaded[k].name != party.guests[j].name) by {
        lemma_last_rsvp(loaded, party.guests[j].name);
    }
    assert forall|j: int, k: int|
        0 <= j < party.guests.len() && 0 <= k < loaded.len() && loaded[k].name
            == party.guests[j].name && (forall|l: int|
            k < l < loaded.len() ==> #[trigger] loaded[l].name != party.guests[j].name) implies (
        #[trigger] party_result_spec(party, loaded).guests[j]).rsvp == Some(
        #[trigger] loaded[k],
    ) by {
        lemma_last_rsvp(loaded, party.guests[j].name);
    }
}

/// Answer `k` is the last of `rs` under its name.
pub open spec fn is_last_answer(rs: Seq<GuestRsvpView>, k: int) -> bool {
    &&& 0 <= k < rs.len()
    &&& forall|l: int| k < l < rs.len() ==> #[trigger] rs[l].name != rs[k].name
}

/// Some answer of `rs` is under `name`.
pub open spec fn has_answer(rs: Seq<GuestRsvpView>, name: Seq<char>) -> bool {
    exists|k: int| 0 <= k < rs.len() && #[trigger] rs[k].name == name
}

/// Answers read back as written: when the answers loaded for a party are
/// the answers of an accepted submission (with or without the dietary length
/// limit), each guest who answered is shown with their last answer, and each
/// guest who did not answer is shown with none.
pub proof fn lemma_accepted_answers_read_back(
    party: PartyView,
    party_id: Seq<char>,
    responses: Seq<GuestRsvpView>,
    limited: bool,
)
    requires
        validation_spec(Some(party), party_id, responses, limited) is None,
    ensures
        forall|k: int|
            #[trigger] is_last_answer(responses, k) ==> exists|j: int|
                0 <= j < party.guests.len() && party.guests[j].name == responses[k].name
                    && #[trigger] party_result_spec(party, responses).guests[j].rsvp == Some(
                    responses[k],
                ),
        forall|j: int|
            0 <= j < party.guests.len() && !has_answer(responses, party.guests[j].name) ==> (
            #[trigger] party_result_spec(party, responses).guests[j]).rsvp is None,
{
    let names = guest_names(party);
    lemma_no_problem_from(names, responses, limited, 0);
    let res = party_result_spec(party, responses);
    assert forall|k: int| #[trigger] is_last_answer(responses, k) implies exists|j: int|
        0 <= j < party.guests.len() && party.guests[j].name == responses[k].name
            && #[trigger] party_result_spec(party, responses).guests[j].rsvp == Some(
            responses[k],
        ) by {
        assert(rsvp_problem(names, responses[k], limited) is None);
        assert(names.contains(responses[k].name));
        let j = choose|j: int| 0 <= j < names.len() && names[j] == responses[k].name;
        lemma_last_rsvp(responses, responses[k].name);
        assert(res.guests[j].rsvp == last_rsvp(responses, party.guests[j].name));
    }
    assert forall|j: int|
        0 <= j < party.guests.len() && !has_answer(responses, party.guests[j].name) implies (
        #[trigger] party_result_spec(party, responses).guests[j]).rsvp is None by {
        lemma_last_rsvp(responses, party.guests[j].name);
    }
}

// ── Handler ──────────────────────────────────────────────────────────────────

/// The request handler: a store of answers and a guest-list searcher.
#[derive(Clone)]
pub struct HandlerImpl<S, G> {
    pub store: S,
    pub guest_list: G,
}

impl<S, G: NameSimilaritySearcher> HandlerImpl<S, G> {
    /// Fuzzy-search guests by name as the guest-list service does, given the
    /// score key of every guest of every candidate party: returns up to 5
    /// parties whose best guest scores above 0.75, best first.
    pub fn search(&self, guest_scores: &Vec<Vec<u64>>) -> (r: SearchResult)
        requires
            scores_fit(self.guest_list.candidates(), guest_scores.deep_view()),
        ensures
            r.matches@.map_values(|m: SearchMatch| m@) == search_matches(
                self.guest_list.candidates(),
                guest_scores.deep_view(),
                MAX_SEARCH_RESULTS as nat,
                false,
            ),
    {
        let scored = self.guest_list.search(guest_scores);
        SearchResult { matches: take_matches(&scored, MAX_SEARCH_RESULTS) }
    }

    /// Fuzzy-search guests by name as the wedding site's own server does,
    /// given the score key of every guest of every candidate party: returns up
    /// to 5 parties whose best guest scores 0.75 or more, best first.
    pub fn server_search(&self, guest_scores: &Vec<Vec<u64>>) -> (r: SearchResult)
        requires
            scores_fit(self.guest_list.candidates(), guest_scores.deep_view()),
        ensures
            r.matches@.map_values(|m: SearchMatch| m@) == search_matches(
                self.guest_list.candidates(),
                guest_scores.deep_view(),
                MAX_SEARCH_RESULTS as nat,
                true,
            ),
    {
        SearchResult { matches: search_parties(&self.guest_list, guest_scores, MAX_SEARCH_RESULTS) }
    }

    /// The party with id `party_id`, or `NotFound`.
    pub fn find_party(&self, party_id: &str) -> (r: Result<&PartyEntry, HandlerError>)
        ensures
            match self.guest_list.party(party_id@) {
                Some(p) => r matches Ok(e) && e@ == p,
                None => r matches Err(HandlerError::NotFound(m)) && m@ == party_not_found_message(
                    party_id@,
                ),
            },
    {
        match self.guest_list.get_party(party_id) {
            Some(p) => Ok(p),
            None => Err(party_not_found(party_id)),
        }
    }

    /// A party's guests along with the answers `loaded` from the store for
    /// it, or `NotFound`.
    pub fn get_party(&self, party_id: &str, loaded: &Vec<GuestRsvp>) -> (r: Result<
        PartyResult,
        HandlerError,
    >)
        ensures
            match self.guest_list.party(party_id@) {
                Some(p) => r matches Ok(res) && res@ == party_result_spec(p, rsvp_views(loaded@)),
                None => r matches Err(HandlerError::NotFound(m)) && m@ == party_not_found_message(
                    party_id@,
                ),
            },
    {
        match self.find_party(party_id) {
            Ok(p) => Ok(party_result(p, loaded)),
            Err(e) => Err(e),
        }
    }

    /// Validates RSVP answers for a party before they are stored, as the
    /// guest-list service does: the party must exist, every answer must name
    /// one of its guests, and no dietary restrictions may exceed
    /// `MAXIMUM_LENGTH` characters.  The first answer at fault decides the
    /// error.
    pub fn validate_rsvp(&self, input: &PutRsvpInput) -> (r: Result<(), HandlerError>)
        ensures
            match validation_spec(
                self.guest_list.party(input.party_id@),
                input.party_id@,
                rsvp_views(input.responses@),
                true,
            ) {
                None => r is Ok,
                Some((false, m)) => r matches Err(HandlerError::NotFound(e)) && e@ == m,
                Some((true, m)) => r matches Err(HandlerError::BadRequest(e)) && e@ == m,
            },
    {
        self.check_rsvp(input, true)
    }

    /// Validates RSVP answers for a party before they are stored, as the
    /// wedding site's own server does: the party must exist and every answer
    /// must name one of its guests; dietary restrictions may be of any length.
    /// The first answer at fault decides the error.
    pub fn validate_server_rsvp(&self, input: &PutRsvpInput) -> (r: Result<(), HandlerError>)
        ensures
            match validation_spec(
                self.guest_list.party(input.party_id@),
                input.party_id@,
                rsvp_views(input.responses@),
                false,
            ) {
                None => r is Ok,
                Some((false, m)) => r matches Err(HandlerError::NotFound(e)) && e@ == m,
                Some((true, m)) => r matches Err(HandlerError::BadRequest(e)) && e@ == m,
            },
    {
        self.check_rsvp(input, false)
    }

    fn check_rsvp(&self, input: &PutRsvpInput, limited: bool) -> (r: Result<(), HandlerError>)
        ensures
            match validation_spec(
                self.guest_list.party(input.party_id@),
                input.party_id@,
                rsvp_views(input.responses@),
                limited,
            ) {
                None => r is Ok,
                Some((false, m)) => r matches Err(HandlerError::NotFound(e)) && e@ == m,
                Some((true, m)) => r matches Err(HandlerError::BadRequest(e)) && e@ == m,
            },
    {
        let party = match self.guest_list.get_party(input.party_id.as_str()) {
            Some(p) => p,
            None => {
                return Err(party_not_found(input.party_id.as_str()));
            },
        };
        let ghost names = guest_names(party@);
        let ghost rs = rsvp_views(input.responses@);
        let mut i: usize = 0;
        while i < input.responses.len()
            invariant
                i <= input.responses@.len(),
                names == guest_names(party@),
                rs == rsvp_views(input.responses@),
                self.guest_list.party(input.party_id@) == Some(party@),
                first_problem_from(names, rs, limited, 0) == first_problem_from(
                    names,
                    rs,
                    limited,
                    i as int,
                ),
            decreases input.responses@.len() - i,
        {
            let response = &input.responses[i];
            assert(rs[i as int] == response@);
            if !has_guest(party, &response.name) {
                let mut m = String::new();
                append_str(&mut m, "'");
                append_str(&mut m, response.name.as_str());
                append_str(&mut m, "' is not in party '");
                append_str(&mut m, input.party_id.as_str());
                append_str(&mut m, "'");
                assert(m@ =~= unknown_guest_message(rs[i as int].name, input.party_id@));
                return Err(HandlerError::BadRequest(m));
            }
            if limited {
                match &response.dietary_restrictions {
                    Some(d) => {
                        if crate::text::to_chars(d.as_str()).len() > MAXIMUM_LENGTH {
                            assert(rsvp_problem(names, rs[i as int], limited) == Some(
                                RsvpProblem::TooLong,
                            ));
                            let mut m = String::new();
                            append_str(
                                &mut m,
                                "Maximum length of dietary restrictions is 100 characters.",
                            );
                            assert(m@ =~= too_long_message());
                            return Err(HandlerError::BadRequest(m));
                        }
                    },
                    None => {},
                }
            }
            assert(rsvp_problem(names, rs[i as int], limited) is None);
            i = i + 1;
        }
        Ok(())
    }
}

} // verus!
