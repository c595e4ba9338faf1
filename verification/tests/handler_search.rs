use rsvp::csv_searcher::CsvNameSearcher;
use rsvp::guest_list::{GuestEntry, PartyEntry, PartyMap};
use rsvp::handler::{HandlerImpl, SearchResult};
use rsvp::name_searcher::NameSimilaritySearcher;

// ── Scoring (floating point, as the service computes it) ─────────────────────

fn score_name(guest_name: &str, guest_aliases: &[&str], query: &str) -> f64 {
    let guest_lower = guest_name.to_lowercase();
    let query_lower = query.to_lowercase();

    if guest_lower.contains(&query_lower) {
        return 1.0;
    }

    let full_score = strsim::jaro_winkler(&guest_lower, &query_lower);

    let mut guest_words: Vec<&str> = guest_lower.split_whitespace().collect();
    guest_words.extend_from_slice(guest_aliases);

    let query_words: Vec<&str> = query_lower.split_whitespace().collect();
    let word_score: f64 = query_words
        .iter()
        .map(|qw| {
            guest_words
                .iter()
                .map(|gw| strsim::jaro_winkler(qw, gw))
                .fold(0.0_f64, f64::max)
        })
        .sum::<f64>()
        / query_words.len().max(1) as f64;

    full_score.max(word_score)
}

fn guest_scores<G: NameSimilaritySearcher>(searcher: &G, query: &str) -> Vec<Vec<u64>> {
    searcher
        .parties_to_score()
        .iter()
        .map(|p| {
            p.guests
                .iter()
                .map(|g| {
                    let aliases: Vec<&str> = g.aliases.iter().map(|a| a.as_str()).collect();
                    score_name(&g.name, &aliases, query).to_bits()
                })
                .collect()
        })
        .collect()
}

// ── Test guest data ──────────────────────────────────────────────────────────

fn guest(name: &str) -> GuestEntry {
    GuestEntry {
        name: name.to_string(),
        aliases: vec![],
    }
}

fn party(id: &str, display: &str, guests: Vec<GuestEntry>) -> PartyEntry {
    PartyEntry {
        id: id.to_string(),
        display_name: display.to_string(),
        guests,
        welcome_dinner_invite: false,
    }
}

fn test_guest_map() -> PartyMap {
    let mut map = PartyMap::new();
    map.insert(
        "p001".to_string(),
        party("p001", "Smith Family", vec![guest("John Smith"), guest("Jane Smith")]),
    );
    map.insert(
        "p002".to_string(),
        party("p002", "Doe Family", vec![guest("Alice Doe")]),
    );
    map.insert(
        "p003".to_string(),
        party(
            "p003",
            "Williams Family",
            vec![guest("Emma Williams"), guest("Carol Williams"), guest("Bob Williams")],
        ),
    );
    map
}

fn handler() -> HandlerImpl<(), CsvNameSearcher> {
    HandlerImpl {
        store: (),
        guest_list: CsvNameSearcher::new(test_guest_map()),
    }
}

fn search(h: &HandlerImpl<(), CsvNameSearcher>, query: &str) -> SearchResult {
    let scores = guest_scores(&h.guest_list, query);
    h.search(&scores)
}

// ── Search tests ─────────────────────────────────────────────────────────────

#[test]
fn test_search_exact_full_name() {
    let results = search(&handler(), "John Smith").matches;
    assert!(!results.is_empty(), "expected a match for 'John Smith'");
    assert!(results.iter().any(|m| m.party_id == "p001"));
}

#[test]
fn test_search_first_name_only() {
    let results = search(&handler(), "Alice").matches;
    assert!(results.iter().any(|m| m.party_id == "p002"), "expected p002");
}

#[test]
fn test_search_last_name_only() {
    let results = search(&handler(), "Williams").matches;
    assert!(results.iter().any(|m| m.party_id == "p003"), "expected p003");
}

#[test]
fn test_search_case_insensitive() {
    assert!(search(&handler(), "john smith")
        .matches
        .iter()
        .any(|m| m.party_id == "p001"));
    assert!(search(&handler(), "JOHN SMITH")
        .matches
        .iter()
        .any(|m| m.party_id == "p001"));
}

#[test]
fn test_search_fuzzy_typo() {
    // "Jon Smith" is a one-character typo of "John Smith"
    let results = search(&handler(), "Jon Smith").matches;
    assert!(
        results.iter().any(|m| m.party_id == "p001"),
        "fuzzy search should match 'John Smith' for 'Jon Smith'"
    );
}

#[test]
fn test_search_no_match_gibberish() {
    assert!(search(&handler(), "xqzgibberish").matches.is_empty());
}

#[test]
fn test_search_result_includes_all_party_guests() {
    let results = search(&handler(), "Smith").matches;
    let smith = results.iter().find(|m| m.party_id == "p001").unwrap();
    assert!(smith.guest_names.contains(&"John Smith".to_string()));
    assert!(smith.guest_names.contains(&"Jane Smith".to_string()));
}

#[test]
fn test_search_result_count_capped_at_limit() {
    assert!(search(&handler(), "Smith").matches.len() <= 5);
}

#[test]
fn test_search_results_ordered_by_score() {
    // Exact substring match should rank first
    let results = search(&handler(), "Emma Williams").matches;
    assert!(!results.is_empty());
    assert_eq!(results[0].party_id, "p003");
}

// ── Ranking on given score keys ──────────────────────────────────────────────

#[test]
fn search_keeps_listing_order_for_equal_scores() {
    let h = handler();
    let one = 1.0f64.to_bits();
    // Every party scores 1.0: the listing order stands.
    let scores = vec![vec![one, 0], vec![one], vec![0, one, 0]];
    let ids: Vec<String> = h.search(&scores).matches.into_iter().map(|m| m.party_id).collect();
    assert_eq!(ids, vec!["p001", "p002", "p003"]);
}

#[test]
fn search_ranks_by_best_guest_score_and_drops_low_scores() {
    let h = handler();
    let scores = vec![
        vec![0.5f64.to_bits(), 0.8f64.to_bits()],
        vec![0.74f64.to_bits()],
        vec![0.9f64.to_bits(), 0.1f64.to_bits(), 0.75f64.to_bits()],
    ];
    let ids: Vec<String> = h.search(&scores).matches.into_iter().map(|m| m.party_id).collect();
    assert_eq!(ids, vec!["p003", "p001"]);
}

#[test]
fn search_returns_at_most_five() {
    let mut map = PartyMap::new();
    for i in 0..8 {
        let id = format!("p{i}");
        map.insert(id.clone(), party(&id, "Family", vec![guest("X")]));
    }
    let h: HandlerImpl<(), CsvNameSearcher> = HandlerImpl {
        store: (),
        guest_list: CsvNameSearcher::new(map),
    };
    let scores: Vec<Vec<u64>> = (0..8).map(|i| vec![(0.8f64 + i as f64 / 100.0).to_bits()]).collect();
    let ids: Vec<String> = h.search(&scores).matches.into_iter().map(|m| m.party_id).collect();
    assert_eq!(ids, vec!["p7", "p6", "p5", "p4", "p3"]);
}

#[test]
fn threshold_key_is_three_quarters() {
    assert_eq!(rsvp::name_searcher::SCORE_THRESHOLD, 0.75f64.to_bits());
    // Score keys order as the scores do.
    let xs = [0.0f64, 0.1, 0.5, 0.75, 0.9, 1.0];
    for w in xs.windows(2) {
        assert!(w[0].to_bits() < w[1].to_bits());
    }
}

#[test]
fn best_score_is_the_maximum() {
    assert_eq!(rsvp::name_searcher::best_score(&vec![]), 0);
    assert_eq!(rsvp::name_searcher::best_score(&vec![3, 9, 4]), 9);
}

#[test]
fn rank_is_a_stable_descending_sort_above_threshold() {
    let t = rsvp::name_searcher::SCORE_THRESHOLD;
    let best = vec![t, t + 5, t - 1, t + 5, t + 1];
    assert_eq!(rsvp::name_searcher::rank(&best, true), vec![1, 3, 4, 0]);
    assert_eq!(rsvp::name_searcher::rank(&best, false), vec![1, 3, 4]);
}

#[test]
fn searcher_keeps_only_scores_above_three_quarters() {
    let h = handler();
    let at = 0.75f64.to_bits();
    let above = 0.7500001f64.to_bits();
    let scores = vec![vec![at], vec![above], vec![0]];
    let ids: Vec<String> = h.search(&scores).matches.into_iter().map(|m| m.party_id).collect();
    assert_eq!(ids, vec!["p002"]);
    // The server's search keeps a score of exactly 0.75.
    let all: Vec<String> = rsvp::handler::search_parties(&h.guest_list, &scores, 5)
        .into_iter()
        .map(|m| m.party_id)
        .collect();
    assert_eq!(all, vec!["p002", "p001"]);
}

#[test]
fn server_search_keeps_a_score_of_exactly_three_quarters() {
    let h = handler();
    let at = 0.75f64.to_bits();
    let above = 0.7500001f64.to_bits();
    let scores = vec![vec![at], vec![above], vec![0]];
    let ids: Vec<String> = h
        .server_search(&scores)
        .matches
        .into_iter()
        .map(|m| m.party_id)
        .collect();
    assert_eq!(ids, vec!["p002", "p001"]);
}
