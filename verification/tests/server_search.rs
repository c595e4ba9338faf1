use rsvp::csv_searcher::{guest_list, CsvNameSearcher};
use rsvp::handler::{search_parties, SearchMatch};
use rsvp::name_searcher::NameSimilaritySearcher;

// The embedded guest list, `party_id,display_name,guest_name`.
const GUEST_CSV: &str = "\
# party_id,party_display_name,guest_name
p001,Smith Family,John Smith
p001,Smith Family,Jane Smith

p002,Doe Family,Alice Doe
p003,Williams Family,Emma Williams
p003,Williams Family,Carol Williams
p003,Williams Family,Bob Williams
";

fn score_name(guest_name: &str, query: &str) -> f64 {
    let guest_lower = guest_name.to_lowercase();
    let query_lower = query.to_lowercase();

    if guest_lower.contains(&query_lower) {
        return 1.0;
    }

    let full_score = strsim::jaro_winkler(&guest_lower, &query_lower);

    let guest_words: Vec<&str> = guest_lower.split_whitespace().collect();
    let query_words: Vec<&str> = query_lower.split_whitespace().collect();
    let word_score: f64 = query_words
        .iter()
        .map(|qw| {
            guest_words
                .iter()
                .map(|gw| strsim::jaro_winkler(qw, gw))
                .fold(0.0_f64, f64::max)
        })
        .sum::<f64>()
        / query_words.len().max(1) as f64;

    full_score.max(word_score)
}

fn search(query: &str, max_results: usize) -> Vec<SearchMatch> {
    let searcher = CsvNameSearcher::new(guest_list(GUEST_CSV));
    let scores: Vec<Vec<u64>> = searcher
        .parties_to_score()
        .iter()
        .map(|p| p.guests.iter().map(|g| score_name(&g.name, query).to_bits()).collect())
        .collect();
    search_parties(&searcher, &scores, max_results)
}

#[test]
fn handler_test_search_exact_full_name() {
    let results = search("John Smith", 5);
    assert!(!results.is_empty(), "expected a match for 'John Smith'");
    assert!(results.iter().any(|m| m.party_id == "p001"));
}

#[test]
fn handler_test_search_first_name_only() {
    let results = search("Alice", 5);
    assert!(results.iter().any(|m| m.party_id == "p002"), "expected p002");
}

#[test]
fn handler_test_search_last_name_only() {
    let results = search("Williams", 5);
    assert!(results.iter().any(|m| m.party_id == "p003"), "expected p003");
}

#[test]
fn handler_test_search_case_insensitive() {
    assert!(search("john smith", 5).iter().any(|m| m.party_id == "p001"));
    assert!(search("JOHN SMITH", 5).iter().any(|m| m.party_id == "p001"));
}

#[test]
fn handler_test_search_fuzzy_typo() {
    // "Jon Smith" is a one-character typo of "John Smith"
    let results = search("Jon Smith", 5);
    assert!(
        results.iter().any(|m| m.party_id == "p001"),
        "fuzzy search should match 'John Smith' for 'Jon Smith'"
    );
}

#[test]
fn handler_test_search_no_match_gibberish() {
    assert!(search("xqzgibberish", 5).is_empty());
}

#[test]
fn handler_test_search_result_includes_all_party_guests() {
    let results = search("Smith", 5);
    let smith = results.iter().find(|m| m.party_id == "p001").unwrap();
    assert!(smith.guest_names.contains(&"John Smith".to_string()));
    assert!(smith.guest_names.contains(&"Jane Smith".to_string()));
}

#[test]
fn handler_test_search_result_count_capped_at_limit() {
    assert!(search("Smith", 1).len() <= 1);
}

#[test]
fn handler_test_search_results_ordered_by_score() {
    // Exact substring match should rank first
    let results = search("Emma Williams", 5);
    assert!(!results.is_empty());
    assert_eq!(results[0].party_id, "p003");
}

// ── The embedded list ────────────────────────────────────────────────────────

#[test]
fn name_only_list_groups_guests_by_party() {
    let searcher = CsvNameSearcher::new(guest_list(GUEST_CSV));
    let parties = searcher.parties_to_score();
    let ids: Vec<&str> = parties.iter().map(|p| p.id.as_str()).collect();
    assert_eq!(ids, vec!["p001", "p002", "p003"]);
    let smith = searcher.get_party("p001").unwrap();
    assert_eq!(smith.display_name, "Smith Family");
    let names: Vec<&str> = smith.guests.iter().map(|g| g.name.as_str()).collect();
    assert_eq!(names, vec!["John Smith", "Jane Smith"]);
    assert!(searcher.get_party("p004").is_none());
}

#[test]
fn name_only_list_skips_short_lines_and_keeps_commas_in_names() {
    let map = guest_list("p1,Party\n  p2 , Two ,  Ann, Lee  \n#p3,x,y\n");
    let searcher = CsvNameSearcher::new(map);
    assert!(searcher.get_party("p1").is_none());
    let two = searcher.get_party("p2").unwrap();
    assert_eq!(two.display_name, "Two");
    assert_eq!(two.guests[0].name, "Ann, Lee");
    assert!(two.guests[0].aliases.is_empty());
}

#[test]
fn keyed_list_with_aliases() {
    let csv = "p1, Smiths ,John Smith, Johnny \np1,Smiths2,Jane Smith,\n";
    assert!(CsvNameSearcher::csv_is_valid(csv));
    let map = CsvNameSearcher::load_csv(csv);
    let searcher = CsvNameSearcher::new(map);
    let p = searcher.get_party("p1").unwrap();
    assert_eq!(p.display_name, "Smiths");
    assert_eq!(p.guests.len(), 2);
    // The alias keeps its spacing; a blank alias gives none.
    assert_eq!(p.guests[0].aliases, vec![" Johnny".to_string()]);
    assert!(p.guests[1].aliases.is_empty());
    assert!(!p.welcome_dinner_invite);
}

#[test]
fn keyed_list_rejects_short_lines() {
    assert!(!CsvNameSearcher::csv_is_valid("p1,Smiths,John Smith\n"));
    assert!(!CsvNameSearcher::csv_is_valid("p1,a,b,c\n  x , y \n"));
    assert!(CsvNameSearcher::csv_is_valid("# only,a comment\n\n"));
    assert!(CsvNameSearcher::load_csv("# only,a comment\n\n").len() == 0);
}
