use std::cell::RefCell;
use std::collections::HashMap;
use std::rc::Rc;

use rsvp::csv_searcher::CsvNameSearcher;
use rsvp::guest_list::{GuestEntry, PartyEntry, PartyMap};
use rsvp::handler::{party_result, GuestRsvp, HandlerError, HandlerImpl, PartyResult, PutRsvpInput};

/// In-memory answer store for the tests; clones share the data.
#[derive(Clone, Default)]
struct MockRsvpStore {
    data: Rc<RefCell<HashMap<String, Vec<GuestRsvp>>>>,
}

impl MockRsvpStore {
    fn load(&self, party_id: &str) -> Vec<GuestRsvp> {
        self.data.borrow().get(party_id).cloned().unwrap_or_default()
    }

    fn save(&self, party_id: &str, responses: &[GuestRsvp]) {
        self.data
            .borrow_mut()
            .insert(party_id.to_string(), responses.to_vec());
    }
}

type Handler = HandlerImpl<MockRsvpStore, CsvNameSearcher>;

fn guest(name: &str) -> GuestEntry {
    GuestEntry {
        name: name.to_string(),
        aliases: vec![],
    }
}

fn party(id: &str, display: &str, guests: Vec<GuestEntry>) -> PartyEntry {
    PartyEntry {
        id: id.to_string(),
        display_name: display.to_string(),
        guests,
        welcome_dinner_invite: false,
    }
}

fn handler() -> Handler {
    let mut map = PartyMap::new();
    map.insert(
        "p001".to_string(),
        party("p001", "Smith Family", vec![guest("John Smith"), guest("Jane Smith")]),
    );
    map.insert(
        "p002".to_string(),
        party("p002", "Doe Family", vec![guest("Alice Doe")]),
    );
    map.insert(
        "p003".to_string(),
        party(
            "p003",
            "Williams Family",
            vec![guest("Emma Williams"), guest("Carol Williams"), guest("Bob Williams")],
        ),
    );
    HandlerImpl {
        store: MockRsvpStore::default(),
        guest_list: CsvNameSearcher::new(map),
    }
}

fn get_party(h: &Handler, party_id: &str) -> Result<PartyResult, HandlerError> {
    let party = h.find_party(party_id)?;
    let loaded = h.store.load(party_id);
    Ok(party_result(party, &loaded))
}

fn submit_rsvp(h: &Handler, input: PutRsvpInput) -> Result<(), HandlerError> {
    h.validate_rsvp(&input)?;
    h.store.save(&input.party_id, &input.responses);
    Ok(())
}

/// The server's submission: no limit on dietary restrictions.
fn submit_server_rsvp(h: &Handler, input: PutRsvpInput) -> Result<(), HandlerError> {
    h.validate_server_rsvp(&input)?;
    h.store.save(&input.party_id, &input.responses);
    Ok(())
}

fn rsvp(name: &str, attending: bool, dietary: Option<&str>) -> GuestRsvp {
    GuestRsvp {
        name: name.to_string(),
        attending,
        dietary_restrictions: dietary.map(|d| d.to_string()),
    }
}

#[test]
fn test_get_party_not_found() {
    let err = get_party(&handler(), "nonexistent").unwrap_err();
    assert!(matches!(err, HandlerError::NotFound(_)), "got {err:?}");
}

#[test]
fn test_submit_rsvp_party_not_found() {
    let err = submit_rsvp(
        &handler(),
        PutRsvpInput {
            party_id: "nonexistent".to_string(),
            responses: vec![],
        },
    )
    .unwrap_err();
    assert!(matches!(err, HandlerError::NotFound(_)), "got {err:?}");
}

#[test]
fn test_submit_rsvp_guest_not_in_party() {
    let err = submit_rsvp(
        &handler(),
        PutRsvpInput {
            party_id: "p001".to_string(),
            responses: vec![rsvp("Not A Real Guest", true, None)],
        },
    )
    .unwrap_err();
    assert!(matches!(err, HandlerError::BadRequest(_)), "got {err:?}");
}

#[test]
fn test_get_party_no_prior_rsvp() {
    let result = get_party(&handler(), "p001").unwrap();
    assert_eq!(result.party_id, "p001");
    assert_eq!(result.display_name, "Smith Family");
    assert_eq!(result.guests.len(), 2);
    assert!(
        result.guests.iter().all(|g| g.rsvp.is_none()),
        "all RSVPs should be None before any submission"
    );
}

#[test]
fn test_submit_then_get_party_returns_rsvp_data() {
    let h = handler();
    submit_rsvp(
        &h,
        PutRsvpInput {
            party_id: "p001".to_string(),
            responses: vec![
                rsvp("John Smith", true, Some("vegetarian")),
                rsvp("Jane Smith", false, None),
            ],
        },
    )
    .unwrap();

    let result = get_party(&h, "p001").unwrap();
    let john = result.guests.iter().find(|g| g.name == "John Smith").unwrap();
    let john_rsvp = john.rsvp.as_ref().expect("John should have an RSVP");
    assert!(john_rsvp.attending);
    assert_eq!(john_rsvp.dietary_restrictions.as_deref(), Some("vegetarian"));

    let jane = result.guests.iter().find(|g| g.name == "Jane Smith").unwrap();
    let jane_rsvp = jane.rsvp.as_ref().expect("Jane should have an RSVP");
    assert!(!jane_rsvp.attending);
    assert!(jane_rsvp.dietary_restrictions.is_none());
}

#[test]
fn test_submit_overwrites_previous_submission() {
    let h = handler();
    submit_rsvp(
        &h,
        PutRsvpInput {
            party_id: "p002".to_string(),
            responses: vec![rsvp("Alice Doe", false, None)],
        },
    )
    .unwrap();
    submit_rsvp(
        &h,
        PutRsvpInput {
            party_id: "p002".to_string(),
            responses: vec![rsvp("Alice Doe", true, Some("gluten-free"))],
        },
    )
    .unwrap();

    let result = get_party(&h, "p002").unwrap();
    let alice = result.guests.iter().find(|g| g.name == "Alice Doe").unwrap();
    let rsvp = alice.rsvp.as_ref().expect("Alice should have an RSVP");
    assert!(rsvp.attending, "second submission should have overwritten the first");
    assert_eq!(rsvp.dietary_restrictions.as_deref(), Some("gluten-free"));
}

#[test]
fn test_partial_party_submission() {
    let h = handler();
    submit_rsvp(
        &h,
        PutRsvpInput {
            party_id: "p003".to_string(),
            responses: vec![rsvp("Carol Williams", true, None)],
        },
    )
    .unwrap();

    let result = get_party(&h, "p003").unwrap();
    assert_eq!(result.guests.len(), 3);
    let carol = result.guests.iter().find(|g| g.name == "Carol Williams").unwrap();
    assert!(carol.rsvp.is_some());
    let without_rsvp = result
        .guests
        .iter()
        .filter(|g| g.name != "Carol Williams")
        .filter(|g| g.rsvp.is_none())
        .count();
    assert_eq!(without_rsvp, 2);
}

#[test]
fn test_store_is_shared_across_clone() {
    // HandlerImpl::clone shares the same underlying store (Rc)
    let h1 = handler();
    let h2 = h1.clone();

    submit_rsvp(
        &h1,
        PutRsvpInput {
            party_id: "p001".to_string(),
            responses: vec![rsvp("John Smith", true, None)],
        },
    )
    .unwrap();

    let result = get_party(&h2, "p001").unwrap();
    let john = result.guests.iter().find(|g| g.name == "John Smith").unwrap();
    assert!(john.rsvp.is_some(), "h2 should see data written by h1");
}

// ── Validation details ───────────────────────────────────────────────────────

#[test]
fn error_messages_and_statuses() {
    let err = get_party(&handler(), "nope").unwrap_err();
    assert_eq!(err.message(), "not found: party 'nope' not found");
    assert_eq!(err.status_code(), 404);

    let err = submit_rsvp(
        &handler(),
        PutRsvpInput {
            party_id: "p001".to_string(),
            responses: vec![rsvp("John Smith", true, None), rsvp("Bob", true, None)],
        },
    )
    .unwrap_err();
    assert_eq!(err.message(), "bad request: 'Bob' is not in party 'p001'");
    assert_eq!(err.status_code(), 400);
    assert_eq!(HandlerError::Internal("boom".to_string()).status_code(), 500);
    assert_eq!(
        HandlerError::Internal("boom".to_string()).message(),
        "internal error: boom"
    );
}

#[test]
fn dietary_restrictions_are_limited_to_one_hundred_characters() {
    // 100 two-byte characters: 200 bytes, but 100 characters.
    let ok = "é".repeat(100);
    assert!(submit_rsvp(
        &handler(),
        PutRsvpInput {
            party_id: "p002".to_string(),
            responses: vec![rsvp("Alice Doe", true, Some(&ok))],
        },
    )
    .is_ok());

    let long = "a".repeat(101);
    let err = submit_rsvp(
        &handler(),
        PutRsvpInput {
            party_id: "p002".to_string(),
            responses: vec![rsvp("Alice Doe", true, Some(&long))],
        },
    )
    .unwrap_err();
    match err {
        HandlerError::BadRequest(m) => {
            assert_eq!(m, "Maximum length of dietary restrictions is 100 characters.")
        }
        other => panic!("got {other:?}"),
    }
}

#[test]
fn unknown_guest_is_reported_before_a_later_long_answer() {
    let long = "x".repeat(101);
    let err = submit_rsvp(
        &handler(),
        PutRsvpInput {
            party_id: "p002".to_string(),
            responses: vec![rsvp("Zed", true, None), rsvp("Alice Doe", true, Some(&long))],
        },
    )
    .unwrap_err();
    assert_eq!(err.message(), "bad request: 'Zed' is not in party 'p002'");
}

#[test]
fn last_answer_for_a_guest_counts() {
    let h = handler();
    let party = h.find_party("p002").unwrap();
    let loaded = vec![rsvp("Alice Doe", false, None), rsvp("Alice Doe", true, Some("none"))];
    let result = party_result(party, &loaded);
    let alice = result.guests[0].rsvp.as_ref().unwrap();
    assert!(alice.attending);
    assert_eq!(alice.dietary_restrictions.as_deref(), Some("none"));
}

#[test]
fn get_party_with_loaded_answers() {
    let h = handler();
    let loaded = vec![rsvp("Bob Williams", true, None)];
    let result = h.get_party("p003", &loaded).unwrap();
    let names: Vec<&str> = result.guests.iter().map(|g| g.name.as_str()).collect();
    assert_eq!(names, vec!["Emma Williams", "Carol Williams", "Bob Williams"]);
    assert!(result.guests[2].rsvp.is_some());
    assert!(result.guests[0].rsvp.is_none());
    assert!(h.get_party("p999", &loaded).is_err());
}

#[test]
fn server_accepts_dietary_restrictions_of_any_length() {
    let h = handler();
    let long = "a".repeat(101);
    submit_server_rsvp(
        &h,
        PutRsvpInput {
            party_id: "p002".to_string(),
            responses: vec![rsvp("Alice Doe", true, Some(&long))],
        },
    )
    .unwrap();
    let res = get_party(&h, "p002").unwrap();
    let got = res.guests[0].rsvp.as_ref().unwrap();
    assert_eq!(got.dietary_restrictions.as_deref(), Some(long.as_str()));
}

#[test]
fn server_still_rejects_unknown_guests_and_parties() {
    let h = handler();
    let err = submit_server_rsvp(
        &h,
        PutRsvpInput {
            party_id: "p002".to_string(),
            responses: vec![rsvp("Zed", true, Some(&"x".repeat(200)))],
        },
    )
    .unwrap_err();
    assert_eq!(err.message(), "bad request: 'Zed' is not in party 'p002'");
    let err = submit_server_rsvp(
        &h,
        PutRsvpInput {
            party_id: "p999".to_string(),
            responses: vec![],
        },
    )
    .unwrap_err();
    assert!(matches!(err, HandlerError::NotFound(_)), "got {err:?}");
}
