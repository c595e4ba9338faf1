use rsvp::handler::HandlerError;
use rsvp::photo::{error_body, sanitize_filename, upload_key, uuid_prefix};
use rsvp::routes::{route, submission_error, Route};

#[test]
fn sanitize_replaces_unsafe_characters() {
    assert_eq!(sanitize_filename("my photo (1).JPG"), "my_photo__1_.JPG");
    assert_eq!(sanitize_filename("my photo (1).jpg"), "my_photo__1_.jpg");
    assert_eq!(sanitize_filename("a\\b:c*d?.txt"), "a_b_c_d_.txt");
    assert_eq!(sanitize_filename("../etc/passwd"), ".._etc_passwd");
    assert_eq!(sanitize_filename("été-2024.png"), "été-2024.png");
    assert_eq!(sanitize_filename(""), "");
}

#[test]
fn sanitize_is_idempotent() {
    for s in ["a b/c", "x__y", "ü?ß", "-.-"] {
        let once = sanitize_filename(s);
        assert_eq!(sanitize_filename(&once), once);
    }
}

#[test]
fn uuid_prefix_is_lower_hex() {
    assert_eq!(uuid_prefix(0), "0");
    assert_eq!(uuid_prefix(255), "ff");
    let ms: u128 = 1_725_029_869_123;
    assert_eq!(uuid_prefix(ms), format!("{ms:x}"));
}

#[test]
fn upload_key_joins_prefix_and_name() {
    assert_eq!(upload_key(4096, "a b.png"), "1000/a_b.png");
}

#[test]
fn error_body_is_json() {
    assert_eq!(error_body("Invalid request body"), r#"{"error":"Invalid request body"}"#);
}

#[test]
fn routes() {
    assert!(matches!(route("GET /rsvp", Some("Smith"), Some("p1")), Route::Search(q) if q == "Smith"));
    assert!(matches!(route("GET /rsvp", None, Some("p1")), Route::GetParty(p) if p == "p1"));
    assert!(matches!(route("GET /rsvp", None, None),
        Route::Reject(400, m) if m == "expected 'search' or 'party_id' query parameter"));
    assert!(matches!(route("PUT /rsvp", None, None), Route::PutRsvp));
    assert!(matches!(route("DELETE /rsvp", None, None), Route::Reject(400, m) if m == "unknown route"));
}

#[test]
fn submission_errors_keep_the_bare_message() {
    let (s, m) = submission_error(&HandlerError::NotFound("party 'x' not found".to_string()));
    assert_eq!((s, m.as_str()), (404, "party 'x' not found"));
    let (s, _) = submission_error(&HandlerError::BadRequest("b".to_string()));
    assert_eq!(s, 400);
    let (s, _) = submission_error(&HandlerError::Internal("i".to_string()));
    assert_eq!(s, 500);
}
