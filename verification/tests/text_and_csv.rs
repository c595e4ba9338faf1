use rsvp::csv::party_id;
use rsvp::guest_list::{PartyEntry, PartyMap};
use rsvp::guest_list::{parse_guest_csv, split_lines, GuestList, MapGuestList, ParseCsvError, S3GuestListFactory, GuestListFactory};
use rsvp::text::{is_whitespace, splitn_chars, split_chars, to_chars, trim_chars, u64_to_decimal, string_from_chars, str_equal};

fn strings(v: &[Vec<char>]) -> Vec<String> {
    v.iter().map(|p| p.iter().collect()).collect()
}

#[test]
fn whitespace_matches_std() {
    for u in 0u32..0x3100 {
        if let Some(c) = char::from_u32(u) {
            assert_eq!(is_whitespace(c), c.is_whitespace(), "{u:#x}");
        }
    }
    assert!(!is_whitespace('\u{FEFF}'));
}

#[test]
fn trim_matches_std() {
    for s in ["", "  ", " a ", "\t\r\nab c\u{3000}", "x", "a  ", "\u{85}z"] {
        let t: String = trim_chars(&to_chars(s)).iter().collect();
        assert_eq!(t, s.trim());
    }
}

#[test]
fn split_matches_std() {
    for s in ["", "a", "a\nb", "a\n", "\n\n", "x\r\ny"] {
        let parts = strings(&split_chars(&to_chars(s), '\n'));
        let expected: Vec<String> = s.split('\n').map(String::from).collect();
        assert_eq!(parts, expected);
    }
}

#[test]
fn splitn_matches_std() {
    for s in ["", "a", "a,b", "a,b,c", "a,b,c,d", "a,b,c,d,e,f", ",,", "a,,b,"] {
        for n in 0..6 {
            let parts = strings(&splitn_chars(&to_chars(s), n, ','));
            let expected: Vec<String> = s.splitn(n, ',').map(String::from).collect();
            assert_eq!(parts, expected, "{s:?} {n}");
        }
    }
}

#[test]
fn decimal_matches_to_string() {
    for n in [0u64, 7, 10, 99, 12345, u64::MAX] {
        assert_eq!(u64_to_decimal(n), n.to_string());
    }
}

#[test]
fn strings_round_trip_through_chars() {
    let s = "héllo, wörld";
    assert_eq!(string_from_chars(&to_chars(s)), s);
    assert!(str_equal("abc", "abc"));
    assert!(!str_equal("abc", "abd"));
    assert!(!str_equal("abc", "ab"));
}

#[test]
fn party_ids_are_xxh3_of_the_display_name() {
    let display = "Smith Family".to_string();
    assert_eq!(
        party_id(&display),
        xxhash_rust::xxh3::xxh3_64(display.as_bytes()).to_string()
    );
}

#[test]
fn parse_guest_csv_groups_guests_by_display_name() {
    let csv = "# display,name,alias\n Smith Family , John Smith , Johnny\nSmith Family,Jane Smith,\n\nDoe Family,Alice Doe, ,extra\n".to_string();
    let welcome = vec!["Doe Family".to_string()];
    let map = parse_guest_csv(csv, &welcome).unwrap();
    let list = MapGuestList::new(map);
    let parties = list.all_parties();
    assert_eq!(parties.len(), 2);
    // Three data lines, three guests.
    assert_eq!(parties.iter().map(|p| p.guests.len()).sum::<usize>(), 3);
    let smith_id = xxhash_rust::xxh3::xxh3_64(b"Smith Family").to_string();
    let smith = list.get_party(&smith_id).unwrap();
    assert_eq!(smith.id, smith_id);
    assert_eq!(smith.display_name, "Smith Family");
    assert_eq!(smith.guests.len(), 2);
    assert_eq!(smith.guests[0].name, "John Smith");
    assert_eq!(smith.guests[0].aliases, vec!["Johnny".to_string()]);
    assert!(smith.guests[1].aliases.is_empty());
    assert!(!smith.welcome_dinner_invite);
    let doe_id = xxhash_rust::xxh3::xxh3_64(b"Doe Family").to_string();
    let doe = list.get_party(&doe_id).unwrap();
    assert!(doe.welcome_dinner_invite);
    assert!(doe.guests[0].aliases.is_empty());
}

#[test]
fn parse_guest_csv_rejects_a_line_with_too_few_fields() {
    let csv = "A,b,c\n  Smith Family,John  \nD,e,f\n".to_string();
    match parse_guest_csv(csv, &vec![]) {
        Err(ParseCsvError::InvalidCsvError(line)) => {
            assert_eq!(line, "Smith Family,John");
            assert_eq!(
                ParseCsvError::InvalidCsvError(line).message(),
                "Found invalid CSV when parsing Smith Family,John"
            );
        }
        Ok(_) => panic!("expected an error"),
    }
}

#[test]
fn s3_factory_reads_welcome_lines_verbatim() {
    let guests = "Smith Family,John Smith,\nDoe Family,Alice Doe,\n".to_string();
    let welcome = "Smith Family\r\nDoe Family\n".to_string();
    let factory = S3GuestListFactory::new(guests, welcome).unwrap();
    let list = factory.build();
    let smith = list.get_party(&xxhash_rust::xxh3::xxh3_64(b"Smith Family").to_string()).unwrap();
    // "Smith Family\r" is not "Smith Family".
    assert!(!smith.welcome_dinner_invite);
    let doe = list.get_party(&xxhash_rust::xxh3::xxh3_64(b"Doe Family").to_string()).unwrap();
    assert!(doe.welcome_dinner_invite);
    assert_eq!(
        split_lines(&"a\nb\n".to_string()),
        vec!["a".to_string(), "b".to_string(), String::new()]
    );
}

#[test]
fn map_guest_list_insert_replaces() {
    let mut map = PartyMap::new();
    let p = |name: &str| PartyEntry {
        id: "k".to_string(),
        display_name: name.to_string(),
        guests: vec![],
        welcome_dinner_invite: false,
    };
    map.insert("k".to_string(), p("first"));
    map.insert("j".to_string(), p("other"));
    map.insert("k".to_string(), p("second"));
    assert_eq!(map.len(), 2);
    let list = MapGuestList::new(map);
    assert_eq!(list.get_party("k").unwrap().display_name, "second");
    let all: Vec<&str> = list.all_parties().iter().map(|p| p.display_name.as_str()).collect();
    assert_eq!(all, vec!["second", "other"]);
    assert!(list.get_party("missing").is_none());
}
