//! The guest-list CSV formats and their parsing into a `PartyMap`.
//!
//! A guest list is text with one guest per line.  Lines are trimmed; blank
//! lines and lines starting with `#` are skipped.  Each remaining line is cut
//! at commas into fields, which give the party key, the party's display name,
//! the guest's name and an optional alias.  Lines with the same party key are
//! grouped into one party, in order of first appearance; the party's display
//! name and welcome-dinner flag come from its first line.

use vstd::prelude::*;

use crate::guest_list::{
    add_guest, guest_views, key_pos, keys_distinct, lemma_insert_then_lookup, lemma_key_pos, lookup,
    map_insert, push_guest_spec, GuestEntry, GuestView, PartyEntry, PartyMap, PartyMapView,
    PartyView,
};
use crate::text::{
    decimal, is_trimmed, lemma_trim, lemma_trimmed_fixed, split, split_chars, splitn, splitn_chars, str_equal,
    string_from_chars, to_chars, trim, trim_chars, u64_to_decimal,
};

verus! {

// ── Party ids ────────────────────────────────────────────────────────────────

/// The xxHash3 64-bit hash (seed 0) of `bytes`.
pub uninterp spec fn xxh3_64_of(bytes: Seq<u8>) -> u64;

/// `xxhash_rust::xxh3::xxh3_64`: the 64-bit XXH3 hash of the input.
#[verifier::external_body]
fn xxh3_64(input: &[u8]) -> (h: u64)
    ensures
        h == xxh3_64_of(input@),
{
    xxhash_rust::xxh3::xxh3_64(input)
}

/// The id of a party with the given display name: the decimal form of the
/// XXH3 hash of the name's UTF-8 bytes.
pub open spec fn party_id_for(display: Seq<char>) -> Seq<char> {
    decimal(xxh3_64_of(vstd::utf8::encode_utf8(display)) as nat)
}

/// `xxh3_64(display.as_bytes()).to_string()`.
pub fn party_id(display: &String) -> (r: String)
    ensures
        r@ == party_id_for(display@),
{
    let bytes = display.as_str().as_bytes();
    let h = xxh3_64(bytes);
    u64_to_decimal(h)
}

// ── Records ──────────────────────────────────────────────────────────────────

/// One guest line of a guest list.
pub struct CsvRecord {
    pub key: String,
    pub display: String,
    pub guest: GuestEntry,
    pub welcome: bool,
}

/// What a `CsvRecord` holds, as character sequences.
pub struct RecordView {
    pub key: Seq<char>,
    pub display: Seq<char>,
    pub guest: GuestView,
    pub welcome: bool,
}

impl View for CsvRecord {
    type V = RecordView;

    open spec fn view(&self) -> RecordView {
        RecordView {
            key: self.key@,
            display: self.display@,
            guest: self.guest@,
            welcome: self.welcome,
        }
    }
}

/// The party that the first record of a key starts, before its guest joins.
pub open spec fn party_of(r: RecordView) -> PartyView {
    PartyView {
        id: r.key,
        display_name: r.display,
        guests: Seq::empty(),
        welcome_dinner_invite: r.welcome,
    }
}

/// Records grouped into parties by key, in order of first appearance.
pub open spec fn group(rs: Seq<RecordView>) -> PartyMapView
    decreases rs.len(),
{
    if rs.len() == 0 {
        Seq::empty()
    } else {
        let r = rs.last();
        push_guest_spec(group(rs.drop_last()), r.key, party_of(r), r.guest)
    }
}

/// Groups records into parties by key.
pub fn group_records(rs: &Vec<CsvRecord>) -> (m: PartyMap)
    ensures
        m@ == group(rs@.map_values(|r: CsvRecord| r@)),
{
    let ghost views = rs@.map_values(|r: CsvRecord| r@);
    let mut m = PartyMap::new();
    let mut i: usize = 0;
    while i < rs.len()
        invariant
            i <= rs@.len(),
            views == rs@.map_values(|r: CsvRecord| r@),
            m@ == group(views.take(i as int)),
        decreases rs@.len() - i,
    {
        let r = &rs[i];
        let party = PartyEntry {
            id: r.key.clone(),
            display_name: r.display.clone(),
            guests: Vec::new(),
            welcome_dinner_invite: r.welcome,
        };
        assert(guest_views(party.guests@) =~= Seq::<GuestView>::empty());
        assert(party@ =~= party_of(r@));
        m.push_guest(r.key.clone(), party, r.guest.clone());
        assert(views.take(i + 1).drop_last() =~= views.take(i as int));
        i = i + 1;
    }
    assert(views.take(rs@.len() as int) =~= views);
    m
}

/// The guests of the records with key `key`, in record order.
pub open spec fn guests_of(rs: Seq<RecordView>, key: Seq<char>) -> Seq<GuestView>
    decreases rs.len(),
{
    if rs.len() == 0 {
        Seq::empty()
    } else if rs.last().key == key {
        guests_of(rs.drop_last(), key).push(rs.last().guest)
    } else {
        guests_of(rs.drop_last(), key)
    }
}

/// The first record with key `key`.
pub open spec fn first_with_key(rs: Seq<RecordView>, key: Seq<char>) -> Option<RecordView>
    decreases rs.len(),
{
    if rs.len() == 0 {
        None
    } else {
        match first_with_key(rs.drop_last(), key) {
            Some(f) => Some(f),
            None => if rs.last().key == key {
                Some(rs.last())
            } else {
                None
            },
        }
    }
}

/// The party that grouping gives for `key`: it exists when some record has
/// that key; its display name and welcome flag are those of the first such
/// record, and its guests are the guests of all such records, in order.
pub open spec fn grouped_party(rs: Seq<RecordView>, key: Seq<char>) -> Option<PartyView> {
    match first_with_key(rs, key) {
        None => None,
        Some(f) => Some(
            PartyView {
                id: key,
                display_name: f.display,
                guests: guests_of(rs, key),
                welcome_dinner_invite: f.welcome,
            },
        ),
    }
}

proof fn lemma_lookup_after_push_guest(
    m: PartyMapView,
    k: Seq<char>,
    p: PartyView,
    g: GuestView,
    key: Seq<char>,
)
    requires
        keys_distinct(m),
    ensures
        keys_distinct(push_guest_spec(m, k, p, g)),
        key != k ==> lookup(push_guest_spec(m, k, p, g), key) == lookup(m, key),
        lookup(push_guest_spec(m, k, p, g), k) == Some(
            match lookup(m, k) {
                Some(q) => add_guest(q, g),
                None => add_guest(p, g),
            },
        ),
{
    let v = match lookup(m, k) {
        Some(q) => add_guest(q, g),
        None => add_guest(p, g),
    };
    assert(push_guest_spec(m, k, p, g) == map_insert(m, k, v));
    lemma_insert_then_lookup(m, k, v, key);
}

/// Grouping gathers the records of each key into one party: a key's party
/// takes its display name and welcome flag from the key's first record and
/// holds the guests of all its records, in order; no key is held twice.
pub proof fn lemma_group_parties(rs: Seq<RecordView>)
    ensures
        keys_distinct(group(rs)),
        forall|key: Seq<char>| #[trigger] lookup(group(rs), key) == grouped_party(rs, key),
    decreases rs.len(),
{
    if rs.len() == 0 {
        assert forall|key: Seq<char>| #[trigger] lookup(group(rs), key) == grouped_party(rs, key) by {
            lemma_key_pos(group(rs), key);
        }
    } else {
        let prev = rs.drop_last();
        let r = rs.last();
        lemma_group_parties(prev);
        assert forall|key: Seq<char>| #[trigger] lookup(group(rs), key) == grouped_party(rs, key) by {
            lemma_lookup_after_push_guest(group(prev), r.key, party_of(r), r.guest, key);
            assert(lookup(group(prev), key) == grouped_party(prev, key));
            if key == r.key {
                match first_with_key(prev, key) {
                    Some(f) => {},
                    None => {
                        assert(guests_of(prev, key) =~= Seq::<GuestView>::empty()) by {
                            lemma_no_first_no_guests(prev, key);
                        }
                    },
                }
            }
        }
        lemma_lookup_after_push_guest(group(prev), r.key, party_of(r), r.guest, r.key);
    }
}

proof fn lemma_no_first_no_guests(rs: Seq<RecordView>, key: Seq<char>)
    requires
        first_with_key(rs, key) is None,
    ensures
        guests_of(rs, key).len() == 0,
    decreases rs.len(),
{
    if rs.len() > 0 {
        lemma_no_first_no_guests(rs.drop_last(), key);
    }
}

// ── Layouts ──────────────────────────────────────────────────────────────────

/// The three guest-list layouts.
pub enum CsvLayout {
    /// `display_name,guest_name,alias[,…]`: the party key is `party_id` of
    /// the display name, and the party is invited to the welcome dinner when
    /// its display name is one of the given lines.  A line with fewer than
    /// three fields is invalid.
    Hashed(Vec<String>),
    /// `party_id,display_name,guest_name,alias`, where the alias is the rest
    /// of the line.  A line with fewer than four fields is invalid.
    Keyed,
    /// `party_id,display_name,guest_name`, where the name is the rest of the
    /// line and there are no aliases.  A line with fewer than three fields is
    /// skipped.
    KeyedNameOnly,
}

/// What a `CsvLayout` holds, as character sequences.
pub enum LayoutView {
    Hashed(Seq<Seq<char>>),
    Keyed,
    KeyedNameOnly,
}

impl View for CsvLayout {
    type V = LayoutView;

    open spec fn view(&self) -> LayoutView {
        match self {
            CsvLayout::Hashed(w) => LayoutView::Hashed(w.deep_view()),
            CsvLayout::Keyed => LayoutView::Keyed,
            CsvLayout::KeyedNameOnly => LayoutView::KeyedNameOnly,
        }
    }
}

/// What a line of a guest list is.
pub enum LineKind {
    Skip,
    Invalid,
    Entry(RecordView),
}

/// A trimmed line that carries no guest: blank, or a `#` comment.
pub open spec fn is_skipped(t: Seq<char>) -> bool {
    t.len() == 0 || t[0] == '#'
}

/// The aliases given by an alias field: none when it is blank.
pub open spec fn aliases_of(field: Seq<char>, kept: Seq<char>) -> Seq<Seq<char>> {
    if trim(field).len() == 0 {
        Seq::empty()
    } else {
        seq![kept]
    }
}

/// What the line `line` of a guest list in layout `layout` is.
pub open spec fn classify(layout: LayoutView, line: Seq<char>) -> LineKind {
    let t = trim(line);
    if is_skipped(t) {
        LineKind::Skip
    } else {
        match layout {
            LayoutView::Hashed(welcome) => {
                let p = splitn(t, 4, ',');
                if p.len() < 3 {
                    LineKind::Invalid
                } else {
                    let display = trim(p[0]);
                    LineKind::Entry(
                        RecordView {
                            key: party_id_for(display),
                            display,
                            guest: GuestView {
                                name: trim(p[1]),
                                aliases: aliases_of(p[2], trim(p[2])),
                            },
                            welcome: welcome.contains(display),
                        },
                    )
                }
            },
            LayoutView::Keyed => {
                let p = splitn(t, 4, ',');
                if p.len() < 4 {
                    LineKind::Invalid
                } else {
                    LineKind::Entry(
                        RecordView {
                            key: trim(p[0]),
                            display: trim(p[1]),
                            guest: GuestView { name: trim(p[2]), aliases: aliases_of(p[3], p[3]) },
                            welcome: false,
                        },
                    )
                }
            },
            LayoutView::KeyedNameOnly => {
                let p = splitn(t, 3, ',');
                if p.len() < 3 {
                    LineKind::Skip
                } else {
                    LineKind::Entry(
                        RecordView {
                            key: trim(p[0]),
                            display: trim(p[1]),
                            guest: GuestView { name: trim(p[2]), aliases: Seq::empty() },
                            welcome: false,
                        },
                    )
                }
            },
        }
    }
}

/// The records of `lines`, or the first invalid line, trimmed.
pub open spec fn records(layout: LayoutView, lines: Seq<Seq<char>>) -> Result<
    Seq<RecordView>,
    Seq<char>,
>
    decreases lines.len(),
{
    if lines.len() == 0 {
        Ok(Seq::empty())
    } else {
        match records(layout, lines.drop_last()) {
            Err(e) => Err(e),
            Ok(rs) => match classify(layout, lines.last()) {
                LineKind::Skip => Ok(rs),
                LineKind::Invalid => Err(trim(lines.last())),
                LineKind::Entry(r) => Ok(rs.push(r)),
            },
        }
    }
}

/// The parties of guest-list text `text` in layout `layout`, or the first
/// invalid line, trimmed.
pub open spec fn parse_csv_spec(layout: LayoutView, text: Seq<char>) -> Result<
    PartyMapView,
    Seq<char>,
> {
    match records(layout, split(text, '\n')) {
        Ok(rs) => Ok(group(rs)),
        Err(e) => Err(e),
    }
}

proof fn lemma_records_error_persists(layout: LayoutView, lines: Seq<Seq<char>>, i: int)
    requires
        0 <= i <= lines.len(),
        records(layout, lines.take(i)) is Err,
    ensures
        records(layout, lines) == records(layout, lines.take(i)),
    decreases lines.len() - i,
{
    if i < lines.len() {
        assert(lines.take(i + 1).drop_last() =~= lines.take(i));
        lemma_records_error_persists(layout, lines, i + 1);
    } else {
        assert(lines.take(i) =~= lines);
    }
}

/// Blank lines and `#` comment lines are ignored: adding one changes
/// nothing.
pub proof fn lemma_skipped_lines_ignored(layout: LayoutView, lines: Seq<Seq<char>>, line: Seq<char>)
    requires
        is_skipped(trim(line)),
    ensures
        records(layout, lines.push(line)) == records(layout, lines),
{
    assert(lines.push(line).drop_last() =~= lines);
}

// ── Whole-list laws ──────────────────────────────────────────────────────────

/// What every guest of a guest list in layout `layout` satisfies: at most
/// one alias (none in the name-only layout), and a name that neither starts
/// nor ends with whitespace.
pub open spec fn guest_ok(layout: LayoutView, g: GuestView) -> bool {
    &&& g.aliases.len() <= 1
    &&& layout is KeyedNameOnly ==> g.aliases.len() == 0
    &&& is_trimmed(g.name)
}

/// What every record of a layout satisfies.
pub open spec fn record_ok(layout: LayoutView, r: RecordView) -> bool {
    &&& guest_ok(layout, r.guest)
    &&& is_trimmed(r.display)
    &&& match layout {
        LayoutView::Hashed(w) => r.key == party_id_for(r.display) && r.welcome == w.contains(
            r.display,
        ),
        LayoutView::Keyed => !r.welcome && is_trimmed(r.key),
        LayoutView::KeyedNameOnly => !r.welcome && is_trimmed(r.key),
    }
}

proof fn lemma_classify_ok(layout: LayoutView, line: Seq<char>)
    ensures
        classify(layout, line) matches LineKind::Entry(r) ==> record_ok(layout, r),
{
    let t = trim(line);
    match layout {
        LayoutView::Hashed(_) => {
            let p = splitn(t, 4, ',');
            if p.len() >= 3 {
                lemma_trim(p[0]);
                lemma_trim(p[1]);
            }
        },
        LayoutView::Keyed => {
            let p = splitn(t, 4, ',');
            if p.len() >= 4 {
                lemma_trim(p[0]);
                lemma_trim(p[1]);
                lemma_trim(p[2]);
            }
        },
        LayoutView::KeyedNameOnly => {
            let p = splitn(t, 3, ',');
            if p.len() >= 3 {
                lemma_trim(p[0]);
                lemma_trim(p[1]);
                lemma_trim(p[2]);
            }
        },
    }
}

/// What every party of a guest list in layout `layout` satisfies: it is
/// stored under its id, has at least one guest, each guest has at most one
/// alias (none in the name-only layout) and a trimmed name, its display name
/// is trimmed, and in the hashed layout its id is `party_id_for` its display
/// name and it is invited to the welcome dinner exactly when its display
/// name is listed; in the other layouts its id is trimmed and it is not
/// invited.
pub open spec fn party_ok(layout: LayoutView, key: Seq<char>, p: PartyView) -> bool {
    &&& p.id == key
    &&& p.guests.len() > 0
    &&& forall|j: int| 0 <= j < p.guests.len() ==> guest_ok(layout, #[trigger] p.guests[j])
    &&& is_trimmed(p.display_name)
    &&& match layout {
        LayoutView::Hashed(w) => key == party_id_for(p.display_name) && p.welcome_dinner_invite
            == w.contains(p.display_name),
        _ => !p.welcome_dinner_invite && is_trimmed(key),
    }
}

/// The number of guests over all parties of `m`.
pub open spec fn total_guests(m: PartyMapView) -> nat
    decreases m.len(),
{
    if m.len() == 0 {
        0
    } else {
        total_guests(m.drop_last()) + m.last().1.guests.len()
    }
}

/// The number of lines that are neither blank nor a `#` comment.
pub open spec fn data_line_count(lines: Seq<Seq<char>>) -> nat
    decreases lines.len(),
{
    if lines.len() == 0 {
        0
    } else if is_skipped(trim(lines.last())) {
        data_line_count(lines.drop_last())
    } else {
        data_line_count(lines.drop_last()) + 1
    }
}

proof fn lemma_total_update(m: PartyMapView, i: int, x: (Seq<char>, PartyView))
    requires
        0 <= i < m.len(),
    ensures
        total_guests(m.update(i, x)) + m[i].1.guests.len() == total_guests(m) + x.1.guests.len(),
    decreases m.len(),
{
    if i == m.len() - 1 {
        assert(m.update(i, x).drop_last() =~= m.drop_last());
    } else {
        assert(m.update(i, x).drop_last() =~= m.drop_last().update(i, x));
        lemma_total_update(m.drop_last(), i, x);
    }
}

proof fn lemma_records_ok(layout: LayoutView, lines: Seq<Seq<char>>)
    ensures
        records(layout, lines) matches Ok(rs) ==> (forall|i: int|
            0 <= i < rs.len() ==> record_ok(layout, #[trigger] rs[i])) && (!(layout is KeyedNameOnly)
            ==> rs.len() == data_line_count(lines)),
    decreases lines.len(),
{
    if lines.len() > 0 {
        lemma_records_ok(layout, lines.drop_last());
        if let Ok(rs) = records(layout, lines) {
            let prev = records(layout, lines.drop_last())->Ok_0;
            lemma_classify_ok(layout, lines.last());
            match classify(layout, lines.last()) {
                LineKind::Entry(r) => {
                    assert(rs == prev.push(r));
                    assert forall|i: int| 0 <= i < rs.len() implies record_ok(
                        layout,
                        #[trigger] rs[i],
                    ) by {
                        if i < prev.len() {
                            assert(rs[i] == prev[i]);
                        }
                    }
                },
                _ => {},
            }
        }
    }
}

proof fn lemma_group_ok(layout: LayoutView, rs: Seq<RecordView>)
    requires
        forall|i: int| 0 <= i < rs.len() ==> record_ok(layout, #[trigger] rs[i]),
    ensures
        forall|k: int|
            0 <= k < group(rs).len() ==> party_ok(layout, #[trigger] group(rs)[k].0, group(rs)[k].1),
        total_guests(group(rs)) == rs.len(),
    decreases rs.len(),
{
    if rs.len() > 0 {
        let prev = rs.drop_last();
        let r = rs.last();
        assert(record_ok(layout, rs[rs.len() - 1]));
        assert forall|i: int| 0 <= i < prev.len() implies record_ok(layout, #[trigger] prev[i]) by {
            assert(prev[i] == rs[i]);
        }
        lemma_group_ok(layout, prev);
        let m = group(prev);
        let n = group(rs);
        lemma_key_pos(m, r.key);
        if key_pos(m, r.key) >= 0 {
            let i = key_pos(m, r.key);
            lemma_total_update(m, i, (r.key, add_guest(m[i].1, r.guest)));
            assert forall|k: int| 0 <= k < n.len() implies party_ok(
                layout,
                #[trigger] n[k].0,
                n[k].1,
            ) by {
                if k != i {
                    assert(n[k] == m[k]);
                } else {
                    assert(party_ok(layout, m[i].0, m[i].1));
                    let g = n[i].1.guests;
                    assert forall|j: int| 0 <= j < g.len() implies guest_ok(layout, #[trigger] g[j]) by {
                        if j < m[i].1.guests.len() {
                            assert(g[j] == m[i].1.guests[j]);
                        }
                    }
                }
            }
        } else {
            assert(n == m.push((r.key, add_guest(party_of(r), r.guest))));
            assert(n.drop_last() =~= m);
            assert forall|k: int| 0 <= k < n.len() implies party_ok(
                layout,
                #[trigger] n[k].0,
                n[k].1,
            ) by {
                if k < m.len() {
                    assert(n[k] == m[k]);
                } else {
                    let g = n[k].1.guests;
                    assert(g =~= seq![r.guest]);
                }
            }
        }
    }
}

/// The shape of a parsed guest list: every party is stored under its id and
/// has guests (at most one alias each); every guest name and display name is
/// trimmed (trimming it again changes nothing); in the hashed layout each id
/// is the `party_id_for` of the party's display name and the welcome-dinner
/// flag says whether that name is listed; and, outside the name-only layout,
/// the guests number exactly the data lines (those neither blank nor
/// comments).
pub proof fn lemma_parsed_guest_list(layout: LayoutView, text: Seq<char>)
    requires
        parse_csv_spec(layout, text) is Ok,
    ensures
        ({
            let m = parse_csv_spec(layout, text)->Ok_0;
            &&& forall|k: int| 0 <= k < m.len() ==> party_ok(layout, #[trigger] m[k].0, m[k].1)
            &&& forall|k: int, j: int|
                0 <= k < m.len() && 0 <= j < m[k].1.guests.len() ==> trim(
                    #[trigger] m[k].1.guests[j].name,
                ) == m[k].1.guests[j].name
            &&& forall|k: int| 0 <= k < m.len() ==> trim(#[trigger] m[k].1.display_name) == m[k].1.display_name
            &&& !(layout is KeyedNameOnly) ==> total_guests(m) == data_line_count(
                split(text, '\n'),
            )
        }),
{
    let lines = split(text, '\n');
    lemma_records_ok(layout, lines);
    let rs = records(layout, lines)->Ok_0;
    lemma_group_ok(layout, rs);
    let m = group(rs);
    assert forall|k: int, j: int|
        0 <= k < m.len() && 0 <= j < m[k].1.guests.len() implies trim(
            #[trigger] m[k].1.guests[j].name,
        ) == m[k].1.guests[j].name by {
        assert(party_ok(layout, m[k].0, m[k].1));
        assert(guest_ok(layout, m[k].1.guests[j]));
        lemma_trimmed_fixed(m[k].1.guests[j].name);
    }
    assert forall|k: int| 0 <= k < m.len() implies trim(#[trigger] m[k].1.display_name)
        == m[k].1.display_name by {
        assert(party_ok(layout, m[k].0, m[k].1));
        lemma_trimmed_fixed(m[k].1.display_name);
    }
}

/// Whether `w` holds a string equal to `s`.
fn contains_string(w: &Vec<String>, s: &String) -> (r: bool)
    ensures
        r == w.deep_view().contains(s@),
{
    let mut i: usize = 0;
    while i < w.len()
        invariant
            i <= w@.len(),
            forall|k: int| 0 <= k < i ==> w@[k]@ != s@,
        decreases w@.len() - i,
    {
        if str_equal(w[i].as_str(), s.as_str()) {
            assert(w.deep_view()[i as int] == s@);
            return true;
        }
        i = i + 1;
    }
    proof {
        if w.deep_view().contains(s@) {
            let k = choose|k: int| 0 <= k < w.deep_view().len() && w.deep_view()[k] == s@;
            assert(w@[k]@ == s@);
        }
    }
    false
}

/// What a line of a guest list is, with its record.
pub enum ParsedLine {
    Skip,
    Invalid,
    Entry(CsvRecord),
}

/// The aliases that an alias field gives: none when `field` is blank, else
/// `kept`.
fn aliases_from(field: &Vec<char>, kept: &Vec<char>) -> (r: Vec<String>)
    ensures
        r.deep_view() == aliases_of(field@, kept@),
{
    let t = trim_chars(field);
    let mut out: Vec<String> = Vec::new();
    if t.len() > 0 {
        out.push(string_from_chars(kept));
    }
    assert(out.deep_view() =~= aliases_of(field@, kept@));
    out
}

/// Classifies one line of a guest list.
pub fn classify_line(layout: &CsvLayout, line: &Vec<char>) -> (r: ParsedLine)
    ensures
        match classify(layout@, line@) {
            LineKind::Skip => r is Skip,
            LineKind::Invalid => r is Invalid,
            LineKind::Entry(v) => r matches ParsedLine::Entry(e) && e@ == v,
        },
{
    let t = trim_chars(line);
    if t.len() == 0 || t[0] == '#' {
        return ParsedLine::Skip;
    }
    match layout {
        CsvLayout::Hashed(welcome) => {
            let p = splitn_chars(&t, 4, ',');
            if p.len() < 3 {
                return ParsedLine::Invalid;
            }
            let display = string_from_chars(&trim_chars(&p[0]));
            let name = string_from_chars(&trim_chars(&p[1]));
            let alias = trim_chars(&p[2]);
            let aliases = aliases_from(&p[2], &alias);
            let key = party_id(&display);
            let invited = contains_string(welcome, &display);
            ParsedLine::Entry(
                CsvRecord {
                    key,
                    display,
                    guest: GuestEntry { name, aliases },
                    welcome: invited,
                },
            )
        },
        CsvLayout::Keyed => {
            let p = splitn_chars(&t, 4, ',');
            if p.len() < 4 {
                return ParsedLine::Invalid;
            }
            let key = string_from_chars(&trim_chars(&p[0]));
            let display = string_from_chars(&trim_chars(&p[1]));
            let name = string_from_chars(&trim_chars(&p[2]));
            let aliases = aliases_from(&p[3], &p[3]);
            ParsedLine::Entry(
                CsvRecord { key, display, guest: GuestEntry { name, aliases }, welcome: false },
            )
        },
        CsvLayout::KeyedNameOnly => {
            let p = splitn_chars(&t, 3, ',');
            if p.len() < 3 {
                return ParsedLine::Skip;
            }
            let key = string_from_chars(&trim_chars(&p[0]));
            let display = string_from_chars(&trim_chars(&p[1]));
            let name = string_from_chars(&trim_chars(&p[2]));
            let aliases: Vec<String> = Vec::new();
            assert(aliases.deep_view() =~= Seq::<Seq<char>>::empty());
            ParsedLine::Entry(
                CsvRecord { key, display, guest: GuestEntry { name, aliases }, welcome: false },
            )
        },
    }
}

/// Parses guest-list text: its parties, or the first invalid line (trimmed).
pub fn parse_csv(layout: &CsvLayout, text: &str) -> (r: Result<PartyMap, String>)
    ensures
        match parse_csv_spec(layout@, text@) {
            Ok(m) => r matches Ok(pm) && pm@ == m,
            Err(e) => r matches Err(s) && s@ == e,
        },
{
    let cs = to_chars(text);
    let lines = split_chars(&cs, '\n');
    let ghost lv = split(text@, '\n');
    assert(lines@.map_values(|l: Vec<char>| l@) =~= lv);
    let mut recs: Vec<CsvRecord> = Vec::new();
    let mut i: usize = 0;
    assert(lv.take(0) =~= Seq::<Seq<char>>::empty());
    assert(recs@.map_values(|r: CsvRecord| r@) =~= Seq::<RecordView>::empty());
    while i < lines.len()
        invariant
            i <= lines@.len(),
            lines@.len() == lv.len(),
            lv == split(text@, '\n'),
            forall|k: int| 0 <= k < lines@.len() ==> #[trigger] lines@[k]@ == lv[k],
            records(layout@, lv.take(i as int)) == Ok::<Seq<RecordView>, Seq<char>>(
                recs@.map_values(|r: CsvRecord| r@),
            ),
        decreases lines@.len() - i,
    {
        assert(lv.take(i + 1).drop_last() =~= lv.take(i as int));
        assert(lv.take(i + 1).last() == lv[i as int]);
        match classify_line(layout, &lines[i]) {
            ParsedLine::Skip => {},
            ParsedLine::Invalid => {
                let t = trim_chars(&lines[i]);
                proof {
                    assert(records(layout@, lv.take(i + 1)) == Err::<Seq<RecordView>, Seq<char>>(
                        trim(lv[i as int]),
                    ));
                    lemma_records_error_persists(layout@, lv, i + 1);
                }
                let msg = string_from_chars(&t);
                return Err(msg);
            },
            ParsedLine::Entry(rec) => {
                let ghost before = recs@.map_values(|r: CsvRecord| r@);
                recs.push(rec);
                assert(recs@.map_values(|r: CsvRecord| r@) =~= before.push(rec@));
            },
        }
        i = i + 1;
    }
    assert(lv.take(lines@.len() as int) =~= lv);
    Ok(group_records(&recs))
}

} // verus!
