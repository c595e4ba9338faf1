//! Guests, parties, and the keyed collection of parties that backs every
//! guest list.

use vstd::prelude::*;

use crate::csv::{parse_csv, parse_csv_spec, CsvLayout, LayoutView};
use crate::text::{split, split_chars, str_equal, string_from_chars, to_chars};

verus! {

// ── Data types ───────────────────────────────────────────────────────────────

/// One invited guest and the other names they may be searched by.
#[derive(Debug)]
pub struct GuestEntry {
    pub name: String,
    pub aliases: Vec<String>,
}

/// What a `GuestEntry` holds, as character sequences.
pub struct GuestView {
    pub name: Seq<char>,
    pub aliases: Seq<Seq<char>>,
}

impl View for GuestEntry {
    type V = GuestView;

    open spec fn view(&self) -> GuestView {
        GuestView { name: self.name@, aliases: self.aliases.deep_view() }
    }
}

/// A party: the group of guests who answer one invitation together.
#[derive(Debug)]
pub struct PartyEntry {
    pub id: String,
    pub display_name: String,
    pub guests: Vec<GuestEntry>,
    pub welcome_dinner_invite: bool,
}

/// What a `PartyEntry` holds, as character sequences.
pub struct PartyView {
    pub id: Seq<char>,
    pub display_name: Seq<char>,
    pub guests: Seq<GuestView>,
    pub welcome_dinner_invite: bool,
}

/// The views of a sequence of guests.
pub open spec fn guest_views(gs: Seq<GuestEntry>) -> Seq<GuestView> {
    gs.map_values(|g: GuestEntry| g@)
}

impl View for PartyEntry {
    type V = PartyView;

    open spec fn view(&self) -> PartyView {
        PartyView {
            id: self.id@,
            display_name: self.display_name@,
            guests: guest_views(self.guests@),
            welcome_dinner_invite: self.welcome_dinner_invite,
        }
    }
}

/// A copy of a list of strings.
pub fn clone_strings(v: &Vec<String>) -> (r: Vec<String>)
    ensures
        r.deep_view() == v.deep_view(),
{
    let mut out: Vec<String> = Vec::new();
    let mut i: usize = 0;
    while i < v.len()
        invariant
            i <= v@.len(),
            out@.len() == i,
            forall|k: int| 0 <= k < i ==> #[trigger] out@[k]@ == v@[k]@,
        decreases v@.len() - i,
    {
        out.push(v[i].clone());
        i = i + 1;
    }
    assert(out.deep_view() =~= v.deep_view());
    out
}

impl Clone for GuestEntry {
    fn clone(&self) -> (r: Self)
        ensures
            r@ == self@,
    {
        GuestEntry { name: self.name.clone(), aliases: clone_strings(&self.aliases) }
    }
}

impl Clone for PartyEntry {
    fn clone(&self) -> (r: Self)
        ensures
            r@ == self@,
    {
        let mut guests: Vec<GuestEntry> = Vec::new();
        let mut i: usize = 0;
        while i < self.guests.len()
            invariant
                i <= self.guests@.len(),
                guests@.len() == i,
                forall|k: int| 0 <= k < i ==> #[trigger] guests@[k]@ == self.guests@[k]@,
            decreases self.guests@.len() - i,
        {
            guests.push(self.guests[i].clone());
            i = i + 1;
        }
        assert(guest_views(guests@) =~= guest_views(self.guests@));
        PartyEntry {
            id: self.id.clone(),
            display_name: self.display_name.clone(),
            guests,
            welcome_dinner_invite: self.welcome_dinner_invite,
        }
    }
}

/// `p` with `g` added after its other guests.
pub open spec fn add_guest(p: PartyView, g: GuestView) -> PartyView {
    PartyView { guests: p.guests.push(g), ..p }
}

// ── Keyed collection of parties ──────────────────────────────────────────────

/// The abstract content of a `PartyMap`: its entries in storage order.
pub type PartyMapView = Seq<(Seq<char>, PartyView)>;

/// Position of the first entry of `m` at or after `from` whose key is `key`,
/// or -1.
pub open spec fn key_pos_from(m: PartyMapView, key: Seq<char>, from: int) -> int
    decreases m.len() - from,
{
    if from < 0 || from >= m.len() {
        -1
    } else if m[from].0 == key {
        from
    } else {
        key_pos_from(m, key, from + 1)
    }
}

/// Position of the entry of `m` whose key is `key`, or -1.
pub open spec fn key_pos(m: PartyMapView, key: Seq<char>) -> int {
    key_pos_from(m, key, 0)
}

/// The party stored under `key`.
pub open spec fn lookup(m: PartyMapView, key: Seq<char>) -> Option<PartyView> {
    if key_pos(m, key) >= 0 {
        Some(m[key_pos(m, key)].1)
    } else {
        None
    }
}

/// No key occurs twice.
pub open spec fn keys_distinct(m: PartyMapView) -> bool {
    forall|i: int, j: int| 0 <= i < j < m.len() ==> m[i].0 != m[j].0
}

/// `HashMap::insert`: replaces the party under `key`, or adds an entry.
pub open spec fn map_insert(m: PartyMapView, key: Seq<char>, party: PartyView) -> PartyMapView {
    if key_pos(m, key) >= 0 {
        m.update(key_pos(m, key), (key, party))
    } else {
        m.push((key, party))
    }
}

proof fn lemma_key_pos_from(m: PartyMapView, key: Seq<char>, from: int)
    requires
        0 <= from,
    ensures
        key_pos_from(m, key, from) == -1 || (from <= key_pos_from(m, key, from) < m.len()
            && m[key_pos_from(m, key, from)].0 == key),
        key_pos_from(m, key, from) == -1 ==> forall|k: int|
            from <= k < m.len() ==> m[k].0 != key,
        forall|k: int|
            from <= k < key_pos_from(m, key, from) ==> m[k].0 != key,
    decreases m.len() - from,
{
    if from < m.len() && m[from].0 != key {
        lemma_key_pos_from(m, key, from + 1);
    }
}

/// `key_pos` is the unique index holding `key`, when keys are distinct.
pub proof fn lemma_key_pos(m: PartyMapView, key: Seq<char>)
    ensures
        key_pos(m, key) == -1 <==> forall|k: int| 0 <= k < m.len() ==> m[k].0 != key,
        key_pos(m, key) != -1 ==> 0 <= key_pos(m, key) < m.len() && m[key_pos(m, key)].0 == key,
        keys_distinct(m) ==> forall|k: int|
            0 <= k < m.len() && m[k].0 == key ==> k == key_pos(m, key),
{
    lemma_key_pos_from(m, key, 0);
}

/// After `insert`, the key holds the inserted party, every other key holds
/// what it held, and no key is held twice.
pub proof fn lemma_insert_then_lookup(m: PartyMapView, k: Seq<char>, v: PartyView, key: Seq<char>)
    requires
        keys_distinct(m),
    ensures
        keys_distinct(map_insert(m, k, v)),
        lookup(map_insert(m, k, v), k) == Some(v),
        key != k ==> lookup(map_insert(m, k, v), key) == lookup(m, key),
{
    let n = map_insert(m, k, v);
    lemma_key_pos(m, k);
    lemma_key_pos(m, key);
    lemma_key_pos(n, key);
    lemma_key_pos(n, k);
    if key_pos(m, k) >= 0 {
        let i = key_pos(m, k);
        assert forall|a: int, b: int| 0 <= a < b < n.len() implies n[a].0 != n[b].0 by {
            assert(n[a].0 == m[a].0 && n[b].0 == m[b].0);
        }
        assert(n[i].0 == k);
        if key != k {
            if key_pos(m, key) >= 0 {
                assert(n[key_pos(m, key)].0 == key);
            } else {
                assert forall|j: int| 0 <= j < n.len() implies n[j].0 != key by {
                    assert(n[j].0 == m[j].0);
                }
            }
        }
    } else {
        assert forall|a: int, b: int| 0 <= a < b < n.len() implies n[a].0 != n[b].0 by {
            if b < m.len() {
                assert(n[a] == m[a] && n[b] == m[b]);
            } else {
                assert(n[a] == m[a]);
            }
        }
        assert(n[m.len() as int].0 == k);
        if key != k {
            if key_pos(m, key) >= 0 {
                assert(n[key_pos(m, key)] == m[key_pos(m, key)]);
            } else {
                assert forall|j: int| 0 <= j < n.len() implies n[j].0 != key by {
                    if j < m.len() {
                        assert(n[j] == m[j]);
                    }
                }
            }
        }
    }
}

/// A collection of parties keyed by string, each key held once; it stands
/// where a `HashMap<String, PartyEntry>` would.
pub struct PartyMap {
    entries: Vec<(String, PartyEntry)>,
}

impl View for PartyMap {
    type V = PartyMapView;

    closed spec fn view(&self) -> PartyMapView {
        self.entries@.map_values(|e: (String, PartyEntry)| (e.0@, e.1@))
    }
}

impl PartyMap {
    #[verifier::type_invariant]
    closed spec fn inv(&self) -> bool {
        keys_distinct(self@)
    }

    /// An empty map.
    pub fn new() -> (r: PartyMap)
        ensures
            r@ == Seq::<(Seq<char>, PartyView)>::empty(),
            keys_distinct(r@),
    {
        let r = PartyMap { entries: Vec::new() };
        assert(r@ =~= Seq::<(Seq<char>, PartyView)>::empty());
        r
    }

    /// Number of entries.
    pub fn len(&self) -> (r: usize)
        ensures
            r == self@.len(),
    {
        self.entries.len()
    }

    /// Position of `key`, or `self@.len()` when absent.
    fn position(&self, key: &str) -> (r: usize)
        ensures
            key_pos(self@, key@) == -1 ==> r == self@.len(),
            key_pos(self@, key@) != -1 ==> r == key_pos(self@, key@),
    {
        let mut i: usize = 0;
        while i < self.entries.len()
            invariant
                i <= self.entries@.len(),
                key_pos(self@, key@) == key_pos_from(self@, key@, i as int),
            decreases self.entries@.len() - i,
        {
            if str_equal(self.entries[i].0.as_str(), key) {
                return i;
            }
            i = i + 1;
        }
        i
    }

    /// `HashMap::get`: the party stored under `key`.
    pub fn get(&self, key: &str) -> (r: Option<&PartyEntry>)
        ensures
            match r {
                Some(p) => lookup(self@, key@) == Some(p@),
                None => lookup(self@, key@) is None,
            },
    {
        proof {
            lemma_key_pos(self@, key@);
        }
        let i = self.position(key);
        if i < self.entries.len() {
            assert(self@[i as int].1 == self.entries@[i as int].1@);
            Some(&self.entries[i].1)
        } else {
            None
        }
    }

    /// `HashMap::insert`: stores `party` under `key`, replacing any party
    /// already stored there.
    pub fn insert(&mut self, key: String, party: PartyEntry)
        ensures
            final(self)@ == map_insert(old(self)@, key@, party@),
            keys_distinct(final(self)@),
    {
        proof {
            use_type_invariant(&*self);
            lemma_key_pos(self@, key@);
        }
        let i = self.position(key.as_str());
        let ghost m = self@;
        let mut entries = Vec::new();
        std::mem::swap(&mut entries, &mut self.entries);
        if i < entries.len() {
            entries.set(i, (key, party));
        } else {
            entries.push((key, party));
        }
        let ghost next = entries@.map_values(|e: (String, PartyEntry)| (e.0@, e.1@));
        assert(next =~= map_insert(m, key@, party@));
        assert(keys_distinct(next));
        self.entries = entries;
    }

    /// `HashMap::values`: the stored parties, in storage order.
    pub fn values(&self) -> (r: Vec<&PartyEntry>)
        ensures
            keys_distinct(self@),
            r@.len() == self@.len(),
            forall|k: int| 0 <= k < r@.len() ==> #[trigger] r@[k]@ == self@[k].1,
    {
        proof {
            use_type_invariant(self);
        }
        let mut out: Vec<&PartyEntry> = Vec::new();
        let mut i: usize = 0;
        while i < self.entries.len()
            invariant
                i <= self.entries@.len(),
                out@.len() == i,
                forall|k: int| 0 <= k < i ==> #[trigger] out@[k]@ == self@[k].1,
            decreases self.entries@.len() - i,
        {
            out.push(&self.entries[i].1);
            i = i + 1;
        }
        out
    }
}

impl PartyMap {
    /// Adds `guest` to the party under `key`; when there is none, first
    /// stores `party` under `key`.  This is `map.entry(key).or_insert(party)`
    /// followed by a push of the guest.
    pub fn push_guest(&mut self, key: String, party: PartyEntry, guest: GuestEntry)
        ensures
            final(self)@ == push_guest_spec(old(self)@, key@, party@, guest@),
            keys_distinct(final(self)@),
    {
        proof {
            use_type_invariant(&*self);
            lemma_key_pos(self@, key@);
        }
        let i = self.position(key.as_str());
        let ghost m = self@;
        let mut entries = Vec::new();
        std::mem::swap(&mut entries, &mut self.entries);
        if i < entries.len() {
            let (k, mut p) = entries.remove(i);
            p.guests.push(guest);
            assert(guest_views(p.guests@) =~= m[i as int].1.guests.push(guest@));
            entries.insert(i, (k, p));
        } else {
            let mut p = party;
            p.guests.push(guest);
            assert(guest_views(p.guests@) =~= party@.guests.push(guest@));
            entries.push((key, p));
        }
        let ghost next = entries@.map_values(|e: (String, PartyEntry)| (e.0@, e.1@));
        assert(next =~= push_guest_spec(m, key@, party@, guest@));
        assert(keys_distinct(next));
        self.entries = entries;
    }
}

/// The map after `push_guest`.
pub open spec fn push_guest_spec(m: PartyMapView, key: Seq<char>, party: PartyView, guest: GuestView) -> PartyMapView {
    if key_pos(m, key) >= 0 {
        m.update(key_pos(m, key), (key, add_guest(m[key_pos(m, key)].1, guest)))
    } else {
        m.push((key, add_guest(party, guest)))
    }
}

impl Clone for PartyMap {
    fn clone(&self) -> (r: Self)
        ensures
            r@ == self@,
    {
        proof {
            use_type_invariant(self);
        }
        let mut entries: Vec<(String, PartyEntry)> = Vec::new();
        let mut i: usize = 0;
        while i < self.entries.len()
            invariant
                i <= self.entries@.len(),
                entries@.len() == i,
                forall|k: int|
                    0 <= k < i ==> (#[trigger] entries@[k]).0@ == self.entries@[k].0@
                        && entries@[k].1@ == self.entries@[k].1@,
            decreases self.entries@.len() - i,
        {
            entries.push((self.entries[i].0.clone(), self.entries[i].1.clone()));
            i = i + 1;
        }
        assert(entries@.map_values(|e: (String, PartyEntry)| (e.0@, e.1@)) =~= self@);
        PartyMap { entries }
    }
}

// ── Guest lists ──────────────────────────────────────────────────────────────

/// Read-only interface over the backing guest data store.
pub trait GuestList {
    /// The parties of the list, keyed by party id, in the order that
    /// `all_parties` lists them.
    spec fn parties(&self) -> PartyMapView;

    /// The party stored under `party_id`.
    fn get_party(&self, party_id: &str) -> (r: Option<&PartyEntry>)
        ensures
            match r {
                Some(p) => lookup(self.parties(), party_id@) == Some(p@),
                None => lookup(self.parties(), party_id@) is None,
            },
    ;

    /// Every party of the list.
    fn all_parties(&self) -> (r: Vec<&PartyEntry>)
        ensures
            r@.len() == self.parties().len(),
            forall|k: int| 0 <= k < r@.len() ==> #[trigger] r@[k]@ == self.parties()[k].1,
    ;
}

impl<T: GuestList> GuestList for &T {
    open spec fn parties(&self) -> PartyMapView {
        (**self).parties()
    }

    fn get_party(&self, party_id: &str) -> (r: Option<&PartyEntry>) {
        (**self).get_party(party_id)
    }

    fn all_parties(&self) -> (r: Vec<&PartyEntry>) {
        (**self).all_parties()
    }
}

/// Builds guest lists.
pub trait GuestListFactory<G: GuestList> {
    fn build(&self) -> G;
}

/// A guest list held in memory.
pub struct MapGuestList {
    map: PartyMap,
}

impl View for MapGuestList {
    type V = PartyMapView;

    closed spec fn view(&self) -> PartyMapView {
        self.map@
    }
}

impl MapGuestList {
    /// Construct from an existing map (useful for tests).
    pub fn new(map: PartyMap) -> (r: Self)
        ensures
            r@ == map@,
            r.parties() == map@,
    {
        Self { map }
    }
}

impl GuestList for MapGuestList {
    closed spec fn parties(&self) -> PartyMapView {
        self.map@
    }

    fn get_party(&self, party_id: &str) -> (r: Option<&PartyEntry>) {
        self.map.get(party_id)
    }

    fn all_parties(&self) -> (r: Vec<&PartyEntry>) {
        self.map.values()
    }
}

impl Clone for MapGuestList {
    fn clone(&self) -> (r: Self)
        ensures
            r@ == self@,
    {
        MapGuestList { map: self.map.clone() }
    }
}

// ── The hashed guest-list file ───────────────────────────────────────────────

/// A guest list that could not be parsed.
#[derive(Debug)]
pub enum ParseCsvError {
    /// The offending line, trimmed.
    InvalidCsvError(String),
}

impl ParseCsvError {
    /// The error's description: `Found invalid CSV when parsing <line>`.
    pub fn message(&self) -> (r: String)
        ensures
            r@ == "Found invalid CSV when parsing "@ + match self {
                ParseCsvError::InvalidCsvError(line) => line@,
            },
    {
        let mut out = String::new();
        crate::text::append_str(&mut out, "Found invalid CSV when parsing ");
        match self {
            ParseCsvError::InvalidCsvError(line) => crate::text::append_str(&mut out, line.as_str()),
        }
        out
    }
}

/// Parses a guest list of the format `party_display_name,guest_name,guest_alias`;
/// a party is invited to the welcome dinner when its display name is one of
/// `welcome_party_list`.
pub fn parse_guest_csv(guest_csv_str: String, welcome_party_list: &Vec<String>) -> (r: Result<
    PartyMap,
    ParseCsvError,
>)
    ensures
        match parse_csv_spec(LayoutView::Hashed(welcome_party_list.deep_view()), guest_csv_str@) {
            Ok(m) => r matches Ok(pm) && pm@ == m,
            Err(line) => r matches Err(ParseCsvError::InvalidCsvError(l)) && l@ == line,
        },
{
    let layout = CsvLayout::Hashed(crate::guest_list::clone_strings(welcome_party_list));
    match parse_csv(&layout, guest_csv_str.as_str()) {
        Ok(m) => Ok(m),
        Err(line) => Err(ParseCsvError::InvalidCsvError(line)),
    }
}

/// `text.split('\n').map(String::from).collect()`.
pub fn split_lines(text: &String) -> (r: Vec<String>)
    ensures
        r.deep_view() == split(text@, '\n'),
{
    let cs = to_chars(text.as_str());
    let pieces = split_chars(&cs, '\n');
    let mut out: Vec<String> = Vec::new();
    let mut i: usize = 0;
    while i < pieces.len()
        invariant
            i <= pieces@.len(),
            out@.len() == i,
            pieces@.len() == split(text@, '\n').len(),
            forall|k: int| 0 <= k < pieces@.len() ==> #[trigger] pieces@[k]@ == split(text@, '\n')[k],
            forall|k: int| 0 <= k < i ==> #[trigger] out@[k]@ == pieces@[k]@,
        decreases pieces@.len() - i,
    {
        out.push(string_from_chars(&pieces[i]));
        i = i + 1;
    }
    assert(out.deep_view() =~= split(text@, '\n'));
    out
}

/// Guest list factory for the guest list stored in S3: it holds the parties
/// parsed from the guest-list object and the welcome-dinner object.
pub struct S3GuestListFactory {
    map: PartyMap,
}

impl View for S3GuestListFactory {
    type V = PartyMapView;

    closed spec fn view(&self) -> PartyMapView {
        self.map@
    }
}

impl S3GuestListFactory {
    /// Parses the guest-list object (`guest_list`) with the lines of the
    /// welcome-dinner object (`welcome_dinner`) as the welcome-dinner list.
    pub fn new(guest_list: String, welcome_dinner: String) -> (r: Result<
        S3GuestListFactory,
        ParseCsvError,
    >)
        ensures
            match parse_csv_spec(
                LayoutView::Hashed(split(welcome_dinner@, '\n')),
                guest_list@,
            ) {
                Ok(m) => r matches Ok(f) && f@ == m,
                Err(line) => r matches Err(ParseCsvError::InvalidCsvError(l)) && l@ == line,
            },
    {
        let welcome = split_lines(&welcome_dinner);
        match parse_guest_csv(guest_list, &welcome) {
            Ok(map) => Ok(S3GuestListFactory { map }),
            Err(e) => Err(e),
        }
    }
}

impl GuestListFactory<MapGuestList> for S3GuestListFactory {
    fn build(&self) -> (r: MapGuestList)
        ensures
            r@ == self@,
            r.parties() == self@,
    {
        MapGuestList::new(self.map.clone())
    }
}

} // verus!
