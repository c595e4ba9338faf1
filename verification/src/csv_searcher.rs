//! The name searcher over the embedded guest list, whose lines name their
//! party ids (`party_id,display_name,guest_name,alias`).

use vstd::prelude::*;

use crate::csv::{
    classify, lemma_parsed_guest_list, parse_csv, parse_csv_spec, party_ok, records, CsvLayout,
    LayoutView, LineKind,
};
use crate::guest_list::{lookup, PartyEntry, PartyMap, PartyMapView, PartyView};
use crate::name_searcher::{map_parties, NameSimilaritySearcher};
use crate::text::split;

verus! {

/// Searches a guest list loaded from the embedded CSV.
pub struct CsvNameSearcher {
    map: PartyMap,
}

impl CsvNameSearcher {
    /// Construct a searcher from an existing map (useful for tests).
    pub fn new(map: PartyMap) -> (r: Self)
        ensures
            r.candidates() == map_parties(map@),
            forall|id: Seq<char>| r.party(id) == lookup(map@, id),
    {
        Self { map }
    }

    /// Whether every line of `csv` that is neither blank nor a comment has
    /// the four fields `party_id,display_name,guest_name,alias`, so that
    /// `load_csv` accepts it.
    pub fn csv_is_valid(csv: &str) -> (r: bool)
        ensures
            r == parse_csv_spec(LayoutView::Keyed, csv@) is Ok,
    {
        parse_csv(&CsvLayout::Keyed, csv).is_ok()
    }

    /// The parties of the embedded guest list `csv`, in the
    /// `party_id,display_name,guest_name,alias` layout.  A line that is
    /// neither blank nor a comment and has fewer than four fields makes the
    /// guest list invalid; such a list is not loaded (see `csv_is_valid`).
    pub fn load_csv(csv: &str) -> (r: PartyMap)
        requires
            parse_csv_spec(LayoutView::Keyed, csv@) is Ok,
        ensures
            parse_csv_spec(LayoutView::Keyed, csv@) == Ok::<PartyMapView, Seq<char>>(r@),
            forall|k: int| 0 <= k < r@.len() ==> party_ok(LayoutView::Keyed, #[trigger] r@[k].0, r@[k].1),
    {
        proof {
            lemma_parsed_guest_list(LayoutView::Keyed, csv@);
        }
        match parse_csv(&CsvLayout::Keyed, csv) {
            Ok(m) => m,
            Err(_) => PartyMap::new(),
        }
    }
}

impl NameSimilaritySearcher for CsvNameSearcher {
    closed spec fn candidates(&self) -> Seq<PartyView> {
        map_parties(self.map@)
    }

    closed spec fn party(&self, party_id: Seq<char>) -> Option<PartyView> {
        lookup(self.map@, party_id)
    }

    fn parties_to_score(&self) -> (r: Vec<&PartyEntry>) {
        self.map.values()
    }

    fn get_party(&self, party_id: &str) -> (r: Option<&PartyEntry>) {
        self.map.get(party_id)
    }
}

impl Clone for CsvNameSearcher {
    fn clone(&self) -> (r: Self)
        ensures
            r.candidates() == self.candidates(),
            forall|id: Seq<char>| r.party(id) == self.party(id),
    {
        CsvNameSearcher { map: self.map.clone() }
    }
}

/// In the `party_id,display_name,guest_name` layout no line is invalid.
pub proof fn lemma_name_only_never_fails(lines: Seq<Seq<char>>)
    ensures
        records(LayoutView::KeyedNameOnly, lines) is Ok,
    decreases lines.len(),
{
    if lines.len() > 0 {
        lemma_name_only_never_fails(lines.drop_last());
        assert(!(classify(LayoutView::KeyedNameOnly, lines.last()) is Invalid));
    }
}

/// The parties of a guest list in the `party_id,display_name,guest_name`
/// layout, where the guest name is the rest of the line; lines with fewer
/// than three fields are skipped.
pub fn guest_list(csv: &str) -> (r: PartyMap)
    ensures
        parse_csv_spec(LayoutView::KeyedNameOnly, csv@) == Ok::<PartyMapView, Seq<char>>(r@),
        forall|k: int|
            0 <= k < r@.len() ==> party_ok(LayoutView::KeyedNameOnly, #[trigger] r@[k].0, r@[k].1),
{
    proof {
        lemma_name_only_never_fails(split(csv@, '\n'));
        lemma_parsed_guest_list(LayoutView::KeyedNameOnly, csv@);
    }
    match parse_csv(&CsvLayout::KeyedNameOnly, csv) {
        Ok(m) => m,
        Err(_) => PartyMap::new(),
    }
}

} // verus!
