//! Dispatch of the RSVP API's requests.

use vstd::prelude::*;

use crate::handler::HandlerError;
use crate::text::{append_str, str_equal};

verus! {

/// What to do with a request.
#[derive(Debug)]
pub enum Route {
    /// Search parties by the given name.
    Search(String),
    /// Show the party with the given id.
    GetParty(String),
    /// Store the answers in the request body.
    PutRsvp,
    /// Answer with the given status and message.
    Reject(i64, String),
}

/// What a `Route` holds, as character sequences.
pub enum RouteView {
    Search(Seq<char>),
    GetParty(Seq<char>),
    PutRsvp,
    Reject(i64, Seq<char>),
}

impl View for Route {
    type V = RouteView;

    open spec fn view(&self) -> RouteView {
        match self {
            Route::Search(q) => RouteView::Search(q@),
            Route::GetParty(p) => RouteView::GetParty(p@),
            Route::PutRsvp => RouteView::PutRsvp,
            Route::Reject(s, m) => RouteView::Reject(*s, m@),
        }
    }
}

/// The route of a request with route key `route_key` and the query
/// parameters `search` and `party_id`.
pub open spec fn route_spec(
    route_key: Seq<char>,
    search: Option<Seq<char>>,
    party_id: Option<Seq<char>>,
) -> RouteView {
    if route_key == "GET /rsvp"@ {
        match (search, party_id) {
            (Some(q), _) => RouteView::Search(q),
            (None, Some(p)) => RouteView::GetParty(p),
            (None, None) => RouteView::Reject(
                400,
                "expected 'search' or 'party_id' query parameter"@,
            ),
        }
    } else if route_key == "PUT /rsvp"@ {
        RouteView::PutRsvp
    } else {
        RouteView::Reject(400, "unknown route"@)
    }
}

/// How requests are dispatched: a `GET /rsvp` carrying a `search` parameter
/// is a search for it, whether or not `party_id` is also given; one carrying
/// only `party_id` shows that party; one carrying neither is refused with 400;
/// every `PUT /rsvp` submits answers; any other route key is refused with
/// 400 as an unknown route.
pub proof fn lemma_route_dispatch(
    route_key: Seq<char>,
    search: Option<Seq<char>>,
    party_id: Option<Seq<char>>,
)
    ensures
        route_key == "GET /rsvp"@ && search is Some ==> route_spec(route_key, search, party_id)
            == RouteView::Search(search->0),
        route_key == "GET /rsvp"@ && search is None && party_id is Some ==> route_spec(
            route_key,
            search,
            party_id,
        ) == RouteView::GetParty(party_id->0),
        route_key == "GET /rsvp"@ && search is None && party_id is None ==> route_spec(
            route_key,
            search,
            party_id,
        ) == RouteView::Reject(400, "expected 'search' or 'party_id' query parameter"@),
        route_key == "PUT /rsvp"@ ==> route_spec(route_key, search, party_id) == RouteView::PutRsvp,
        route_key != "GET /rsvp"@ && route_key != "PUT /rsvp"@ ==> route_spec(
            route_key,
            search,
            party_id,
        ) == RouteView::Reject(400, "unknown route"@),
{
    reveal_strlit("GET /rsvp");
    reveal_strlit("PUT /rsvp");
    if route_key == "PUT /rsvp"@ {
        assert(route_key[0] != "GET /rsvp"@[0]);
    }
}

fn owned(s: &str) -> (r: String)
    ensures
        r@ == s@,
{
    let mut out = String::new();
    append_str(&mut out, s);
    assert(out@ =~= s@);
    out
}

/// Decides what to do with a request from its route key and its `search`
/// and `party_id` query parameters; `search` wins when both are given.
pub fn route(route_key: &str, search: Option<&str>, party_id: Option<&str>) -> (r: Route)
    ensures
        r@ == route_spec(
            route_key@,
            match search {
                Some(q) => Some(q@),
                None => None,
            },
            match party_id {
                Some(p) => Some(p@),
                None => None,
            },
        ),
{
    if str_equal(route_key, "GET /rsvp") {
        match search {
            Some(q) => Route::Search(owned(q)),
            None => match party_id {
                Some(p) => Route::GetParty(owned(p)),
                None => Route::Reject(400, owned("expected 'search' or 'party_id' query parameter")),
            },
        }
    } else if str_equal(route_key, "PUT /rsvp") {
        Route::PutRsvp
    } else {
        Route::Reject(400, owned("unknown route"))
    }
}

/// The answer to a failed submission: the error's status and its bare
/// message.
pub fn submission_error(e: &HandlerError) -> (r: (i64, String))
    ensures
        r.0 == match e {
            HandlerError::NotFound(_) => 404i64,
            HandlerError::BadRequest(_) => 400i64,
            HandlerError::Internal(_) => 500i64,
        },
        r.1@ == match e {
            HandlerError::NotFound(m) => m@,
            HandlerError::BadRequest(m) => m@,
            HandlerError::Internal(m) => m@,
        },
{
    match e {
        HandlerError::NotFound(m) => (404, m.clone()),
        HandlerError::BadRequest(m) => (400, m.clone()),
        HandlerError::Internal(m) => (500, m.clone()),
    }
}

} // verus!
