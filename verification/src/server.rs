use vstd::prelude::*;
use vstd::string::StringExecFns;

use crate::actions::return_peers::{self, peers_text};
use crate::actions::Error;
use crate::node::Node;
use crate::text::chars_of;

verus! {

/// The endpoints of a node's HTTP server.
#[derive(Clone, Copy, Debug, PartialEq, Eq, Structural)]
pub enum Route {
    /// `GET /ping`: answers `pong`.
    Ping,
    /// `POST /connect`: announces the address in the body to the network.
    Connect,
    /// `POST /add_peer`: adds the address in the body as a peer.
    AddPeer,
    /// `GET /fetch_peers`: answers the peers as text.
    FetchPeers,
    /// `POST /whisper` (or `GET /whisper`): takes in a message.
    Whisper,
    /// Anything else.
    NotFound,
}

/// A response of the server: a status code and a body.
#[derive(Debug, PartialEq)]
pub struct Response {
    pub status: u16,
    pub body: String,
}

/// The endpoint that a request with this method and path reaches.
pub open spec fn route_of(method: Seq<char>, path: Seq<char>) -> Route {
    if method == "GET"@ && path == "/ping"@ {
        Route::Ping
    } else if method == "POST"@ && path == "/connect"@ {
        Route::Connect
    } else if method == "POST"@ && path == "/add_peer"@ {
        Route::AddPeer
    } else if method == "GET"@ && path == "/fetch_peers"@ {
        Route::FetchPeers
    } else if (method == "POST"@ || method == "GET"@) && path == "/whisper"@ {
        Route::Whisper
    } else {
        Route::NotFound
    }
}

/// Whether two strings hold the same characters.
pub fn same_text(a: &str, b: &str) -> (r: bool)
    ensures
        r == (a@ == b@),
{
    let x = chars_of(a);
    let y = chars_of(b);
    if x.len() != y.len() {
        return false;
    }
    let mut i: usize = 0;
    while i < x.len()
        invariant
            x@ == a@,
            y@ == b@,
            x@.len() == y@.len(),
            i <= x@.len(),
            forall|k: int| 0 <= k < i ==> x@[k] == y@[k],
        decreases x@.len() - i,
    {
        if x[i] != y[i] {
            return false;
        }
        i = i + 1;
    }
    assert(x@ =~= y@);
    true
}

/// The endpoint that a request with this method and path reaches.
pub fn route(method: &str, path: &str) -> (r: Route)
    ensures
        r == route_of(method@, path@),
{
    let get = same_text(method, "GET");
    let post = same_text(method, "POST");
    if get && same_text(path, "/ping") {
        Route::Ping
    } else if post && same_text(path, "/connect") {
        Route::Connect
    } else if post && same_text(path, "/add_peer") {
        Route::AddPeer
    } else if get && same_text(path, "/fetch_peers") {
        Route::FetchPeers
    } else if (post || get) && same_text(path, "/whisper") {
        Route::Whisper
    } else {
        Route::NotFound
    }
}

/// The answer to `GET /ping`: status 200 with body `pong`.
pub fn pong() -> (r: Response)
    ensures
        r.status == 200,
        r.body@ == "pong"@,
{
    Response { status: 200, body: String::from_str("pong") }
}

/// The answer to `GET /fetch_peers`: status 200 with the peers as text.
pub fn fetch_peers_response(node: &Node) -> (r: Response)
    ensures
        r.status == 200,
        r.body@ == peers_text(node.peers@),
{
    Response { status: 200, body: return_peers::call(node) }
}

/// The answer to an action: status 200 where it succeeded, 400 where it failed,
/// with an empty body.
pub fn answer(result: &Result<(), Error>) -> (r: Response)
    ensures
        r.status == (if result is Ok {
            200u16
        } else {
            400u16
        }),
        r.body@ == Seq::<char>::empty(),
{
    match result {
        Ok(()) => ok_status(),
        Err(_) => error_status(),
    }
}

/// Status 200 with an empty body.
pub fn ok_status() -> (r: Response)
    ensures
        r.status == 200,
        r.body@ == Seq::<char>::empty(),
{
    Response { status: 200, body: String::new() }
}

/// Status 400 with an empty body.
pub fn error_status() -> (r: Response)
    ensures
        r.status == 400,
        r.body@ == Seq::<char>::empty(),
{
    Response { status: 400, body: String::new() }
}

/// Status 404 with an empty body.
pub fn not_found() -> (r: Response)
    ensures
        r.status == 404,
        r.body@ == Seq::<char>::empty(),
{
    Response { status: 404, body: String::new() }
}

} // verus!
