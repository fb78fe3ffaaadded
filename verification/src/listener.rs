use vstd::prelude::*;

use crate::address::SocketAddress;
use crate::node::{added, Node};
use crate::server::same_text;

verus! {

/// The endpoints of the plain listener.
#[derive(Clone, Copy, Debug, PartialEq, Eq, Structural)]
pub enum ListenerRoute {
    /// `GET /ping`, `POST /connect`, `GET /get_peers` and `GET /whisper`: answer `pong`.
    Pong,
    /// `POST /add_peer`: adds the address in the body as a peer, answers `ok`.
    AddPeer,
    /// `POST /echo`: answers the body.
    Echo,
    /// `POST /echo/uppercase`: answers the body with ASCII letters in upper case.
    EchoUppercase,
    /// `POST /echo/reversed`: answers the body's bytes in reverse order.
    EchoReversed,
    /// Anything else: status 404.
    NotFound,
}

/// A response of the listener: a status code and the bytes of the body.
#[derive(Debug, PartialEq)]
pub struct Answer {
    pub status: u16,
    pub body: Vec<u8>,
}

/// The status and body with which the listener answers a request to `route` whose
/// body is `body` (for `AddPeer`, once the peer has been taken in).
pub open spec fn answer_of(route: ListenerRoute, body: Seq<u8>) -> (u16, Seq<u8>) {
    match route {
        ListenerRoute::Pong => (200, seq![112u8, 111u8, 110u8, 103u8]),
        ListenerRoute::AddPeer => (200, seq![111u8, 107u8]),
        ListenerRoute::Echo => (200, body),
        ListenerRoute::EchoUppercase => (200, body.map_values(|b: u8| upper(b))),
        ListenerRoute::EchoReversed => (200, body.reverse()),
        ListenerRoute::NotFound => (404, Seq::empty()),
    }
}

/// The listener's answer to a request to `route` whose body is `body`: `pong`, `ok`,
/// the body itself, in upper case or reversed, all with status 200; or 404 with no body.
pub fn answer(route: ListenerRoute, body: &Vec<u8>) -> (r: Answer)
    ensures
        (r.status, r.body@) == answer_of(route, body@),
{
    match route {
        ListenerRoute::Pong => {
            let b = vec![112u8, 111u8, 110u8, 103u8];
            assert(b@ =~= seq![112u8, 111u8, 110u8, 103u8]);
            Answer { status: 200, body: b }
        },
        ListenerRoute::AddPeer => {
            let b = vec![111u8, 107u8];
            assert(b@ =~= seq![111u8, 107u8]);
            Answer { status: 200, body: b }
        },
        ListenerRoute::Echo => Answer { status: 200, body: body.clone() },
        ListenerRoute::EchoUppercase => Answer { status: 200, body: uppercase(body) },
        ListenerRoute::EchoReversed => Answer { status: 200, body: reversed(body) },
        ListenerRoute::NotFound => {
            let b: Vec<u8> = Vec::new();
            assert(b@ =~= Seq::<u8>::empty());
            Answer { status: 404, body: b }
        },
    }
}

/// The endpoint that a request with this method and path reaches.
pub open spec fn listener_route_of(method: Seq<char>, path: Seq<char>) -> ListenerRoute {
    if method == "GET"@ && path == "/ping"@ {
        ListenerRoute::Pong
    } else if method == "POST"@ && path == "/connect"@ {
        ListenerRoute::Pong
    } else if method == "POST"@ && path == "/add_peer"@ {
        ListenerRoute::AddPeer
    } else if method == "GET"@ && path == "/get_peers"@ {
        ListenerRoute::Pong
    } else if method == "GET"@ && path == "/whisper"@ {
        ListenerRoute::Pong
    } else if method == "POST"@ && path == "/echo"@ {
        ListenerRoute::Echo
    } else if method == "POST"@ && path == "/echo/uppercase"@ {
        ListenerRoute::EchoUppercase
    } else if method == "POST"@ && path == "/echo/reversed"@ {
        ListenerRoute::EchoReversed
    } else {
        ListenerRoute::NotFound
    }
}

/// The endpoint that a request with this method and path reaches.
pub fn route(method: &str, path: &str) -> (r: ListenerRoute)
    ensures
        r == listener_route_of(method@, path@),
{
    let get = same_text(method, "GET");
    let post = same_text(method, "POST");
    if get && same_text(path, "/ping") {
        ListenerRoute::Pong
    } else if post && same_text(path, "/connect") {
        ListenerRoute::Pong
    } else if post && same_text(path, "/add_peer") {
        ListenerRoute::AddPeer
    } else if get && same_text(path, "/get_peers") {
        ListenerRoute::Pong
    } else if get && same_text(path, "/whisper") {
        ListenerRoute::Pong
    } else if post && same_text(path, "/echo") {
        ListenerRoute::Echo
    } else if post && same_text(path, "/echo/uppercase") {
        ListenerRoute::EchoUppercase
    } else if post && same_text(path, "/echo/reversed") {
        ListenerRoute::EchoReversed
    } else {
        ListenerRoute::NotFound
    }
}

/// Adds `address` as a peer unless the node knows it already (no ping is made).
pub fn accept_peer(node: &mut Node, address: &SocketAddress)
    ensures
        final(node).address == old(node).address,
        final(node).peers@ == added(old(node).address, old(node).peers@, *address),
        old(node).well_formed() ==> final(node).well_formed(),
{
    proof {
        crate::node::lemma_added_well_formed(node.address, node.peers@, *address);
    }
    node.add_if_unknown(*address);
}

/// A byte with ASCII lower-case letters turned to upper case.
pub open spec fn upper(b: u8) -> u8 {
    if 97 <= b <= 122 {
        (b - 32) as u8
    } else {
        b
    }
}

/// The bytes with every ASCII lower-case letter turned to upper case.
pub fn uppercase(bytes: &Vec<u8>) -> (r: Vec<u8>)
    ensures
        r@ == bytes@.map_values(|b: u8| upper(b)),
{
    let mut r: Vec<u8> = Vec::new();
    let mut i: usize = 0;
    while i < bytes.len()
        invariant
            i <= bytes@.len(),
            r@ == bytes@.take(i as int).map_values(|b: u8| upper(b)),
        decreases bytes@.len() - i,
    {
        let b = bytes[i];
        let u = if 97 <= b && b <= 122 {
            b - 32
        } else {
            b
        };
        r.push(u);
        assert(r@ =~= bytes@.take(i + 1).map_values(|b: u8| upper(b)));
        i = i + 1;
    }
    assert(bytes@.take(bytes@.len() as int) =~= bytes@);
    r
}

/// The bytes in reverse order.
pub fn reversed(bytes: &Vec<u8>) -> (r: Vec<u8>)
    ensures
        r@ == bytes@.reverse(),
{
    let mut r: Vec<u8> = Vec::new();
    let mut i: usize = bytes.len();
    while i > 0
        invariant
            i <= bytes@.len(),
            r@ == bytes@.skip(i as int).reverse(),
        decreases i,
    {
        i = i - 1;
        r.push(bytes[i]);
        assert(r@ =~= bytes@.skip(i as int).reverse());
    }
    assert(bytes@.skip(0) =~= bytes@);
    r
}

} // verus!
