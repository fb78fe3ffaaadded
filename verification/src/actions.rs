use vstd::prelude::*;
use vstd::string::StringExecFns;

use crate::address::{address_text, SocketAddress};

pub mod add_peer;
pub mod broadcast_peer;
pub mod connect;
pub mod ping;
pub mod return_peers;
pub mod send_whisper;
pub mod sync_peers;

verus! {

/// The failure of an action, with a message that says why.
#[derive(Debug, PartialEq)]
pub struct Error {
    pub msg: String,
}

/// The HTTP method of a request to a peer.
#[derive(Clone, Copy, Debug, PartialEq, Eq, Structural)]
pub enum Method {
    Get,
    Post,
}

/// A request that a node sends to a peer.
#[derive(Debug, PartialEq)]
pub struct Request {
    pub method: Method,
    pub url: String,
    pub body: String,
}

/// What came back of a request: a response with its status code, its body and
/// a description of the whole response, or a failure with the error's message
/// and a description of the error.
#[derive(Debug, PartialEq)]
pub enum Reply {
    Received { status: u16, body: String, detail: String },
    Failed { message: String, detail: String },
}

/// The URL of `path` on the node at `a`.
pub open spec fn url(a: SocketAddress, path: Seq<char>) -> Seq<char> {
    "http://"@ + address_text(a) + path
}

/// A reply with status 200.
pub open spec fn replied_ok(r: Reply) -> bool {
    r matches Reply::Received { status, .. } && status == 200
}

/// The description that a reply carries.
pub open spec fn detail_of(r: Reply) -> Seq<char> {
    match r {
        Reply::Received { detail, .. } => detail@,
        Reply::Failed { detail, .. } => detail@,
    }
}

/// The peers whose replies do not have status 200, in order.
pub open spec fn failed_peers(peers: Seq<SocketAddress>, replies: Seq<Reply>) -> Seq<SocketAddress>
    decreases peers.len(),
{
    if peers.len() == 0 || replies.len() == 0 {
        Seq::empty()
    } else {
        let rest = failed_peers(peers.drop_last(), replies.drop_last());
        if replied_ok(replies.last()) {
            rest
        } else {
            rest.push(peers.last())
        }
    }
}

/// The URL of `path` on the node at `a`.
pub fn url_of(a: &SocketAddress, path: &str) -> (r: String)
    ensures
        r@ == url(*a, path@),
{
    let mut s = String::from_str("http://");
    s.append(a.to_string().as_str());
    s.append(path);
    s
}

/// Whether a reply has status 200.
pub fn is_ok_reply(r: &Reply) -> (b: bool)
    ensures
        b == replied_ok(*r),
{
    match r {
        Reply::Received { status, .. } => *status == 200,
        Reply::Failed { .. } => false,
    }
}

/// The peers whose replies do not have status 200, in order.
pub fn unreachable_peers(peers: &Vec<SocketAddress>, replies: &Vec<Reply>) -> (r: Vec<SocketAddress>)
    requires
        replies@.len() == peers@.len(),
    ensures
        r@ == failed_peers(peers@, replies@),
{
    let mut r: Vec<SocketAddress> = Vec::new();
    let mut i: usize = 0;
    while i < peers.len()
        invariant
            replies@.len() == peers@.len(),
            i <= peers@.len(),
            r@ == failed_peers(peers@.take(i as int), replies@.take(i as int)),
        decreases peers@.len() - i,
    {
        assert(peers@.take(i + 1).drop_last() =~= peers@.take(i as int));
        assert(replies@.take(i + 1).drop_last() =~= replies@.take(i as int));
        if !is_ok_reply(&replies[i]) {
            r.push(peers[i]);
        }
        i = i + 1;
    }
    assert(peers@.take(peers@.len() as int) =~= peers@);
    assert(replies@.take(replies@.len() as int) =~= replies@);
    r
}

} // verus!
