use vstd::prelude::*;
use vstd::string::StringExecFns;

use crate::actions::{url, url_of, Error, Method, Reply, Request};
use crate::address::SocketAddress;

verus! {

/// What a reply to a ping says: `None` for a response with status 200 and body
/// `pong`, otherwise the message of the error that the ping ends in.
pub open spec fn ping_failure(r: Reply) -> Option<Seq<char>> {
    match r {
        Reply::Received { status, body, .. } => if status == 200 && body@ == "pong"@ {
            None
        } else {
            Some("Failed to receive pong"@)
        },
        Reply::Failed { message, .. } => Some(message@),
    }
}

/// `r` is the ping of the node at `a`: `GET http://<a>/ping`.
pub open spec fn is_ping_of(r: Request, a: SocketAddress) -> bool {
    &&& r.method == Method::Get
    &&& r.url@ == url(a, "/ping"@)
    &&& r.body@ == Seq::<char>::empty()
}

/// The ping of the node at `address`: `GET http://<address>/ping`.
pub fn request(address: &SocketAddress) -> (r: Request)
    ensures
        is_ping_of(r, *address),
{
    Request { method: Method::Get, url: url_of(address, "/ping"), body: String::new() }
}

/// The pings of each address, in order.
pub fn requests(addresses: &Vec<SocketAddress>) -> (rs: Vec<Request>)
    ensures
        rs@.len() == addresses@.len(),
        forall|i: int| 0 <= i < rs@.len() ==> is_ping_of(#[trigger] rs@[i], addresses@[i]),
{
    let mut rs: Vec<Request> = Vec::new();
    let mut i: usize = 0;
    while i < addresses.len()
        invariant
            i <= addresses@.len(),
            rs@.len() == i,
            forall|k: int| 0 <= k < i ==> is_ping_of(#[trigger] rs@[k], addresses@[k]),
        decreases addresses@.len() - i,
    {
        rs.push(request(&addresses[i]));
        i = i + 1;
    }
    rs
}

/// Judges the reply to a ping: success for status 200 with body `pong`; otherwise an
/// error, whose message is the failure's own where the request failed.
pub fn call(reply: &Reply) -> (r: Result<(), Error>)
    ensures
        match ping_failure(*reply) {
            None => r is Ok,
            Some(m) => r matches Err(e) && e.msg@ == m,
        },
{
    match reply {
        Reply::Received { status, body, .. } => {
            if *status == 200 && *body == String::from_str("pong") {
                Ok(())
            } else {
                Err(Error { msg: String::from_str("Failed to receive pong") })
            }
        },
        Reply::Failed { message, .. } => Err(Error { msg: message.clone() }),
    }
}

} // verus!
