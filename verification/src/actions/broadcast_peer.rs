use vstd::prelude::*;

use crate::actions::ping::ping_failure;
use crate::actions::{add_peer, failed_peers, unreachable_peers, url, url_of, Error, Method, Reply, Request};
use crate::address::{address_text, SocketAddress};
use crate::node::{added, remove_each, Node};

verus! {

/// The announcements of a new peer to every peer of `node`, in order of the peers:
/// `POST http://<peer>/add_peer` with the new peer's address as the body.
pub fn requests(node: &Node, address: &SocketAddress) -> (rs: Vec<Request>)
    ensures
        rs@.len() == node.peers@.len(),
        forall|i: int|
            0 <= i < rs@.len() ==> {
                &&& (#[trigger] rs@[i]).method == Method::Post
                &&& rs@[i].url@ == url(node.peers@[i], "/add_peer"@)
                &&& rs@[i].body@ == address_text(*address)
            },
{
    let mut rs: Vec<Request> = Vec::new();
    let mut i: usize = 0;
    while i < node.peers.len()
        invariant
            i <= node.peers@.len(),
            rs@.len() == i,
            forall|k: int|
                0 <= k < i ==> {
                    &&& (#[trigger] rs@[k]).method == Method::Post
                    &&& rs@[k].url@ == url(node.peers@[k], "/add_peer"@)
                    &&& rs@[k].body@ == address_text(*address)
                },
        decreases node.peers@.len() - i,
    {
        rs.push(
            Request {
                method: Method::Post,
                url: url_of(&node.peers[i], "/add_peer"),
                body: address.to_string(),
            },
        );
        i = i + 1;
    }
    rs
}

/// Makes `address` known to the network: `replies` are the replies to `requests`, one
/// per peer in order, and `ping` the reply to the ping of `address`. Every peer whose
/// reply does not have status 200 is dropped; then `address` is added as `add_peer`
/// adds it, with its result.
pub fn call(node: &mut Node, address: &SocketAddress, replies: &Vec<Reply>, ping: &Reply) -> (r: Result<(), Error>)
    requires
        replies@.len() == old(node).peers@.len(),
    ensures
        final(node).address == old(node).address,
        ({
            let kept = remove_each(old(node).peers@, failed_peers(old(node).peers@, replies@));
            match ping_failure(*ping) {
                None => r is Ok && final(node).peers@ == added(old(node).address, kept, *address),
                Some(m) => r matches Err(e) && e.msg@ == m && final(node).peers@ == kept,
            }
        }),
        old(node).well_formed() ==> final(node).well_formed(),
{
    let to_remove = unreachable_peers(&node.peers, replies);
    proof {
        crate::node::lemma_remove_each_well_formed(node.address, node.peers@, to_remove@);
    }
    node.remove_peers(&to_remove);
    add_peer::call(node, address, ping)
}

} // verus!
