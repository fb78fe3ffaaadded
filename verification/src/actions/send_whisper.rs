use vstd::prelude::*;
use vstd::string::StringExecFns;

use crate::actions::{failed_peers, unreachable_peers, url, url_of, Error, Method, Reply, Request};
use crate::address::address_text;
use crate::node::{remove_each, Node};

verus! {

/// The greeting that a node sends: `hello from <address>`.
pub open spec fn greeting(node: &Node) -> Seq<char> {
    "hello from "@ + address_text(node.address)
}

/// The greetings to every peer of `node`, in order of the peers:
/// `POST http://<peer>/whisper` with `hello from <address>` as the body.
pub fn requests(node: &Node) -> (rs: Vec<Request>)
    ensures
        rs@.len() == node.peers@.len(),
        forall|i: int|
            0 <= i < rs@.len() ==> {
                &&& (#[trigger] rs@[i]).method == Method::Post
                &&& rs@[i].url@ == url(node.peers@[i], "/whisper"@)
                &&& rs@[i].body@ == greeting(node)
            },
{
    let mut message = String::from_str("hello from ");
    message.append(node.address.to_string().as_str());
    let mut rs: Vec<Request> = Vec::new();
    let mut i: usize = 0;
    while i < node.peers.len()
        invariant
            i <= node.peers@.len(),
            rs@.len() == i,
            message@ == greeting(node),
            forall|k: int|
                0 <= k < i ==> {
                    &&& (#[trigger] rs@[k]).method == Method::Post
                    &&& rs@[k].url@ == url(node.peers@[k], "/whisper"@)
                    &&& rs@[k].body@ == greeting(node)
                },
        decreases node.peers@.len() - i,
    {
        rs.push(
            Request { method: Method::Post, url: url_of(&node.peers[i], "/whisper"), body: message.clone() },
        );
        i = i + 1;
    }
    rs
}

/// Takes in the replies to `requests`, one per peer in order: every peer whose reply
/// does not have status 200 is dropped. It always succeeds.
pub fn call(node: &mut Node, replies: &Vec<Reply>) -> (r: Result<(), Error>)
    requires
        replies@.len() == old(node).peers@.len(),
    ensures
        r is Ok,
        final(node).address == old(node).address,
        final(node).peers@ == remove_each(old(node).peers@, failed_peers(old(node).peers@, replies@)),
        old(node).well_formed() ==> final(node).well_formed(),
{
    let to_remove = unreachable_peers(&node.peers, replies);
    proof {
        crate::node::lemma_remove_each_well_formed(node.address, node.peers@, to_remove@);
    }
    node.remove_peers(&to_remove);
    Ok(())
}

} // verus!
