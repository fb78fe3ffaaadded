use vstd::prelude::*;
use vstd::string::StringExecFns;

use crate::actions::ping::{self, is_ping_of, ping_failure};
use crate::actions::sync_peers::{self, add_each, fetched, is_fetch_of};
use crate::actions::{add_peer, detail_of, failed_peers, is_ok_reply, replied_ok, url, url_of, Error, Method, Reply, Request};
use crate::address::{address_text, SocketAddress};
use crate::node::{added, remove_each, Node};

verus! {

/// Where the joining of the network through a bootnode stands: what the node waits for.
pub enum Connect {
    /// The reply of the bootnode to `POST /connect`.
    AwaitingConnect { bootnode: SocketAddress },
    /// The reply to the ping of the bootnode.
    AwaitingPing { bootnode: SocketAddress },
    /// The replies of the peers to the requests for their peers.
    AwaitingPeers,
    /// The replies to the pings of the addresses that the peers brought.
    AwaitingPings { found: Vec<SocketAddress> },
    /// Nothing: the joining has ended.
    Finished,
}

/// What the node does next: send requests and resume with their replies, in order,
/// or stop with the joining's result.
pub enum Step {
    Send(Vec<Request>),
    Done(Result<(), Error>),
}

/// The message of a refused or failed connection to the bootnode.
pub open spec fn refusal(r: Reply) -> Seq<char> {
    "Failed to connect to bootnode "@ + detail_of(r)
}

/// What one step of the joining does, from the stage `stage` of the node `before` with
/// the replies `replies` to the node `after` with the result `r`.
pub open spec fn resumed(stage: Connect, before: Node, after: Node, replies: Seq<Reply>, r: (Connect, Step)) -> bool {
    &&& after.address == before.address
    &&& (before.well_formed() ==> after.well_formed())
    &&& match stage {
        Connect::AwaitingConnect { bootnode } => {
            &&& after.peers@ == before.peers@
            &&& if replied_ok(replies[0]) {
                &&& r.0 == (Connect::AwaitingPing { bootnode })
                &&& r.1 matches Step::Send(rs) && rs@.len() == 1 && is_ping_of(rs@[0], bootnode)
            } else {
                &&& r.0 is Finished
                &&& r.1 matches Step::Done(Err(e)) && e.msg@ == refusal(replies[0])
            }
        },
        Connect::AwaitingPing { bootnode } => match ping_failure(replies[0]) {
            None => {
                &&& after.peers@ == added(before.address, before.peers@, bootnode)
                &&& r.0 is AwaitingPeers
                &&& r.1 matches Step::Send(rs) && rs@.len() == after.peers@.len()
                    && forall|i: int|
                    0 <= i < rs@.len() ==> is_fetch_of(#[trigger] rs@[i], after.peers@[i])
            },
            Some(m) => {
                &&& after.peers@ == before.peers@
                &&& r.0 is Finished
                &&& r.1 matches Step::Done(Err(e)) && e.msg@ == m
            },
        },
        Connect::AwaitingPeers => {
            &&& after.peers@ == remove_each(
                before.peers@,
                failed_peers(before.peers@, replies),
            )
            &&& r.0 matches Connect::AwaitingPings { found } && found@ == fetched(replies) && (
            r.1 matches Step::Send(rs) && rs@.len() == found@.len() && forall|i: int|
                0 <= i < rs@.len() ==> is_ping_of(#[trigger] rs@[i], found@[i]))
        },
        Connect::AwaitingPings { found } => {
            &&& after.peers@ == add_each(before.address, before.peers@, found@, replies)
            &&& r.0 is Finished
            &&& r.1 matches Step::Done(Ok(()))
        },
        Connect::Finished => false,
    }
}

impl Connect {
    /// How many replies the node waits for.
    pub open spec fn awaits(&self, node: &Node) -> nat {
        match self {
            Connect::AwaitingConnect { .. } => 1,
            Connect::AwaitingPing { .. } => 1,
            Connect::AwaitingPeers => node.peers@.len(),
            Connect::AwaitingPings { found } => found@.len(),
            Connect::Finished => 0,
        }
    }

    /// Takes in the replies to the requests of the last step, in order, and gives the
    /// next stage and step:
    /// - the bootnode's reply to `POST /connect` without status 200 ends the joining
    ///   with an error; otherwise the bootnode is pinged;
    /// - the ping's reply is judged as `add_peer` judges it, which adds the bootnode or
    ///   ends the joining with the ping's error; then every peer is asked for its peers;
    /// - every peer whose reply does not have status 200 is dropped, and the addresses
    ///   that the others brought are pinged;
    /// - each of those addresses is added as `add_peer` adds it, and the joining succeeds.
    pub fn resume(self, node: &mut Node, replies: &Vec<Reply>) -> (r: (Connect, Step))
        requires
            !(self is Finished),
            replies@.len() == self.awaits(old(node)),
        ensures
            resumed(self, *old(node), *final(node), replies@, r),
    {
        match self {
            Connect::AwaitingConnect { bootnode } => {
                if is_ok_reply(&replies[0]) {
                    let rs = vec![ping::request(&bootnode)];
                    (Connect::AwaitingPing { bootnode }, Step::Send(rs))
                } else {
                    let mut msg = String::from_str("Failed to connect to bootnode ");
                    match &replies[0] {
                        Reply::Received { detail, .. } => msg.append(detail.as_str()),
                        Reply::Failed { detail, .. } => msg.append(detail.as_str()),
                    }
                    (Connect::Finished, Step::Done(Err(Error { msg })))
                }
            },
            Connect::AwaitingPing { bootnode } => {
                match add_peer::call(node, &bootnode, &replies[0]) {
                    Ok(()) => (Connect::AwaitingPeers, Step::Send(sync_peers::requests(node))),
                    Err(e) => (Connect::Finished, Step::Done(Err(e))),
                }
            },
            Connect::AwaitingPeers => {
                let found = sync_peers::drop_unreachable(node, replies);
                let rs = ping::requests(&found);
                (Connect::AwaitingPings { found }, Step::Send(rs))
            },
            Connect::AwaitingPings { found } => {
                sync_peers::add_found(node, &found, replies);
                (Connect::Finished, Step::Done(Ok(())))
            },
            Connect::Finished => (Connect::Finished, Step::Done(Ok(()))),
        }
    }
}

/// How many steps at most are left before the joining ends.
pub open spec fn steps_left(stage: Connect) -> nat {
    match stage {
        Connect::AwaitingConnect { .. } => 4,
        Connect::AwaitingPing { .. } => 3,
        Connect::AwaitingPeers => 2,
        Connect::AwaitingPings { .. } => 1,
        Connect::Finished => 0,
    }
}

/// The joining always moves on: each step leaves fewer steps to go, and it stops
/// (with its result) exactly when it has finished, so it ends after at most four steps.
pub proof fn lemma_connect_progresses(stage: Connect, before: Node, after: Node, replies: Seq<Reply>, r: (Connect, Step))
    requires
        !(stage is Finished),
        resumed(stage, before, after, replies, r),
    ensures
        steps_left(r.0) < steps_left(stage),
        r.1 is Done <==> r.0 is Finished,
{
}

/// The step that sends `POST http://<bootnode>/connect` with `own` as the body.
pub open spec fn is_connect_step(step: Step, own: SocketAddress, bootnode: SocketAddress) -> bool {
    match step {
        Step::Send(rs) => {
            &&& rs@.len() == 1
            &&& rs@[0].method == Method::Post
            &&& rs@[0].url@ == url(bootnode, "/connect"@)
            &&& rs@[0].body@ == address_text(own)
        },
        Step::Done(_) => false,
    }
}

/// Begins to join the network through the bootnode at `address`: the first step is
/// `POST http://<address>/connect` with the node's own address as the body.
pub fn call(node: &Node, address: &SocketAddress) -> (r: (Connect, Step))
    ensures
        r.0 == (Connect::AwaitingConnect { bootnode: *address }),
        r.1 is Send,
        is_connect_step(r.1, node.address, *address),
{
    let rs = vec![
        Request {
            method: Method::Post,
            url: url_of(address, "/connect"),
            body: node.address.to_string(),
        },
    ];
    (Connect::AwaitingConnect { bootnode: *address }, Step::Send(rs))
}

} // verus!
