use vstd::prelude::*;

use crate::actions::ping::{self, ping_failure};
use crate::actions::{failed_peers, unreachable_peers, url, url_of, Error, Method, Reply, Request};
use crate::address::{address_at, address_of, SocketAddress};
use crate::node::{added, remove_each, Node};
use crate::text::{chars_of, range_texts, split, split_ranges};

verus! {

/// The addresses that a list of peers as text spells: the comma-separated pieces
/// that are addresses, in order; the other pieces are skipped.
pub open spec fn peers_of(s: Seq<char>) -> Seq<SocketAddress> {
    split(s, ',').filter_map(|p: Seq<char>| address_of(p))
}

/// The addresses that a reply to a request for a peer's peers brings: those of its
/// body where the status is 200, none otherwise.
pub open spec fn fetched_from(r: Reply) -> Seq<SocketAddress> {
    match r {
        Reply::Received { status, body, .. } => if status == 200 {
            peers_of(body@)
        } else {
            Seq::empty()
        },
        Reply::Failed { .. } => Seq::empty(),
    }
}

/// The addresses that a list of replies brings, in order.
pub open spec fn fetched(replies: Seq<Reply>) -> Seq<SocketAddress>
    decreases replies.len(),
{
    if replies.len() == 0 {
        Seq::empty()
    } else {
        fetched(replies.drop_last()) + fetched_from(replies.last())
    }
}

/// The peers after each address of `xs` in turn has been added as `add_peer` adds it,
/// given the replies to their pings.
pub open spec fn add_each(
    address: SocketAddress,
    peers: Seq<SocketAddress>,
    xs: Seq<SocketAddress>,
    pings: Seq<Reply>,
) -> Seq<SocketAddress>
    decreases xs.len(),
{
    if xs.len() == 0 || pings.len() == 0 {
        peers
    } else {
        let before = add_each(address, peers, xs.drop_last(), pings.drop_last());
        if ping_failure(pings.last()) is None {
            added(address, before, xs.last())
        } else {
            before
        }
    }
}

/// Reads a list of peers as text: the comma-separated pieces that are addresses.
pub fn parse_peers(response: &str) -> (r: Vec<SocketAddress>)
    ensures
        r@ == peers_of(response@),
{
    let cs = chars_of(response);
    let rs = split_ranges(&cs, 0, cs.len(), ',');
    let ghost pieces = range_texts(cs@, rs@);
    assert(cs@.subrange(0, cs@.len() as int) =~= response@);
    let mut r: Vec<SocketAddress> = Vec::new();
    let mut i: usize = 0;
    while i < rs.len()
        invariant
            i <= rs@.len(),
            pieces == range_texts(cs@, rs@),
            pieces == split(response@, ','),
            forall|k: int| 0 <= k < rs@.len() ==> (#[trigger] rs@[k]).0 <= rs@[k].1 <= cs@.len(),
            r@ == pieces.take(i as int).filter_map(|p: Seq<char>| address_of(p)),
        decreases rs@.len() - i,
    {
        assert(pieces.take(i + 1).drop_last() =~= pieces.take(i as int));
        assert(pieces.take(i + 1).last() == cs@.subrange(rs@[i as int].0 as int, rs@[i as int].1 as int));
        match address_at(&cs, rs[i].0, rs[i].1) {
            Some(a) => {
                r.push(a);
                assert(r@ =~= pieces.take(i + 1).filter_map(|p: Seq<char>| address_of(p)));
            },
            None => {
                assert(r@ =~= pieces.take(i + 1).filter_map(|p: Seq<char>| address_of(p)));
            },
        }
        i = i + 1;
    }
    assert(pieces.take(rs@.len() as int) =~= pieces);
    r
}

/// `r` asks the node at `a` for its peers: `GET http://<a>/fetch_peers`.
pub open spec fn is_fetch_of(r: Request, a: SocketAddress) -> bool {
    &&& r.method == Method::Get
    &&& r.url@ == url(a, "/fetch_peers"@)
    &&& r.body@ == Seq::<char>::empty()
}

/// The requests for the peers of every peer of `node`, in order of the peers:
/// `GET http://<peer>/fetch_peers`.
pub fn requests(node: &Node) -> (rs: Vec<Request>)
    ensures
        rs@.len() == node.peers@.len(),
        forall|i: int| 0 <= i < rs@.len() ==> is_fetch_of(#[trigger] rs@[i], node.peers@[i]),
{
    let mut rs: Vec<Request> = Vec::new();
    let mut i: usize = 0;
    while i < node.peers.len()
        invariant
            i <= node.peers@.len(),
            rs@.len() == i,
            forall|k: int| 0 <= k < i ==> is_fetch_of(#[trigger] rs@[k], node.peers@[k]),
        decreases node.peers@.len() - i,
    {
        rs.push(
            Request { method: Method::Get, url: url_of(&node.peers[i], "/fetch_peers"), body: String::new() },
        );
        i = i + 1;
    }
    rs
}

/// The addresses that the replies to `requests` bring, in order.
pub fn found_peers(replies: &Vec<Reply>) -> (r: Vec<SocketAddress>)
    ensures
        r@ == fetched(replies@),
{
    let mut r: Vec<SocketAddress> = Vec::new();
    let mut i: usize = 0;
    while i < replies.len()
        invariant
            i <= replies@.len(),
            r@ == fetched(replies@.take(i as int)),
        decreases replies@.len() - i,
    {
        assert(replies@.take(i + 1).drop_last() =~= replies@.take(i as int));
        match &replies[i] {
            Reply::Received { status, body, .. } => {
                if *status == 200 {
                    let mut found = parse_peers(body.as_str());
                    let ghost before = r@;
                    r.append(&mut found);
                    assert(r@ =~= fetched(replies@.take(i + 1)));
                } else {
                    assert(r@ =~= fetched(replies@.take(i + 1)));
                }
            },
            Reply::Failed { .. } => {
                assert(r@ =~= fetched(replies@.take(i + 1)));
            },
        }
        i = i + 1;
    }
    assert(replies@.take(replies@.len() as int) =~= replies@);
    r
}

/// Adds each address of `found` in turn as `add_peer` adds it, given the replies
/// to their pings (see `ping::request`), one per address in order.
pub fn add_found(node: &mut Node, found: &Vec<SocketAddress>, pings: &Vec<Reply>)
    requires
        pings@.len() == found@.len(),
    ensures
        final(node).address == old(node).address,
        final(node).peers@ == add_each(old(node).address, old(node).peers@, found@, pings@),
        old(node).well_formed() ==> final(node).well_formed(),
{
    let mut i: usize = 0;
    while i < found.len()
        invariant
            pings@.len() == found@.len(),
            i <= found@.len(),
            node.address == old(node).address,
            node.peers@ == add_each(old(node).address, old(node).peers@, found@.take(i as int), pings@.take(i as int)),
            old(node).well_formed() ==> node.well_formed(),
        decreases found@.len() - i,
    {
        assert(found@.take(i + 1).drop_last() =~= found@.take(i as int));
        assert(pings@.take(i + 1).drop_last() =~= pings@.take(i as int));
        proof {
            crate::node::lemma_added_well_formed(node.address, node.peers@, found@[i as int]);
        }
        if ping::call(&pings[i]).is_ok() {
            node.add_if_unknown(found[i]);
        }
        i = i + 1;
    }
    assert(found@.take(found@.len() as int) =~= found@);
    assert(pings@.take(pings@.len() as int) =~= pings@);
}

/// Takes in the replies to `requests`, one per peer in order: drops every peer whose
/// reply does not have status 200, and gives the addresses that the others brought.
pub fn drop_unreachable(node: &mut Node, replies: &Vec<Reply>) -> (found: Vec<SocketAddress>)
    requires
        replies@.len() == old(node).peers@.len(),
    ensures
        found@ == fetched(replies@),
        final(node).address == old(node).address,
        final(node).peers@ == remove_each(old(node).peers@, failed_peers(old(node).peers@, replies@)),
        old(node).well_formed() ==> final(node).well_formed(),
{
    let to_remove = unreachable_peers(&node.peers, replies);
    let found = found_peers(replies);
    proof {
        crate::node::lemma_remove_each_well_formed(node.address, node.peers@, to_remove@);
    }
    node.remove_peers(&to_remove);
    found
}

/// Learns the peers of the peers: `replies` are the replies to `requests`, one per
/// peer in order, and `pings` the replies to the pings of the addresses that they
/// bring (`found_peers`), one per address in order. Every peer whose reply does not
/// have status 200 is dropped; then each address brought is added as `add_peer`
/// adds it. It always succeeds.
pub fn call(node: &mut Node, replies: &Vec<Reply>, pings: &Vec<Reply>) -> (r: Result<(), Error>)
    requires
        replies@.len() == old(node).peers@.len(),
        pings@.len() == fetched(replies@).len(),
    ensures
        r is Ok,
        final(node).address == old(node).address,
        final(node).peers@ == add_each(
            old(node).address,
            remove_each(old(node).peers@, failed_peers(old(node).peers@, replies@)),
            fetched(replies@),
            pings@,
        ),
        old(node).well_formed() ==> final(node).well_formed(),
{
    let found = drop_unreachable(node, replies);
    add_found(node, &found, pings);
    Ok(())
}

} // verus!
