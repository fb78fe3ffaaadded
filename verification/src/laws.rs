use vstd::prelude::*;

use crate::actions::return_peers::peers_text;
use crate::actions::sync_peers::peers_of;
use crate::actions::{failed_peers, replied_ok, Reply};
use crate::actions::connect::{resumed, Connect};
use crate::actions::ping::ping_failure;
use crate::actions::sync_peers::{add_each, fetched};
use crate::listener::{answer_of, upper, ListenerRoute};
use crate::node::Node;
use crate::address::{address_of, address_text, lemma_address_round_trip, lemma_address_text_free, SocketAddress};
use crate::node::{added, knows, remove_each, without_first};
use crate::text::{free_of, lemma_split_join, split};

verus! {

/// The addresses whose text reads back as themselves: all but IPv6 addresses with a
/// flow label, which their text does not carry.
pub open spec fn text_faithful(peers: Seq<SocketAddress>) -> bool {
    forall|i: int| 0 <= i < peers.len() ==> (#[trigger] peers[i] matches SocketAddress::V6 { flowinfo, .. } ==> flowinfo == 0)
}

/// A node learns back exactly the peers that another node serves: reading the text
/// that `return_peers` gives (the answer to `/fetch_peers`) with `parse_peers` yields
/// the same peers in the same order.
pub proof fn lemma_peer_list_round_trip(peers: Seq<SocketAddress>)
    requires
        text_faithful(peers),
    ensures
        peers_of(peers_text(peers)) == peers,
{
    let texts = peers.map_values(|p: SocketAddress| address_text(p));
    if peers.len() == 0 {
        assert(texts =~= Seq::<Seq<char>>::empty());
        let e = Seq::<char>::empty();
        assert(peers_text(peers) =~= e);
        crate::text::lemma_split_free(e, ',');
        assert(split(e, ',') == seq![e]);
        assert(seq![e].drop_last() =~= Seq::<Seq<char>>::empty());
        assert(seq![e].last() == e);
        crate::text::lemma_find_none(e, ':');
        assert(address_of(e) is None);
        assert(Seq::<Seq<char>>::empty().filter_map(|p: Seq<char>| address_of(p)) =~= Seq::<SocketAddress>::empty());
        assert(seq![e].filter_map(|p: Seq<char>| address_of(p)) =~= Seq::<SocketAddress>::empty());
    } else {
        assert forall|k: int| 0 <= k < texts.len() implies free_of(#[trigger] texts[k], ',') by {
            lemma_address_text_free(peers[k], ',');
        }
        lemma_split_join(texts, ',');
        lemma_filter_map_texts(peers);
    }
}

/// Reading each text back gives the addresses.
proof fn lemma_filter_map_texts(peers: Seq<SocketAddress>)
    requires
        text_faithful(peers),
    ensures
        peers.map_values(|p: SocketAddress| address_text(p)).filter_map(|p: Seq<char>| address_of(p)) == peers,
    decreases peers.len(),
{
    let texts = peers.map_values(|p: SocketAddress| address_text(p));
    if peers.len() > 0 {
        let init = peers.drop_last();
        assert(text_faithful(init)) by {
            assert forall|i: int| 0 <= i < init.len() implies (#[trigger] init[i] matches SocketAddress::V6 { flowinfo, .. } ==> flowinfo == 0) by {
                assert(init[i] == peers[i]);
            }
        }
        lemma_filter_map_texts(init);
        assert(texts.drop_last() =~= init.map_values(|p: SocketAddress| address_text(p)));
        assert(peers[peers.len() - 1] == peers.last());
        lemma_address_round_trip(peers.last());
        assert(texts.last() == address_text(peers.last()));
        assert(init.push(peers.last()) =~= peers);
    }
}

/// A reply was received with status 200.
pub open spec fn answered(r: Reply) -> bool {
    &&& r is Received
    &&& r->Received_status == 200
}

/// A reply counts as an answer exactly when it was received with status 200; any
/// other status, or a failed request, does not.
pub proof fn lemma_answer_is_status_200(r: Reply)
    ensures
        replied_ok(r) <==> answered(r),
        (r matches Reply::Received { status, .. } && status != 200) ==> !replied_ok(r),
        r is Failed ==> !replied_ok(r),
{
}

/// The peers whose replies have status 200, in order.
pub open spec fn responsive_peers(peers: Seq<SocketAddress>, replies: Seq<Reply>) -> Seq<SocketAddress>
    decreases peers.len(),
{
    if peers.len() == 0 || replies.len() == 0 {
        Seq::empty()
    } else {
        let rest = responsive_peers(peers.drop_last(), replies.drop_last());
        if answered(replies.last()) {
            rest.push(peers.last())
        } else {
            rest
        }
    }
}

/// A node keeps exactly the peers that answered: where no peer is listed twice,
/// dropping the peers whose replies lack status 200 (as `broadcast_peer`,
/// `send_whisper` and `sync_peers` do) leaves the others in their order, so a peer
/// that fails to answer is no longer a peer.
pub proof fn lemma_unresponsive_peers_removed(peers: Seq<SocketAddress>, replies: Seq<Reply>)
    requires
        peers.no_duplicates(),
        replies.len() == peers.len(),
    ensures
        remove_each(peers, failed_peers(peers, replies)) == responsive_peers(peers, replies),
        forall|i: int|
            0 <= i < peers.len() && !answered(replies[i]) ==> !remove_each(peers, failed_peers(peers, replies)).contains(
                #[trigger] peers[i],
            ),
    decreases peers.len(),
{
    if peers.len() > 0 {
        let p0 = peers.drop_last();
        let r0 = replies.drop_last();
        let y = peers.last();
        assert(p0.no_duplicates());
        lemma_unresponsive_peers_removed(p0, r0);
        lemma_failed_within(p0, r0);
        lemma_responsive_within(p0, r0);
        assert(!p0.contains(y)) by {
            if p0.contains(y) {
                let k = choose|k: int| 0 <= k < p0.len() && p0[k] == y;
                assert(peers[k] == peers[peers.len() - 1]);
            }
        }
        let xs = failed_peers(p0, r0);
        assert(!xs.contains(y));
        assert(p0.push(y) =~= peers);
        lemma_remove_each_push(p0, y, xs);
        let rest = responsive_peers(p0, r0);
        if answered(replies.last()) {
        } else {
            assert(!rest.contains(y));
            lemma_without_first_push_same(rest, y);
            assert(xs.push(y).drop_last() =~= xs);
        }
        let result = remove_each(peers, failed_peers(peers, replies));
        lemma_responsive_within(peers, replies);
        assert forall|i: int| 0 <= i < peers.len() && !answered(replies[i]) implies !result.contains(
            #[trigger] peers[i],
        ) by {
            if i == peers.len() - 1 {
                assert(replies[i] == replies.last());
            } else {
                assert(peers[i] == p0[i]);
                assert(replies[i] == r0[i]);
                assert(!rest.contains(p0[i]));
                if answered(replies.last()) {
                    assert(result == rest.push(y));
                    assert(p0[i] != y);
                    if result.contains(p0[i]) {
                        let k = choose|k: int| 0 <= k < result.len() && result[k] == p0[i];
                        if k < rest.len() {
                            assert(rest[k] == result[k]);
                        }
                    }
                }
            }
        }
    }
}

/// The failed peers are among the peers.
proof fn lemma_failed_within(peers: Seq<SocketAddress>, replies: Seq<Reply>)
    ensures
        forall|x: SocketAddress| #[trigger] failed_peers(peers, replies).contains(x) ==> peers.contains(x),
    decreases peers.len(),
{
    if peers.len() > 0 && replies.len() > 0 {
        lemma_failed_within(peers.drop_last(), replies.drop_last());
        let rest = failed_peers(peers.drop_last(), replies.drop_last());
        assert forall|x: SocketAddress| #[trigger] failed_peers(peers, replies).contains(x) implies peers.contains(x) by {
            if rest.contains(x) {
                let k = choose|k: int| 0 <= k < peers.drop_last().len() && peers.drop_last()[k] == x;
                assert(peers[k] == x);
            } else {
                let f = failed_peers(peers, replies);
                let k = choose|k: int| 0 <= k < f.len() && f[k] == x;
                if k < rest.len() {
                    assert(f[k] == rest[k]);
                } else {
                    assert(peers[peers.len() - 1] == x);
                }
            }
        }
    }
}

/// The responsive peers are among the peers.
proof fn lemma_responsive_within(peers: Seq<SocketAddress>, replies: Seq<Reply>)
    ensures
        forall|x: SocketAddress| #[trigger] responsive_peers(peers, replies).contains(x) ==> peers.contains(x),
    decreases peers.len(),
{
    if peers.len() > 0 && replies.len() > 0 {
        lemma_responsive_within(peers.drop_last(), replies.drop_last());
        let rest = responsive_peers(peers.drop_last(), replies.drop_last());
        assert forall|x: SocketAddress| #[trigger] responsive_peers(peers, replies).contains(x) implies peers.contains(x) by {
            if rest.contains(x) {
                let k = choose|k: int| 0 <= k < peers.drop_last().len() && peers.drop_last()[k] == x;
                assert(peers[k] == x);
            } else {
                let f = responsive_peers(peers, replies);
                let k = choose|k: int| 0 <= k < f.len() && f[k] == x;
                if k < rest.len() {
                    assert(f[k] == rest[k]);
                } else {
                    assert(peers[peers.len() - 1] == x);
                }
            }
        }
    }
}

/// Removing an address other than the last element leaves the last element last.
proof fn lemma_without_first_push(s: Seq<SocketAddress>, y: SocketAddress, x: SocketAddress)
    requires
        x != y,
    ensures
        without_first(s.push(y), x) == without_first(s, x).push(y),
    decreases s.len(),
{
    if s.len() == 0 {
        let t = s.push(y);
        assert(t =~= seq![y]);
        assert(t.drop_first() =~= Seq::<SocketAddress>::empty());
        assert(without_first(t.drop_first(), x) == t.drop_first());
        assert(without_first(t, x) == seq![t[0]] + without_first(t.drop_first(), x));
        assert(without_first(s, x) == s);
        assert(seq![t[0]] + t.drop_first() =~= s.push(y));
    } else {
        let t = s.push(y);
        assert(t.drop_first() =~= s.drop_first().push(y));
        lemma_without_first_push(s.drop_first(), y, x);
        if s[0] == x {
            assert(t[0] == x);
        } else {
            assert(seq![s[0]] + without_first(s.drop_first(), x).push(y) =~= (seq![s[0]] + without_first(s.drop_first(), x)).push(y));
        }
    }
}

/// Removing the last element that occurs nowhere else.
proof fn lemma_without_first_push_same(s: Seq<SocketAddress>, y: SocketAddress)
    requires
        !s.contains(y),
    ensures
        without_first(s.push(y), y) == s,
    decreases s.len(),
{
    if s.len() == 0 {
        assert(seq![y].drop_first() =~= Seq::<SocketAddress>::empty());
    } else {
        let t = s.push(y);
        assert(t.drop_first() =~= s.drop_first().push(y));
        assert(!s.drop_first().contains(y)) by {
            if s.drop_first().contains(y) {
                let k = choose|k: int| 0 <= k < s.drop_first().len() && s.drop_first()[k] == y;
                assert(s[k + 1] == y);
            }
        }
        lemma_without_first_push_same(s.drop_first(), y);
        assert(s[0] != y);
        assert(seq![s[0]] + s.drop_first() =~= s);
    }
}

/// Removing addresses other than the last element leaves the last element last.
proof fn lemma_remove_each_push(s: Seq<SocketAddress>, y: SocketAddress, xs: Seq<SocketAddress>)
    requires
        !xs.contains(y),
    ensures
        remove_each(s.push(y), xs) == remove_each(s, xs).push(y),
    decreases xs.len(),
{
    if xs.len() > 0 {
        let init = xs.drop_last();
        assert(!init.contains(y)) by {
            if init.contains(y) {
                let k = choose|k: int| 0 <= k < init.len() && init[k] == y;
                assert(xs[k] == y);
            }
        }
        lemma_remove_each_push(s, y, init);
        assert(xs.last() != y) by {
            assert(xs[xs.len() - 1] == xs.last());
        }
        lemma_without_first_push(remove_each(s, init), y, xs.last());
    }
}

/// After an address is added, the node knows it; adding it again changes nothing.
pub proof fn lemma_added_known(address: SocketAddress, peers: Seq<SocketAddress>, a: SocketAddress)
    ensures
        knows(address, added(address, peers, a), a),
        added(address, added(address, peers, a), a) == added(address, peers, a),
{
    if !knows(address, peers, a) {
        assert(peers.push(a)[peers.len() as int] == a);
    }
}

/// Where no peer is listed twice, removing an address leaves no trace of it.
pub proof fn lemma_removed_unknown(peers: Seq<SocketAddress>, a: SocketAddress)
    requires
        peers.no_duplicates(),
    ensures
        !without_first(peers, a).contains(a),
{
    if peers.contains(a) {
        let i0 = choose|i: int| 0 <= i < peers.len() && peers[i] == a;
        let i = crate::node::first_index(peers, a, i0);
        crate::node::lemma_without_first_at(peers, a, i);
        let q = peers.remove(i);
        if q.contains(a) {
            let k = choose|k: int| 0 <= k < q.len() && q[k] == a;
            if k < i {
                assert(q[k] == peers[k]);
            } else {
                assert(q[k] == peers[k + 1]);
            }
        }
    } else {
        crate::node::lemma_without_first_absent(peers, a);
    }
}

/// The addresses that a peer's reply brings: those of its body where it was
/// received with status 200, none otherwise.
pub open spec fn brought(r: Reply) -> Seq<SocketAddress> {
    match r {
        Reply::Received { status, body, .. } => if status == 200 {
            peers_of(body@)
        } else {
            Seq::empty()
        },
        Reply::Failed { .. } => Seq::empty(),
    }
}

/// The addresses found in a list of replies are those that each reply brings, all of
/// them, in order: finding over two lists of replies gives what each gives, one after
/// the other, and a single reply gives what it brings.
pub proof fn lemma_found_peers_concatenate(rs: Seq<Reply>, more: Seq<Reply>)
    ensures
        fetched(rs + more) == fetched(rs) + fetched(more),
        more.len() == 1 ==> fetched(more) == brought(more[0]),
    decreases more.len(),
{
    if more.len() == 0 {
        assert(rs + more =~= rs);
        assert(fetched(more) == Seq::<SocketAddress>::empty());
        assert(fetched(rs) + Seq::<SocketAddress>::empty() =~= fetched(rs));
    } else {
        let init = more.drop_last();
        lemma_found_peers_concatenate(rs, init);
        assert((rs + more).drop_last() =~= rs + init);
        assert((rs + more).last() == more.last());
        assert(fetched(rs) + fetched(init) + crate::actions::sync_peers::fetched_from(more.last())
            =~= fetched(rs) + (fetched(init) + crate::actions::sync_peers::fetched_from(more.last())));
        if more.len() == 1 {
            assert(init =~= Seq::<Reply>::empty());
            assert(more.last() == more[0]);
            assert(Seq::<SocketAddress>::empty() + brought(more[0]) =~= brought(more[0]));
        }
    }
}

/// Joining through a bootnode drops exactly the peers that do not answer the request
/// for their peers: where no peer is listed twice, the step that takes in those
/// replies leaves the peers that answered with status 200, in order, and none other.
pub proof fn lemma_connect_drops_unanswering(
    stage: Connect,
    before: Node,
    after: Node,
    replies: Seq<Reply>,
    r: (Connect, crate::actions::connect::Step),
)
    requires
        stage is AwaitingPeers,
        resumed(stage, before, after, replies, r),
        before.peers@.no_duplicates(),
        replies.len() == before.peers@.len(),
    ensures
        after.peers@ == responsive_peers(before.peers@, replies),
        forall|i: int|
            0 <= i < replies.len() && !answered(replies[i]) ==> !after.peers@.contains(#[trigger] before.peers@[i]),
{
    lemma_unresponsive_peers_removed(before.peers@, replies);
}

/// Announcing a new peer drops every peer that does not answer with status 200 (other
/// than the new peer itself, which is then added).
pub proof fn lemma_broadcast_drops_unanswering(
    own: SocketAddress,
    peers: Seq<SocketAddress>,
    replies: Seq<Reply>,
    a: SocketAddress,
    i: int,
)
    requires
        peers.no_duplicates(),
        replies.len() == peers.len(),
        0 <= i < peers.len(),
        !answered(replies[i]),
        peers[i] != a,
    ensures
        !added(own, remove_each(peers, failed_peers(peers, replies)), a).contains(peers[i]),
        !remove_each(peers, failed_peers(peers, replies)).contains(peers[i]),
{
    lemma_unresponsive_peers_removed(peers, replies);
    let kept = remove_each(peers, failed_peers(peers, replies));
    assert(!kept.contains(peers[i]));
    if added(own, kept, a).contains(peers[i]) {
        let k = choose|k: int| 0 <= k < added(own, kept, a).len() && added(own, kept, a)[k] == peers[i];
        if k < kept.len() {
            assert(kept[k] == added(own, kept, a)[k]);
        }
    }
}

/// A node knows an address exactly when it is its own or one of its peers; adding an
/// address with a good ping appends it exactly when it is neither, and otherwise
/// changes nothing.
pub proof fn lemma_knows_exactly(address: SocketAddress, peers: Seq<SocketAddress>, a: SocketAddress)
    ensures
        knows(address, peers, a) <==> (a == address || exists|i: int| 0 <= i < peers.len() && peers[i] == a),
        (a != address && forall|i: int| 0 <= i < peers.len() ==> peers[i] != a) ==> added(address, peers, a)
            == peers.push(a),
        (a == address || exists|i: int| 0 <= i < peers.len() && peers[i] == a) ==> added(address, peers, a)
            == peers,
{
}

/// A ping succeeds exactly on a response with status 200 and body `pong`; otherwise the
/// error is the request's own failure message, or `Failed to receive pong`.
pub proof fn lemma_ping_outcome(r: Reply)
    ensures
        ping_failure(r) is None <==> (r matches Reply::Received { status, body, .. } && status == 200
            && body@ == "pong"@),
        r matches Reply::Failed { message, .. } ==> ping_failure(r) == Some(message@),
        (r matches Reply::Received { status, body, .. } && !(status == 200 && body@ == "pong"@))
            ==> ping_failure(r) == Some("Failed to receive pong"@),
{
}

/// Learning the peers of the peers adds every address brought whose ping succeeds,
/// so the node knows it afterwards, and adds nothing but such addresses.
pub proof fn lemma_sync_adds_answering(
    own: SocketAddress,
    peers: Seq<SocketAddress>,
    xs: Seq<SocketAddress>,
    pings: Seq<Reply>,
)
    requires
        pings.len() == xs.len(),
    ensures
        forall|i: int|
            0 <= i < xs.len() && ping_failure(pings[i]) is None ==> knows(own, add_each(own, peers, xs, pings), #[trigger] xs[i]),
        forall|y: SocketAddress|
            #[trigger] add_each(own, peers, xs, pings).contains(y) ==> peers.contains(y) || exists|i: int|
                0 <= i < xs.len() && xs[i] == y && ping_failure(pings[i]) is None,
        forall|y: SocketAddress| #[trigger] peers.contains(y) ==> add_each(own, peers, xs, pings).contains(y),
    decreases xs.len(),
{
    let result = add_each(own, peers, xs, pings);
    if xs.len() > 0 {
        let x0 = xs.drop_last();
        let p0 = pings.drop_last();
        lemma_sync_adds_answering(own, peers, x0, p0);
        let before = add_each(own, peers, x0, p0);
        let x = xs.last();
        let ok = ping_failure(pings.last()) is None;
        assert(result == if ok { added(own, before, x) } else { before });
        lemma_added_known(own, before, x);
        assert forall|y: SocketAddress| #[trigger] before.contains(y) implies result.contains(y) by {
            let k = choose|k: int| 0 <= k < before.len() && before[k] == y;
            if ok && !knows(own, before, x) {
                assert(result[k] == before[k]);
            }
        }
        assert forall|i: int| 0 <= i < xs.len() && ping_failure(pings[i]) is None implies knows(own, result, #[trigger] xs[i]) by {
            if i < x0.len() {
                assert(xs[i] == x0[i]);
                assert(pings[i] == p0[i]);
                assert(knows(own, before, x0[i]));
                if xs[i] != own {
                    assert(before.contains(xs[i]));
                    assert(result.contains(xs[i]));
                }
            } else {
                assert(xs[i] == x);
                assert(pings[i] == pings.last());
            }
        }
        assert forall|y: SocketAddress| #[trigger] result.contains(y) implies peers.contains(y) || exists|i: int|
            0 <= i < xs.len() && xs[i] == y && ping_failure(pings[i]) is None by {
            if before.contains(y) {
                if !peers.contains(y) {
                    let i = choose|i: int| 0 <= i < x0.len() && x0[i] == y && ping_failure(p0[i]) is None;
                    assert(xs[i] == x0[i] && pings[i] == p0[i]);
                }
            } else {
                let k = choose|k: int| 0 <= k < result.len() && result[k] == y;
                if k < before.len() {
                    assert(before[k] == y);
                }
                assert(xs[xs.len() - 1] == x && pings[pings.len() - 1] == pings.last());
            }
        }
    }
}

/// The upper-case echo changes exactly the ASCII lower-case letters `a` to `z`, each to
/// its capital, and leaves every other byte as it is, at every position of the body.
pub proof fn lemma_uppercase_changes_only_letters(body: Seq<u8>)
    ensures
        answer_of(ListenerRoute::EchoUppercase, body).0 == 200,
        answer_of(ListenerRoute::EchoUppercase, body).1.len() == body.len(),
        forall|i: int|
            0 <= i < body.len() ==> {
                &&& (97 <= body[i] <= 122 ==> #[trigger] answer_of(ListenerRoute::EchoUppercase, body).1[i]
                    == body[i] - 32)
                &&& (!(97 <= body[i] <= 122) ==> answer_of(ListenerRoute::EchoUppercase, body).1[i] == body[i])
            },
        forall|b: u8| #![trigger upper(b)] (upper(b) != b <==> 97 <= b <= 122),
{
}

/// Each step of joining through a bootnode does what the joining is for: the bootnode's
/// refusal (anything but status 200) ends it, with the node untouched; a bootnode that
/// answers its ping becomes known, while a failed ping ends the joining with the node
/// untouched; and in the last step every address brought whose ping succeeds becomes
/// known, and the joining succeeds.
pub proof fn lemma_connect_steps(
    stage: Connect,
    before: Node,
    after: Node,
    replies: Seq<Reply>,
    r: (Connect, crate::actions::connect::Step),
)
    requires
        !(stage is Finished),
        resumed(stage, before, after, replies, r),
        replies.len() == stage.awaits(&before),
    ensures
        after.address == before.address,
        stage is AwaitingConnect ==> {
            &&& after.peers@ == before.peers@
            &&& (answered(replies[0]) <==> r.0 is AwaitingPing)
            &&& (!answered(replies[0]) ==> r.1 matches crate::actions::connect::Step::Done(Err(_)))
        },
        stage matches Connect::AwaitingPing { bootnode } ==> {
            &&& ping_failure(replies[0]) is None ==> knows(after.address, after.peers@, bootnode)
                && r.0 is AwaitingPeers
            &&& ping_failure(replies[0]) is Some ==> after.peers@ == before.peers@
                && r.1 matches crate::actions::connect::Step::Done(Err(_))
        },
        stage matches Connect::AwaitingPings { found } ==> {
            &&& r.1 matches crate::actions::connect::Step::Done(Ok(_))
            &&& forall|i: int|
                0 <= i < found@.len() && ping_failure(replies[i]) is None ==> knows(
                    after.address,
                    after.peers@,
                    #[trigger] found@[i],
                )
        },
{
    match stage {
        Connect::AwaitingConnect { bootnode } => {
            lemma_answer_is_status_200(replies[0]);
        },
        Connect::AwaitingPing { bootnode } => {
            if ping_failure(replies[0]) is None {
                lemma_added_known(before.address, before.peers@, bootnode);
            }
        },
        Connect::AwaitingPings { found } => {
            lemma_sync_adds_answering(before.address, before.peers@, found@, replies);
        },
        _ => {},
    }
}

} // verus!
