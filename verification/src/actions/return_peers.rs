use vstd::prelude::*;

use crate::address::address_text;
use crate::text::join;
use crate::node::Node;
use crate::text::push_char;

verus! {

/// The text of a list of peers: their addresses joined by commas.
pub open spec fn peers_text(peers: Seq<crate::address::SocketAddress>) -> Seq<char> {
    join(peers.map_values(|p: crate::address::SocketAddress| address_text(p)), ',')
}

/// The peers of `node` as text: their addresses in order, joined by commas.
pub fn call(node: &Node) -> (r: String)
    ensures
        r@ == peers_text(node.peers@),
{
    let mut s = String::new();
    let mut i: usize = 0;
    assert(node.peers@.take(0).map_values(|p: crate::address::SocketAddress| address_text(p))
        =~= Seq::<Seq<char>>::empty());
    while i < node.peers.len()
        invariant
            i <= node.peers@.len(),
            s@ == peers_text(node.peers@.take(i as int)),
        decreases node.peers@.len() - i,
    {
        let ghost prev = node.peers@.take(i as int).map_values(
            |p: crate::address::SocketAddress| address_text(p),
        );
        let ghost next = node.peers@.take(i + 1).map_values(
            |p: crate::address::SocketAddress| address_text(p),
        );
        assert(next.drop_last() =~= prev);
        assert(next.last() == address_text(node.peers@[i as int]));
        if i > 0 {
            push_char(&mut s, ',');
        }
        let text = node.peers[i].to_string();
        let ghost before = s@;
        s.append(text.as_str());
        if i == 0 {
            assert(next.len() == 1);
            assert(s@ =~= join(next, ','));
        } else {
            assert(s@ =~= join(prev, ',') + seq![','] + next.last());
        }
        i = i + 1;
    }
    assert(node.peers@.take(node.peers@.len() as int) =~= node.peers@);
    s
}

} // verus!
