use vstd::prelude::*;

use vstd::string::StringExecFns;

use crate::address::{address_text, SocketAddress};

verus! {

/// A node of the network: its own address and the addresses of the peers it knows,
/// in the order in which it learnt them.
#[derive(Debug, PartialEq)]
pub struct Node {
    pub address: SocketAddress,
    pub peers: Vec<SocketAddress>,
}

/// The texts of a list, with `, ` between each two of them.
pub open spec fn listed(parts: Seq<Seq<char>>) -> Seq<char>
    decreases parts.len(),
{
    if parts.len() == 0 {
        Seq::empty()
    } else if parts.len() == 1 {
        parts[0]
    } else {
        listed(parts.drop_last()) + seq![',', ' '] + parts.last()
    }
}

/// The description of a node: `Node { address: <address>, peers: [<peer>, ...] }`.
pub open spec fn node_description(node: &Node) -> Seq<char> {
    "Node { address: "@ + address_text(node.address) + ", peers: ["@ + listed(
        node.peers@.map_values(|p: SocketAddress| address_text(p)),
    ) + "] }"@
}

/// `s` without the first occurrence of `x` (unchanged where `x` does not occur).
pub open spec fn without_first(s: Seq<SocketAddress>, x: SocketAddress) -> Seq<SocketAddress>
    decreases s.len(),
{
    if s.len() == 0 {
        s
    } else if s[0] == x {
        s.drop_first()
    } else {
        seq![s[0]] + without_first(s.drop_first(), x)
    }
}

/// A node knows an address when it is its own or that of one of its peers.
pub open spec fn knows(address: SocketAddress, peers: Seq<SocketAddress>, a: SocketAddress) -> bool {
    a == address || peers.contains(a)
}

/// No peer is listed twice, and the node is not its own peer.
pub open spec fn peers_well_formed(address: SocketAddress, peers: Seq<SocketAddress>) -> bool {
    peers.no_duplicates() && !peers.contains(address)
}

/// The peers after each address of `xs` in turn has lost its first occurrence.
pub open spec fn remove_each(peers: Seq<SocketAddress>, xs: Seq<SocketAddress>) -> Seq<SocketAddress>
    decreases xs.len(),
{
    if xs.len() == 0 {
        peers
    } else {
        without_first(remove_each(peers, xs.drop_last()), xs.last())
    }
}

/// The peers after `a` is added where the node does not know it yet.
pub open spec fn added(address: SocketAddress, peers: Seq<SocketAddress>, a: SocketAddress) -> Seq<
    SocketAddress,
> {
    if knows(address, peers, a) {
        peers
    } else {
        peers.push(a)
    }
}

impl Node {
    pub open spec fn knows(&self, a: SocketAddress) -> bool {
        knows(self.address, self.peers@, a)
    }

    pub open spec fn well_formed(&self) -> bool {
        peers_well_formed(self.address, self.peers@)
    }

    /// A node at `address` with no peers.
    pub fn new(address: SocketAddress) -> (node: Node)
        ensures
            node.address == address,
            node.peers@ == Seq::<SocketAddress>::empty(),
            node.well_formed(),
    {
        Node { address, peers: Vec::new() }
    }

    /// Appends `address` to the peers.
    pub fn add_peer(&mut self, address: SocketAddress)
        ensures
            final(self).address == old(self).address,
            final(self).peers@ == old(self).peers@.push(address),
    {
        self.peers.push(address);
    }

    /// Removes the first occurrence of `address` from the peers, if any.
    pub fn remove_peer(&mut self, address: &SocketAddress)
        ensures
            final(self).address == old(self).address,
            final(self).peers@ == without_first(old(self).peers@, *address),
    {
        let n = self.peers.len();
        let mut i: usize = 0;
        while i < n
            invariant
                n == self.peers@.len(),
                i <= n,
                self.peers@ == old(self).peers@,
                self.address == old(self).address,
                forall|j: int| 0 <= j < i ==> self.peers@[j] != *address,
            decreases n - i,
        {
            if self.peers[i] == *address {
                proof {
                    lemma_without_first_at(self.peers@, *address, i as int);
                }
                self.peers.remove(i);
                return;
            }
            i = i + 1;
        }
        proof {
            lemma_without_first_absent(self.peers@, *address);
        }
    }

    /// The description of the node, with addresses in their text form:
    /// `Node { address: 127.0.0.1:8080, peers: [127.0.0.1:8081] }`.
    pub fn describe(&self) -> (r: String)
        ensures
            r@ == node_description(self),
    {
        let mut s = String::from_str("Node { address: ");
        s.append(self.address.to_string().as_str());
        s.append(", peers: [");
        let ghost start = s@;
        let mut i: usize = 0;
        assert(self.peers@.take(0).map_values(|p: SocketAddress| address_text(p)) =~= Seq::<Seq<char>>::empty());
        while i < self.peers.len()
            invariant
                i <= self.peers@.len(),
                s@ == start + listed(self.peers@.take(i as int).map_values(|p: SocketAddress| address_text(p))),
            decreases self.peers@.len() - i,
        {
            let ghost prev = self.peers@.take(i as int).map_values(|p: SocketAddress| address_text(p));
            let ghost next = self.peers@.take(i + 1).map_values(|p: SocketAddress| address_text(p));
            assert(next.drop_last() =~= prev);
            assert(next.last() == address_text(self.peers@[i as int]));
            if i > 0 {
                proof {
                    reveal_strlit(", ");
                }
                s.append(", ");
            }
            s.append(self.peers[i].to_string().as_str());
            if i == 0 {
                assert(next.len() == 1);
                assert(s@ =~= start + listed(next));
            } else {
                assert(s@ =~= start + (listed(prev) + seq![',', ' '] + next.last()));
            }
            i = i + 1;
        }
        assert(self.peers@.take(self.peers@.len() as int) =~= self.peers@);
        s.append("] }");
        assert(s@ =~= node_description(self));
        s
    }

    /// Whether `address` is the node's own or that of one of its peers.
    pub fn peer_exists(&self, address: &SocketAddress) -> (r: bool)
        ensures
            r == self.knows(*address),
    {
        if *address == self.address {
            return true;
        }
        let n = self.peers.len();
        let mut i: usize = 0;
        while i < n
            invariant
                n == self.peers@.len(),
                i <= n,
                forall|j: int| 0 <= j < i ==> self.peers@[j] != *address,
            decreases n - i,
        {
            if self.peers[i] == *address {
                assert(self.peers@[i as int] == *address);
                return true;
            }
            i = i + 1;
        }
        false
    }
}

impl Node {
    /// Removes the first occurrence of each address of `xs`, in turn.
    pub fn remove_peers(&mut self, xs: &Vec<SocketAddress>)
        ensures
            final(self).address == old(self).address,
            final(self).peers@ == remove_each(old(self).peers@, xs@),
    {
        let mut i: usize = 0;
        while i < xs.len()
            invariant
                i <= xs@.len(),
                self.address == old(self).address,
                self.peers@ == remove_each(old(self).peers@, xs@.take(i as int)),
            decreases xs@.len() - i,
        {
            self.remove_peer(&xs[i]);
            assert(xs@.take(i + 1).drop_last() =~= xs@.take(i as int));
            i = i + 1;
        }
        assert(xs@.take(xs@.len() as int) =~= xs@);
    }

    /// Adds `a` to the peers where the node does not know it yet.
    pub fn add_if_unknown(&mut self, a: SocketAddress)
        ensures
            final(self).address == old(self).address,
            final(self).peers@ == added(old(self).address, old(self).peers@, a),
    {
        if !self.peer_exists(&a) {
            self.add_peer(a);
        }
    }
}

/// Adding an address that the node does not know keeps the peers well formed.
pub proof fn lemma_added_well_formed(address: SocketAddress, peers: Seq<SocketAddress>, a: SocketAddress)
    ensures
        peers_well_formed(address, peers) ==> peers_well_formed(address, added(address, peers, a)),
{
    if peers_well_formed(address, peers) && !knows(address, peers, a) {
        let q = peers.push(a);
        assert forall|i: int, j: int| 0 <= i < q.len() && 0 <= j < q.len() && i != j implies q[i] != q[j] by {
            if i < peers.len() && j < peers.len() {
            } else if i < peers.len() {
                assert(peers.contains(q[i]));
            } else {
                assert(peers.contains(q[j]));
            }
        }
        assert(!q.contains(address)) by {
            if q.contains(address) {
                let k = choose|k: int| 0 <= k < q.len() && q[k] == address;
                if k < peers.len() {
                    assert(peers.contains(address));
                }
            }
        }
    }
}

/// Removing an occurrence keeps the peers well formed.
pub proof fn lemma_without_first_well_formed(address: SocketAddress, peers: Seq<SocketAddress>, x: SocketAddress)
    ensures
        peers_well_formed(address, peers) ==> peers_well_formed(address, without_first(peers, x)),
        forall|y: SocketAddress| #[trigger] without_first(peers, x).contains(y) ==> peers.contains(y),
{
    if exists|i: int| 0 <= i < peers.len() && peers[i] == x {
        let i0 = choose|i: int| 0 <= i < peers.len() && peers[i] == x;
        let i = first_index(peers, x, i0);
        lemma_without_first_at(peers, x, i);
        let q = peers.remove(i);
        assert forall|k: int| 0 <= k < q.len() implies #[trigger] q[k] == peers[if k < i { k } else { k + 1 }] by {}
        assert forall|y: SocketAddress| #[trigger] q.contains(y) implies peers.contains(y) by {
            let k = choose|k: int| 0 <= k < q.len() && q[k] == y;
            assert(q[k] == peers[if k < i { k } else { k + 1 }]);
        }
        if peers_well_formed(address, peers) {
            assert forall|a: int, b: int| 0 <= a < q.len() && 0 <= b < q.len() && a != b implies q[a] != q[b] by {
                assert(q[a] == peers[if a < i { a } else { a + 1 }]);
                assert(q[b] == peers[if b < i { b } else { b + 1 }]);
            }
        }
    } else {
        lemma_without_first_absent(peers, x);
    }
}

/// The first index at or before `i` that holds `x`.
pub proof fn first_index(s: Seq<SocketAddress>, x: SocketAddress, i: int) -> (k: int)
    requires
        0 <= i < s.len(),
        s[i] == x,
    ensures
        0 <= k <= i,
        s[k] == x,
        forall|j: int| 0 <= j < k ==> s[j] != x,
    decreases i,
{
    if exists|j: int| 0 <= j < i && s[j] == x {
        let j = choose|j: int| 0 <= j < i && s[j] == x;
        first_index(s, x, j)
    } else {
        i
    }
}

/// Removing each of a list of addresses keeps the peers well formed and adds none.
pub proof fn lemma_remove_each_well_formed(address: SocketAddress, peers: Seq<SocketAddress>, xs: Seq<SocketAddress>)
    ensures
        peers_well_formed(address, peers) ==> peers_well_formed(address, remove_each(peers, xs)),
        forall|y: SocketAddress| #[trigger] remove_each(peers, xs).contains(y) ==> peers.contains(y),
    decreases xs.len(),
{
    if xs.len() > 0 {
        lemma_remove_each_well_formed(address, peers, xs.drop_last());
        lemma_without_first_well_formed(address, remove_each(peers, xs.drop_last()), xs.last());
    }
}

/// Removing the first occurrence of `x`, found at index `i`.
pub proof fn lemma_without_first_at(s: Seq<SocketAddress>, x: SocketAddress, i: int)
    requires
        0 <= i < s.len(),
        s[i] == x,
        forall|j: int| 0 <= j < i ==> s[j] != x,
    ensures
        without_first(s, x) == s.remove(i),
    decreases i,
{
    if i == 0 {
        assert(s.drop_first() =~= s.remove(0));
    } else {
        let t = s.drop_first();
        assert forall|j: int| 0 <= j < i - 1 implies t[j] != x by {
            assert(t[j] == s[j + 1]);
        }
        lemma_without_first_at(t, x, i - 1);
        assert(seq![s[0]] + t.remove(i - 1) =~= s.remove(i));
    }
}

/// Removing an element that does not occur changes nothing.
pub proof fn lemma_without_first_absent(s: Seq<SocketAddress>, x: SocketAddress)
    requires
        forall|j: int| 0 <= j < s.len() ==> s[j] != x,
    ensures
        without_first(s, x) == s,
    decreases s.len(),
{
    if s.len() > 0 {
        let t = s.drop_first();
        assert forall|j: int| 0 <= j < t.len() implies t[j] != x by {
            assert(t[j] == s[j + 1]);
        }
        lemma_without_first_absent(t, x);
        assert(seq![s[0]] + t =~= s);
    }
}

} // verus!
