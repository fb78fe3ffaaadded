use p2p::address::SocketAddress;
use p2p::node::Node;

fn addr(s: &str) -> SocketAddress {
    SocketAddress::parse(s).unwrap()
}

#[test]
fn new_creates_new_node() {
    let address = addr("127.0.0.1:8080");

    let node = Node::new(address.clone());

    let expected_node = Node { address: address, peers: vec![] };
    assert_eq!(expected_node, node)
}

#[test]
fn add_peer_adds_new_peer() {
    let node_address = addr("127.0.0.1:8080");
    let peer_address = addr("127.0.0.1:8081");
    let mut node = Node::new(node_address.clone());

    node.add_peer(peer_address.clone());

    let expected_node = Node { address: node_address, peers: vec![peer_address] };
    assert_eq!(expected_node, node)
}

#[test]
fn peer_exists_returns_true_if_node_address_is_passed() {
    let node_address = addr("127.0.0.1:8080");
    let node = Node::new(node_address.clone());

    assert!(node.peer_exists(&node_address));
}

#[test]
fn peer_exists_returns_true_if_peer_exists() {
    let node_address = addr("127.0.0.1:8080");
    let peer_address = addr("127.0.0.1:8081");
    let mut node = Node::new(node_address.clone());
    node.add_peer(peer_address.clone());

    assert!(node.peer_exists(&peer_address));
}

#[test]
fn peer_exists_returns_false_if_peer_does_not_exist() {
    let node_address = addr("127.0.0.1:8080");
    let peer_address = addr("127.0.0.1:8081");
    let node = Node::new(node_address.clone());

    assert!(!node.peer_exists(&peer_address));
}

#[test]
fn remove_peer_removes_only_the_first_occurrence() {
    let a = addr("127.0.0.1:1");
    let b = addr("127.0.0.1:2");
    let mut node = Node { address: addr("127.0.0.1:8080"), peers: vec![a, b, a] };

    node.remove_peer(&a);

    assert_eq!(vec![b, a], node.peers);
}

#[test]
fn remove_peer_of_an_unknown_address_changes_nothing() {
    let a = addr("127.0.0.1:1");
    let mut node = Node { address: addr("127.0.0.1:8080"), peers: vec![a] };

    node.remove_peer(&addr("127.0.0.1:2"));

    assert_eq!(vec![a], node.peers);
}

#[test]
fn removed_peer_is_no_longer_known() {
    let a = addr("127.0.0.1:1");
    let mut node = Node::new(addr("127.0.0.1:8080"));
    node.add_peer(a);
    node.remove_peer(&a);

    assert!(!node.peer_exists(&a));
}

#[test]
fn remove_peers_removes_each_in_turn() {
    let a = addr("127.0.0.1:1");
    let b = addr("127.0.0.1:2");
    let c = addr("127.0.0.1:3");
    let mut node = Node { address: addr("127.0.0.1:8080"), peers: vec![a, b, c] };

    node.remove_peers(&vec![c, a]);

    assert_eq!(vec![b], node.peers);
}

#[test]
fn add_if_unknown_skips_own_and_known_addresses() {
    let own = addr("127.0.0.1:8080");
    let a = addr("127.0.0.1:1");
    let mut node = Node::new(own);

    node.add_if_unknown(own);
    node.add_if_unknown(a);
    node.add_if_unknown(a);

    assert_eq!(vec![a], node.peers);
}
