use p2p::actions::connect::{self, Connect, Step};
use p2p::actions::{
    add_peer, broadcast_peer, ping, return_peers, send_whisper, sync_peers, Error, Method, Reply,
};
use p2p::address::SocketAddress;
use p2p::node::Node;

fn addr(s: &str) -> SocketAddress {
    SocketAddress::parse(s).unwrap()
}

fn ok(body: &str) -> Reply {
    Reply::Received { status: 200, body: body.to_string(), detail: "Response { status: 200 }".to_string() }
}

fn status(code: u16) -> Reply {
    Reply::Received { status: code, body: String::new(), detail: format!("Response {{ status: {} }}", code) }
}

fn unreachable() -> Reply {
    Reply::Failed {
        message: "ConnectFailed: failed to connect to the server".to_string(),
        detail: "ConnectFailed".to_string(),
    }
}

fn pong() -> Reply {
    ok("pong")
}

#[test]
fn ping_call_returns_success() {
    let server = addr("127.0.0.1:9001");
    let request = ping::request(&server);
    assert_eq!(Method::Get, request.method);
    assert_eq!("http://127.0.0.1:9001/ping", request.url);

    let result = ping::call(&pong());

    assert_eq!(Ok(()), result);
}

#[test]
fn call_returns_failure_if_address_is_not_available() {
    let result = ping::call(&unreachable());

    assert_eq!(
        Err(Error { msg: "ConnectFailed: failed to connect to the server".to_string() }),
        result
    );
}

#[test]
fn ping_with_another_body_or_status_fails() {
    let expected = Err(Error { msg: "Failed to receive pong".to_string() });
    assert_eq!(expected, ping::call(&ok("ping")));
    assert_eq!(expected, ping::call(&Reply::Received {
        status: 500,
        body: "pong".to_string(),
        detail: String::new(),
    }));
}

#[test]
fn add_peer_call_returns_success() {
    let server = addr("127.0.0.1:9002");
    let address = addr("127.0.0.1:8080");
    let mut node = Node::new(address);

    let result = add_peer::call(&mut node, &server, &pong());

    assert_eq!(Ok(()), result);
    let expected_result: Vec<SocketAddress> = vec![server];
    assert_eq!(expected_result, node.peers);
}

#[test]
fn call_fails_to_add_peer() {
    let address1 = addr("127.0.0.1:8080");
    let address2 = addr("127.0.0.1:8081");
    let mut node = Node::new(address1);

    let result = add_peer::call(&mut node, &address2, &unreachable());

    assert_eq!(
        Err(Error { msg: "ConnectFailed: failed to connect to the server".to_string() }),
        result
    );
    let expected_result: Vec<SocketAddress> = vec![];
    assert_eq!(expected_result, node.peers);
}

#[test]
fn add_peer_skips_a_known_address() {
    let own = addr("127.0.0.1:8080");
    let mut node = Node::new(own);

    assert_eq!(Ok(()), add_peer::call(&mut node, &own, &pong()));
    assert!(node.peers.is_empty());
}

#[test]
fn broadcast_peer_call_returns_success() {
    let new_peer = addr("127.0.0.1:9003");
    let old_peer = addr("127.0.0.1:9004");
    let address = addr("127.0.0.1:8080");
    let mut node = Node { address: address, peers: vec![old_peer] };

    let requests = broadcast_peer::requests(&node, &new_peer);
    assert_eq!(1, requests.len());
    assert_eq!(Method::Post, requests[0].method);
    assert_eq!("http://127.0.0.1:9004/add_peer", requests[0].url);
    assert_eq!("127.0.0.1:9003", requests[0].body);

    let result = broadcast_peer::call(&mut node, &new_peer, &vec![status(200)], &pong());

    assert_eq!(Ok(()), result);
    let expected_result: Vec<SocketAddress> = vec![old_peer, new_peer];
    assert_eq!(expected_result, node.peers);
}

#[test]
fn broadcast_peer_call_removes_peer_if_fails_to_respond() {
    let new_peer = addr("127.0.0.1:9005");
    let old_peer_address = addr("127.0.0.2:8080");
    let address = addr("127.0.0.1:8080");
    let mut node = Node { address: address, peers: vec![old_peer_address] };

    let result = broadcast_peer::call(&mut node, &new_peer, &vec![unreachable()], &pong());

    assert_eq!(Ok(()), result);
    let expected_result: Vec<SocketAddress> = vec![new_peer];
    assert_eq!(expected_result, node.peers);
}

#[test]
fn broadcast_peer_drops_a_peer_answering_another_status_and_reports_a_failed_ping() {
    let new_peer = addr("127.0.0.1:9006");
    let a = addr("127.0.0.1:1");
    let b = addr("127.0.0.1:2");
    let mut node = Node { address: addr("127.0.0.1:8080"), peers: vec![a, b] };

    let result = broadcast_peer::call(&mut node, &new_peer, &vec![status(404), status(200)], &unreachable());

    assert_eq!(
        Err(Error { msg: "ConnectFailed: failed to connect to the server".to_string() }),
        result
    );
    assert_eq!(vec![b], node.peers);
}

#[test]
fn call_adds_peers_and_sync_peers() {
    let new_peer1 = addr("127.0.0.1:9007");
    let new_peer2 = addr("127.0.0.1:9008");
    let address = addr("127.0.0.1:8080");
    let mut node = Node { address: address, peers: vec![] };

    let (stage, step) = connect::call(&node, &new_peer1);
    let requests = match step {
        Step::Send(requests) => requests,
        Step::Done(_) => panic!("connect ended before it began"),
    };
    assert_eq!(1, requests.len());
    assert_eq!(Method::Post, requests[0].method);
    assert_eq!("http://127.0.0.1:9007/connect", requests[0].url);
    assert_eq!("127.0.0.1:8080", requests[0].body);

    // The bootnode accepts the connection.
    let (stage, step) = stage.resume(&mut node, &vec![status(200)]);
    let requests = match step {
        Step::Send(requests) => requests,
        Step::Done(_) => panic!("connect ended early"),
    };
    assert_eq!("http://127.0.0.1:9007/ping", requests[0].url);

    // The bootnode answers its ping.
    let (stage, step) = stage.resume(&mut node, &vec![pong()]);
    let requests = match step {
        Step::Send(requests) => requests,
        Step::Done(_) => panic!("connect ended early"),
    };
    assert_eq!(vec![new_peer1], node.peers);
    assert_eq!(1, requests.len());
    assert_eq!("http://127.0.0.1:9007/fetch_peers", requests[0].url);

    // The bootnode serves its peers.
    let (stage, step) = stage.resume(&mut node, &vec![ok(&new_peer2.to_string())]);
    let requests = match step {
        Step::Send(requests) => requests,
        Step::Done(_) => panic!("connect ended early"),
    };
    assert_eq!(1, requests.len());
    assert_eq!("http://127.0.0.1:9008/ping", requests[0].url);

    // The new peer answers its ping.
    let (stage, step) = stage.resume(&mut node, &vec![pong()]);
    let result = match step {
        Step::Done(result) => result,
        Step::Send(_) => panic!("connect did not end"),
    };

    assert_eq!(Ok(()), result);
    assert!(matches!(stage, Connect::Finished));
    let expected_result: Vec<SocketAddress> = vec![new_peer1, new_peer2];
    assert_eq!(expected_result, node.peers);
}

#[test]
fn connect_refused_by_the_bootnode_fails() {
    let bootnode = addr("127.0.0.1:9009");
    let mut node = Node::new(addr("127.0.0.1:8080"));

    let (stage, _) = connect::call(&node, &bootnode);
    let (stage, step) = stage.resume(&mut node, &vec![status(500)]);

    match step {
        Step::Done(result) => assert_eq!(
            Err(Error { msg: "Failed to connect to bootnode Response { status: 500 }".to_string() }),
            result
        ),
        Step::Send(_) => panic!("connect went on"),
    }
    assert!(matches!(stage, Connect::Finished));
    assert!(node.peers.is_empty());
}

#[test]
fn connect_to_an_unanswering_bootnode_fails_with_the_ping_error() {
    let bootnode = addr("127.0.0.1:9010");
    let mut node = Node::new(addr("127.0.0.1:8080"));

    let (stage, _) = connect::call(&node, &bootnode);
    let (stage, _) = stage.resume(&mut node, &vec![status(200)]);
    let (_, step) = stage.resume(&mut node, &vec![unreachable()]);

    match step {
        Step::Done(result) => assert_eq!(
            Err(Error { msg: "ConnectFailed: failed to connect to the server".to_string() }),
            result
        ),
        Step::Send(_) => panic!("connect went on"),
    }
    assert!(node.peers.is_empty());
}

#[test]
fn call_returns_peers_string() {
    let address = addr("127.0.0.1:8080");
    let peer_address1 = addr("127.0.0.1:8081");
    let peer_address2 = addr("127.0.0.1:8082");
    let node = Node { address: address, peers: vec![peer_address1, peer_address2] };

    let result = return_peers::call(&node);

    assert_eq!("127.0.0.1:8081,127.0.0.1:8082".to_string(), result);
}

#[test]
fn return_peers_of_a_node_without_peers_is_empty() {
    let node = Node::new(addr("127.0.0.1:8080"));
    assert_eq!("", return_peers::call(&node));
}

#[test]
fn send_whisper_call_returns_success() {
    let peer = addr("127.0.0.1:9011");
    let address = addr("127.0.0.1:8080");
    let mut node = Node { address: address, peers: vec![peer] };

    let requests = send_whisper::requests(&node);
    assert_eq!(1, requests.len());
    assert_eq!(Method::Post, requests[0].method);
    assert_eq!("http://127.0.0.1:9011/whisper", requests[0].url);
    assert_eq!("hello from 127.0.0.1:8080", requests[0].body);

    let result = send_whisper::call(&mut node, &vec![status(200)]);

    assert_eq!(Ok(()), result);
    let expected_result: Vec<SocketAddress> = vec![peer];
    assert_eq!(expected_result, node.peers);
}

#[test]
fn send_whisper_call_removes_peer_if_fails_to_respond() {
    let old_peer_address = addr("127.0.0.2:8080");
    let address = addr("127.0.0.1:8080");
    let mut node = Node { address: address, peers: vec![old_peer_address] };

    let result = send_whisper::call(&mut node, &vec![unreachable()]);

    assert_eq!(Ok(()), result);
    let expected_result: Vec<SocketAddress> = vec![];
    assert_eq!(expected_result, node.peers);
}

#[test]
fn call_adds_two_peers() {
    let new_peer1 = addr("127.0.0.1:9012");
    let new_peer2 = addr("127.0.0.1:9013");
    let old_peer = addr("127.0.0.1:9014");
    let address = addr("127.0.0.1:8080");
    let mut node = Node { address: address, peers: vec![old_peer] };

    let requests = sync_peers::requests(&node);
    assert_eq!(1, requests.len());
    assert_eq!(Method::Get, requests[0].method);
    assert_eq!("http://127.0.0.1:9014/fetch_peers", requests[0].url);

    let replies = vec![ok(&format!("{},{}", new_peer1.to_string(), new_peer2.to_string()))];
    let found = sync_peers::found_peers(&replies);
    assert_eq!(vec![new_peer1, new_peer2], found);
    let pings = vec![pong(), pong()];

    let result = sync_peers::call(&mut node, &replies, &pings);

    assert_eq!(Ok(()), result);
    let expected_result: Vec<SocketAddress> = vec![old_peer, new_peer1, new_peer2];
    assert_eq!(expected_result, node.peers);
}

#[test]
fn call_removes_peers_that_fails_to_return_peers() {
    let address = addr("127.0.0.1:8080");
    let peer_address = addr("127.0.0.1:8081");
    let mut node = Node { address: address, peers: vec![peer_address] };

    let replies = vec![unreachable()];
    assert!(sync_peers::found_peers(&replies).is_empty());
    let result = sync_peers::call(&mut node, &replies, &vec![]);

    assert_eq!(Ok(()), result);
    let expected_result: Vec<SocketAddress> = vec![];
    assert_eq!(expected_result, node.peers);
}

#[test]
fn sync_skips_own_known_and_unanswering_addresses() {
    let own = addr("127.0.0.1:8080");
    let a = addr("127.0.0.1:1");
    let b = addr("127.0.0.1:2");
    let c = addr("127.0.0.1:3");
    let mut node = Node { address: own, peers: vec![a] };

    let replies = vec![ok("127.0.0.1:8080,127.0.0.1:1,127.0.0.1:2,127.0.0.1:3")];
    let found = sync_peers::found_peers(&replies);
    assert_eq!(vec![own, a, b, c], found);
    let pings = vec![pong(), pong(), unreachable(), pong()];

    assert_eq!(Ok(()), sync_peers::call(&mut node, &replies, &pings));
    assert_eq!(vec![a, c], node.peers);
}

#[test]
fn parse_peers_skips_pieces_that_are_no_address() {
    let peers = sync_peers::parse_peers("127.0.0.1:1,,garbage,[::1]:2,300.0.0.1:3");
    assert_eq!(vec![addr("127.0.0.1:1"), addr("[::1]:2")], peers);
    assert!(sync_peers::parse_peers("").is_empty());
}

#[test]
fn served_peers_are_read_back_unchanged() {
    let node = Node {
        address: addr("127.0.0.1:8080"),
        peers: vec![addr("127.0.0.1:8081"), addr("[fe80::1%3]:8082"), addr("10.0.0.255:65535")],
    };

    let text = return_peers::call(&node);

    assert_eq!(node.peers, sync_peers::parse_peers(&text));
}

#[test]
fn unanswering_peers_are_dropped_and_the_rest_keep_their_order() {
    let peers: Vec<SocketAddress> =
        (1..=5).map(|p| addr(&format!("127.0.0.1:{}", p))).collect();
    let mut node = Node { address: addr("127.0.0.1:8080"), peers: peers.clone() };
    let replies = vec![status(200), unreachable(), status(200), status(503), status(200)];

    assert_eq!(Ok(()), send_whisper::call(&mut node, &replies));

    assert_eq!(vec![peers[0], peers[2], peers[4]], node.peers);
}
