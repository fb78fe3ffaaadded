use p2p::actions::{add_peer, broadcast_peer, return_peers, send_whisper, Method, Reply};
use p2p::address::SocketAddress;
use p2p::cli_opts::{create_new_node, local_node_address, CliOpts};
use p2p::listener::{self, ListenerRoute};
use p2p::node::Node;
use p2p::server::{self, Route};

fn addr(s: &str) -> SocketAddress {
    SocketAddress::parse(s).unwrap()
}

fn pong_reply() -> Reply {
    Reply::Received { status: 200, body: "pong".to_string(), detail: String::new() }
}

#[test]
fn ping_returns_pong() {
    assert_eq!(Route::Ping, server::route("GET", "/ping"));

    let response = server::pong();

    assert_eq!(200, response.status);
    assert_eq!("pong", response.body);
}

#[test]
fn connect_broadcasts_and_adds_peer() {
    let peer = addr("127.0.0.1:9101");
    let peer1 = addr("127.0.0.1:9102");
    let node_address = addr("127.0.0.1:8084");
    let mut node = Node { address: node_address, peers: vec![peer1] };

    assert_eq!(Route::Connect, server::route("POST", "/connect"));
    let address = SocketAddress::parse(&peer.to_string()).unwrap();
    let replies = vec![Reply::Received { status: 200, body: String::new(), detail: String::new() }];
    let result = broadcast_peer::call(&mut node, &address, &replies, &pong_reply());
    let response = server::answer(&result);

    assert_eq!(200, response.status);
    assert_eq!(vec![peer1, peer], node.peers);
}

#[test]
fn add_peer_adds_peer() {
    let peer = addr("127.0.0.1:9103");
    let node_address = addr("127.0.0.1:8085");
    let mut node = Node { address: node_address, peers: vec![] };

    assert_eq!(Route::AddPeer, server::route("POST", "/add_peer"));
    let potential_peer = SocketAddress::parse(&peer.to_string()).unwrap();
    let result = add_peer::call(&mut node, &potential_peer, &pong_reply());
    let response = server::answer(&result);

    assert_eq!(200, response.status);
    assert_eq!(vec![peer], node.peers);
}

#[test]
fn fetch_peers_returns_peers() {
    let node_address = addr("127.0.0.1:8090");
    let peers: Vec<SocketAddress> = vec![addr("127.0.0.1:8086"), addr("127.0.0.1:8087")];
    let node = Node { address: node_address, peers: peers.clone() };

    assert_eq!(Route::FetchPeers, server::route("GET", "/fetch_peers"));
    let body = return_peers::call(&node);
    let response = server::fetch_peers_response(&node);

    assert_eq!("127.0.0.1:8086,127.0.0.1:8087", body);
    assert_eq!(200, response.status);
    assert_eq!("127.0.0.1:8086,127.0.0.1:8087", response.body);
}

#[test]
fn whisper_returns_ok() {
    assert_eq!(Route::Whisper, server::route("GET", "/whisper"));
    assert_eq!(Route::Whisper, server::route("POST", "/whisper"));

    let response = server::ok_status();

    assert_eq!(200, response.status);
}

#[test]
fn other_requests_are_not_found() {
    assert_eq!(Route::NotFound, server::route("POST", "/ping"));
    assert_eq!(Route::NotFound, server::route("GET", "/connect"));
    assert_eq!(Route::NotFound, server::route("GET", "/"));
    assert_eq!(Route::NotFound, server::route("DELETE", "/whisper"));
    assert_eq!(Route::NotFound, server::route("POST", "/fetch_peers"));
    assert_eq!(404, server::not_found().status);
}

#[test]
fn failed_action_answers_bad_request() {
    let result = Err(p2p::actions::Error { msg: "Failed to receive pong".to_string() });
    let response = server::answer(&result);
    assert_eq!(400, response.status);
    assert_eq!("", response.body);
    assert_eq!(400, server::error_status().status);
}

#[test]
fn listener_routes() {
    assert_eq!(ListenerRoute::Pong, listener::route("GET", "/ping"));
    assert_eq!(ListenerRoute::Pong, listener::route("POST", "/connect"));
    assert_eq!(ListenerRoute::AddPeer, listener::route("POST", "/add_peer"));
    assert_eq!(ListenerRoute::Pong, listener::route("GET", "/get_peers"));
    assert_eq!(ListenerRoute::Pong, listener::route("GET", "/whisper"));
    assert_eq!(ListenerRoute::Echo, listener::route("POST", "/echo"));
    assert_eq!(ListenerRoute::EchoUppercase, listener::route("POST", "/echo/uppercase"));
    assert_eq!(ListenerRoute::EchoReversed, listener::route("POST", "/echo/reversed"));
    assert_eq!(ListenerRoute::NotFound, listener::route("GET", "/echo"));
}

#[test]
fn listener_echoes_in_upper_case_and_reversed() {
    assert_eq!(b"HELLO, WORLD 42!".to_vec(), listener::uppercase(&b"Hello, world 42!".to_vec()));
    assert_eq!(b"cba".to_vec(), listener::reversed(&b"abc".to_vec()));
    assert!(listener::reversed(&vec![]).is_empty());
}

#[test]
fn listener_accepts_a_peer_once() {
    let own = addr("127.0.0.1:8080");
    let peer = addr("127.0.0.1:8081");
    let mut node = Node::new(own);

    listener::accept_peer(&mut node, &peer);
    listener::accept_peer(&mut node, &peer);
    listener::accept_peer(&mut node, &own);

    assert_eq!(vec![peer], node.peers);
}

#[test]
fn new_node_serves_on_the_local_host() {
    let opts = CliOpts { period: 6, port: "4000".to_string(), connect: None };
    assert_eq!(Some(addr("127.0.0.1:4000")), local_node_address(&opts.port));
    let node = create_new_node(&opts);
    assert_eq!(addr("127.0.0.1:4000"), node.address);
    assert!(node.peers.is_empty());

    assert!(local_node_address("port").is_none());
    assert!(local_node_address("70000").is_none());
    assert!(local_node_address("").is_none());
}

#[test]
fn greetings_reach_the_whisper_endpoint() {
    let node = Node { address: addr("127.0.0.1:8080"), peers: vec![addr("127.0.0.1:8081")] };
    let requests = send_whisper::requests(&node);
    assert_eq!(Method::Post, requests[0].method);
    let path = requests[0].url.trim_start_matches("http://127.0.0.1:8081");
    assert_eq!(Route::Whisper, server::route("POST", path));
    assert_eq!(200, server::ok_status().status);
}

#[test]
fn listener_answers_each_route() {
    let body = b"Hi there".to_vec();
    let a = listener::answer(ListenerRoute::Pong, &body);
    assert_eq!((200, b"pong".to_vec()), (a.status, a.body));
    let a = listener::answer(ListenerRoute::AddPeer, &body);
    assert_eq!((200, b"ok".to_vec()), (a.status, a.body));
    let a = listener::answer(ListenerRoute::Echo, &body);
    assert_eq!((200, b"Hi there".to_vec()), (a.status, a.body));
    let a = listener::answer(ListenerRoute::EchoUppercase, &body);
    assert_eq!((200, b"HI THERE".to_vec()), (a.status, a.body));
    let a = listener::answer(ListenerRoute::EchoReversed, &body);
    assert_eq!((200, b"ereht iH".to_vec()), (a.status, a.body));
    let a = listener::answer(ListenerRoute::NotFound, &body);
    assert_eq!((404, Vec::new()), (a.status, a.body));
}

#[test]
fn node_description_shows_addresses_as_text() {
    let mut node = Node::new(addr("127.0.0.1:8080"));
    assert_eq!("Node { address: 127.0.0.1:8080, peers: [] }", node.describe());
    node.add_peer(addr("127.0.0.1:8081"));
    node.add_peer(addr("[::1]:8082"));
    assert_eq!("Node { address: 127.0.0.1:8080, peers: [127.0.0.1:8081, [::1]:8082] }", node.describe());
}
