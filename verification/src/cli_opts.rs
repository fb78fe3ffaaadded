use vstd::prelude::*;
use vstd::string::StringExecFns;

use crate::address::{address_of, SocketAddress};
use crate::node::Node;

verus! {

/// The options of the program: the period of the greetings in seconds, the port of
/// the node's server and, optionally, the address of a bootnode to join through.
#[derive(Debug, PartialEq)]
pub struct CliOpts {
    pub period: u64,
    pub port: String,
    pub connect: Option<String>,
}

/// The address of the node that serves on `port` of the local host.
pub open spec fn local_address(port: Seq<char>) -> Option<SocketAddress> {
    address_of("127.0.0.1:"@ + port)
}

/// The address `127.0.0.1:<port>`; `None` where that is no valid address (a port that
/// is no decimal number up to 65535).
pub fn local_node_address(port: &str) -> (r: Option<SocketAddress>)
    ensures
        r == local_address(port@),
{
    let mut text = String::from_str("127.0.0.1:");
    text.append(port);
    SocketAddress::parse(text.as_str())
}

/// The node of these options: at `127.0.0.1:<port>`, with no peers. The port must make
/// a valid address (see `local_node_address`).
pub fn create_new_node(opts: &CliOpts) -> (node: Node)
    requires
        local_address(opts.port@) is Some,
    ensures
        node.address == local_address(opts.port@).unwrap(),
        node.peers@.len() == 0,
        node.well_formed(),
{
    Node::new(local_node_address(opts.port.as_str()).unwrap())
}

} // verus!
