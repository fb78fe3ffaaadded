use vstd::prelude::*;

use crate::actions::ping::{self, ping_failure};
use crate::actions::{Error, Reply};
use crate::address::SocketAddress;
use crate::node::{added, Node};

verus! {

/// Adds `address` to the peers of `node` once its ping has been answered: `ping` is
/// the reply to the ping of `address` (see `ping::request`). Where the ping fails,
/// the node is left as it was and the ping's error comes back; otherwise the address
/// is added unless the node knows it already.
pub fn call(node: &mut Node, address: &SocketAddress, ping: &Reply) -> (r: Result<(), Error>)
    ensures
        final(node).address == old(node).address,
        match ping_failure(*ping) {
            None => r is Ok && final(node).peers@ == added(
                old(node).address,
                old(node).peers@,
                *address,
            ),
            Some(m) => r matches Err(e) && e.msg@ == m && final(node).peers@ == old(node).peers@,
        },
        old(node).well_formed() ==> final(node).well_formed(),
{
    ping::call(ping)?;
    proof {
        crate::node::lemma_added_well_formed(node.address, node.peers@, *address);
    }
    node.add_if_unknown(*address);
    Ok(())
}

} // verus!
