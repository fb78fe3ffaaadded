//! A node of a small peer-to-peer network: it keeps the addresses of its peers,
//! announces new peers, greets its peers, learns the peers of its peers and drops the
//! peers that stop answering. The library holds the node's state and every decision
//! of the protocol; the program around it performs the HTTP requests and hands their
//! replies back.

pub mod actions;
pub mod address;
pub mod cli_opts;
pub mod laws;
pub mod listener;
pub mod node;
pub mod server;
pub mod text;
