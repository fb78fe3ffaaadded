# p2p

A node of a small peer-to-peer network whose protocol runs over HTTP. Every node
serves `/ping`, `/connect`, `/add_peer`, `/fetch_peers` and `/whisper`; it greets its
peers every few seconds, asks them for their peers every ten seconds, announces new
peers to the network and drops the peers that stop answering.

Layout:

- `src/` is the library, verified with Verus: the node and its peer list
  (`node`), socket addresses with their text form (`address`, `text`), every
  decision of the protocol (`actions`: which requests to send, and what the replies
  do to the node), the routing of the servers (`server`, `listener`), the options
  (`cli_opts`) and the laws that tie the operations together (`laws`).
- `app/` is the program around it: the command line, the HTTP client and servers,
  the timers and the shared node. It performs the requests that the library asks
  for and hands the replies back.
- `tests/` runs the library on concrete values.

Run a node with `--period <seconds> --port <port>` and optionally
`--connect <address of a running node>`.
