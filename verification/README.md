# mempool_sync

The verified core of a mempool synchronization gadget for Bitcoin nodes.
Gadgets exchange odd sketches of their mempools' short transaction ids to
estimate how far the mempools differ, then minisketches to find the
differing ids, then the missing transactions.

- `src/oddsketch.rs`: the odd sketch (a 2048-bit parity sketch), with laws:
  insertion is an involution and commutes, exclusive or of two sets'
  sketches is the sketch of their symmetric difference, insertion changes
  the weight by one, the weight after any inserts counts the slots hit an
  odd number of times, and the exclusive or of two insert sequences'
  sketches is the sketch of both sequences in turn.
- `src/messages.rs`: the wire codec, specified by `encoding` and
  `decode_spec`, with the round-trip law and the law that partial messages
  decode as incomplete; transactions travel as their consensus bytes.
- `src/mempool.rs`: the transaction pool by short id and its odd sketch,
  kept in step by insertion; every transaction is held under its own short
  id, and the first of two with one short id is kept. A pool is filled from
  the node's raw transactions, as bytes or as hexadecimal text.
- `src/endian.rs`: big-endian reading and writing.
- `src/transaction.rs`: `Tx`, a transaction held as its consensus bytes
  together with the decoded rust-bitcoin value, and the calls into
  rust-bitcoin with what they are trusted to do.
- `src/hex_text.rs`: hexadecimal text, decoded by the `hex` crate.
- `app/`: the program: command line, logging, JSON-RPC and ZeroMQ with the
  node, TCP with peers, the minisketch, and the size estimate of an odd
  sketch, which takes floating-point logarithms.
