# taostorage

A personal data store and peer-to-peer storage node. Data lives in
content-addressed units (payload, metadata and a lifecycle stage), is
erasure-coded into shard groups for the network, and is found again by key,
tag, full-text search or a small query language. Invitation codes and
reputation, version history, backups and a JSON-RPC tool interface sit on
top.

Layout:

- `src/` — the library, written in Verus. Every function carries a contract
  that Verus proves: units and their integrity check, the Reed-Solomon
  codec's shard layout and decoding, the lifecycle rules, reputation and
  invitation bookkeeping, community contracts and storage challenges, the
  history store, search, the query language, the tag index key format and
  tag cloud, backups, the tool server's replies and the wire framing.
  Calls into outside crates (hashing, hex and Base58 text, the erasure
  codec, encryption, the clock and the random source, the WASM engine) go
  through small trusted wrappers whose contracts say what those crates do.
- `tests/` — tests of the library.
- `app/` — the `tao` program: command line, files and the sled stores,
  the HTTP service, the libp2p network and the tool server's I/O. It calls
  the library for the data decisions (search, queries, erasure decoding,
  invitations, history); the peer and waiter bookkeeping of the network
  event loops stays in `app/`.

Design notes:

- Tables keyed by node id, key text or code text (invitation codes and
  reputations, version histories, the reputation table, the DHT name
  cache, contract signatures) are held as vectors of `(key, value)` pairs
  with a well-formedness predicate that no key occurs twice. The standard
  hash maps' contracts in vstd only give results for keys whose equality
  Verus can read off the key type, which a `String` key does not offer;
  a keyed vector lets every lookup and update be proved against a plain
  `Seq` model.
- WebAssembly rules run with fuel metering, so a call that never ends is
  stopped and reported as an error instead of hanging the node.
