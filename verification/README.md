# badger_chain

The decision logic of a Honey Badger BFT blockchain node and of its runtime
modules, written in Verus and proved against its contracts.

- `src/` is the verified library. Network peers, authority keys, block
  hashes and message hashes are carried as `u64` handles; cryptography,
  hashing and encodings of outside crates (`threshold_crypto`, `hbbft`,
  `sha2`, `lru`, `hex`, `bincode`, `parity-scale-codec`) are reached through
  a few trusted wrappers whose contracts say what the library relies on.
  - `consensus`: the gossip decisions of the consensus node (sessions, sync
    reports, key-generation and consensus payloads, justifications), the
    replay of messages that came too early, and justification collection.
  - `keygen`: the agreed order in which the genesis key generation handles
    `Part` and `Ack` messages.
  - `routing`, `gossip`, `known_cache`, `peers`, `node_peers`: where
    messages go, what waits for absent peers, and the peer registries.
  - `blocks`, `import_changes`, `persistence`: batches to blocks, imported
    blocks, set changes and the data kept between runs.
  - `config`: the node configuration read from a parsed document.
  - `htlc`, `mpc`, `validators`, `keygen_results`: the runtime modules
    (token HTLCs, signing requests, validator-set votes, key-generation
    results), with their laws as proof functions.
  - `keygen_peers`, `signer`, `storage_keys`, `mpc_messages`: the MPC
    key-generation service's peers, round bookkeeping, messages and
    offchain storage keys.
- `tests/` exercises the library on concrete values.
- `app/` is the unverified edge: reading the configuration file and the
  stored data, serde forms of messages, and the loops that alternate library
  decisions with outside work (message replay, key generation, block
  building and finalization, justification).
