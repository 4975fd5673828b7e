# kovanica

A DAG-based ledger, verified with Verus: a BlockDAG whose blocks name several
parents, ordered by GHOSTDAG, with a UTXO ledger applied in that order.

## Layout

- `src/` is the verified library. Every executable function carries a
  `requires`/`ensures` contract that Verus proves.
  - `block`, `bytes`, `crypto`: blocks, their canonical encoding and BLAKE3
    ids; little-endian integer encodings; the trusted wrappers around the
    `blake3` and `ed25519-dalek` crates.
  - `graph`, `reachability`, `ghostdag`, `dag`, `ordering`: the block DAG,
    its ancestry oracle (interval labels plus future-covering sets), the
    GHOSTDAG k-cluster colouring, the selected chain and the deterministic
    linearization.
  - `tx`, `payload`, `keys`, `utxo`, `ledger`: transactions and their
    encoding, payload decoding, Ed25519 key pairs, the UTXO set, the state
    transition and the per-block-view ledger.
  - `snapshot`, `replay`: the replay-log snapshot of a ledger and loading it
    back; a DAG's derived data, and so every check a block meets, is
    determined by the blocks before it.
  - `reorder`: insertion order does not matter; two DAGs holding the same
    blocks, added in different orders, give every block the same GHOSTDAG
    data and derive the same linearization and ledger state.
  - `mempool`, `node`, `origin`, `net`: the node's pending pool, its
    operations, its declared origin and the origins it has seen, and block
    exchange between nodes.
  - `command`, `text`, `rpc`: the line protocol: parsing a command line,
    rendering numbers and ids, and running a line against a node.
  - `laws`: properties that span several functions, stated and proved.
- `tests/` exercises the library on concrete values.
- `app/` is the `kovanica` binary: a line-command REPL (`serve`) and a
  scripted scenario (`demo`), with the file reads and writes that `save` and
  `load` ask for.
