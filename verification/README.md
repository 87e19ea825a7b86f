# vprogs

Verified core of a rollup node: snapshots of its state, the index of permission outputs, and the
authenticated trees behind them. The library under `src/` is verified with Verus; `app/` holds the
file, channel and lock handling around it.

| module | what it holds |
| --- | --- |
| `bytes`, `text` | byte strings, fixed-width numbers, their order, and numbers as text |
| `assoc` | a small map whose keys are compared one by one |
| `hashing` | hash functions; SHA-256 |
| `smt::key`, `smt::node` | positions, nodes and node hashes of the sparse Merkle tree |
| `smt::builder`, `smt::sort` | bulk loading of the tree from its leaves |
| `storage` | write batches, stores, and a store in memory |
| `snapshot::container` | the file format of a snapshot |
| `snapshot::header` | the header of a snapshot |
| `snapshot::rebuild` | the state root of a list of records |
| `snapshot::source`, `snapshot::save` | the state as of the latest settlement, and its snapshot |
| `exit_index` | permission outputs, kept in step with settlements and spends |
| `permission_tree`, `permission_tree_view` | the permission tree over exits |
| `indexer` | hooks for secondary indexes |
| `l1` | what the node learns from the base chain |
