# hetero_rust

Metapath analysis of heterogeneous graphs, verified with Verus.

A heterogeneous graph holds one sparse adjacency matrix per edge type
(`source-target`). A metapath is a sequence of node layers; the library
counts the instances of a metapath in a graph (with a memo of partial
counts), and builds for every start node the set of nodes that the
metapath reaches from it, together with a feature aggregate over those
sets.

Layout:

- `src/matrix.rs`: CSR adjacency matrices, read from MatrixMarket bytes and
  built with `sprs`.
- `src/node_set.rs`: hash sets of typed nodes and per-layer feature maps,
  held in `hashbrown` collections.
- `src/node_types.rs`: the node layers of the benchmark datasets.
- `src/graph.rs`: the heterogeneous graph and its loading from the bytes of
  named subgraph files.
- `src/metapath.rs`: metapaths, instance counting and memory estimates.
- `src/tasks.rs`: the benchmark task list.
- `src/sim/`: context building (`design`, `mecch`) and aggregation
  (`design_agg`).
- `tests/`: tests of the library.
- `app/`: the command-line program: reading directories and files,
  logging, parallel runs and timing around the library.
