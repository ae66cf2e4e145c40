# bitmotif

Small higher-order motifs (orders 2 to 5) held as bits: a motif is the set of
its hyperedges, stored in one word; a node set is one byte. The library
enumerates connected motifs, computes fingerprints that do not change when
nodes are renamed, groups motifs into isomorphism classes, and finds canonical
representatives of hypergraphs. The functions in `src/` are verified with
Verus against their `requires` / `ensures` contracts; the calls into outside
crates (`hashbrown`, `foldhash`, `itertools`, `rkyv`) stand behind trusted
wrappers in `collections` and `cache`, whose contracts state what those
crates do.

## Layout

- `src/` — the verified library.
  - `bits`, `node_set`, `motif`, `motif_ops`, `tables`: words as sets, the
    hyperedge numbering of each order and its tables.
  - `connectivity`: connected motifs and the next connected labeling.
  - `histogram`, `fingerprint`, `cross_edges`, `fingerprint5`, `invariance`:
    fingerprints of orders 4 and 5, and the proof that renaming the nodes
    leaves them unchanged.
  - `relabel`, `isomorphism`: renaming the nodes of a motif, its class, one
    motif per class.
  - `lex`, `hypergraph`, `motifs`, `canonical`: hypergraphs as node lists,
    canonical representatives and the motif classes of an order.
  - `util`, `heap`, `sorting_network`, `subsets`: factorials, binomials,
    permutation numbering, Heap's algorithm, sorting networks.
  - `cache`: the bytes of the cache file of order-5 groups (through `rkyv`).
  - `iota`: the ranges of the `iota!` macro.
  - `collections`: the calls into `hashbrown`, `foldhash` and `itertools`,
    each behind a stated contract.
- `tests/` — tests of the library on concrete values.
- `app/` — the command-line driver: enumeration with progress output, the
  fingerprint buckets, the cache file on disk, and the token output of the
  macros.
