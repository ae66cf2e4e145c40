//! Bitwise representation of small higher-order motifs: node sets, edge tables,
//! compressed motifs, fingerprints and the supporting combinatorics.

pub mod bits;
pub mod node_set;
pub mod motif;
pub mod tables;
pub mod util;
pub mod heap;
pub mod motif_ops;
pub mod connectivity;
pub mod sorting_network;
pub mod histogram;
pub mod subsets;
pub mod fingerprint;
pub mod cross_edges;
pub mod fingerprint5;
pub mod lex;
pub mod hypergraph;
pub mod motifs;
pub mod canonical;
pub mod collections;
pub mod relabel;
pub mod invariance;
pub mod iota;
pub mod isomorphism;
pub mod cache;
pub mod network_order;
