//! Overlap queries on compact motifs, and their node lists.

use vstd::prelude::*;

verus! {

use vstd::set_lib::set_int_range;
use crate::bits::{set32, set8, ordered, ordered_from, lemma_ordered_from_min, lemma_ordered_from_empty, lemma_set32_empty, lemma_clear_lowest, bit32};
use crate::node_set::{CompressedNodeSet, CompressetNodeSetIter, lemma_set8_range};
use crate::motif::CompactMotif;
use crate::tables::{edge_total, edge_nodes, is_node_map, is_full_overlaps, is_part_overlaps, lemma_edge_totals};

/// The hyperedges of order `n` that share at least one node with hyperedge `e`.
pub open spec fn part_set(n: nat, e: int) -> Set<int> {
    Set::new(|f: int| 0 <= f < edge_total(n) && !edge_nodes(n, f).disjoint(edge_nodes(n, e)))
}

/// The hyperedges of order `n` whose nodes all lie in hyperedge `e`.
pub open spec fn full_set(n: nat, e: int) -> Set<int> {
    Set::new(|f: int| 0 <= f < edge_total(n) && edge_nodes(n, f).subset_of(edge_nodes(n, e)))
}

/// The edge numbers that exist in order `n`.
pub open spec fn edge_range(n: nat) -> Set<int> {
    set_int_range(0, edge_total(n) as int)
}

/// A list of nodes, as the caller sees it.
pub open spec fn as_usizes(s: Seq<int>) -> Seq<usize> {
    s.map_values(|x: int| x as usize)
}

/// Lists the nodes of a set in increasing order.
pub fn node_list(set: CompressedNodeSet) -> (r: Vec<usize>)
    ensures
        r@ == as_usizes(ordered(set@)),
{
    let mut it = set.iter();
    let mut nodes: Vec<usize> = Vec::new();
    let ghost mut done: Seq<int> = Seq::empty();
    proof {
        lemma_set8_range(set.nodes);
        assert(done + ordered(it.remaining()) =~= ordered(set@));
    }
    loop
        invariant
            it.remaining().subset_of(set@),
            set@.subset_of(set_int_range(0, 8)),
            done + ordered(it.remaining()) == ordered(set@),
            nodes@ == as_usizes(done),
        ensures
            nodes@ == as_usizes(ordered(set@)),
        decreases it.remaining().len(),
    {
        let ghost before = it.remaining();
        proof {
            vstd::set_lib::lemma_int_range(0, 8);
            vstd::set_lib::lemma_len_subset(before, set_int_range(0, 8));
        }
        match it.next() {
            None => {
                proof {
                    lemma_ordered_from_empty(before, 0);
                    assert(done + Seq::<int>::empty() =~= done);
                }
                break;
            },
            Some(n) => {
                proof {
                    lemma_ordered_from_min(before, 0, n as int);
                    assert(done + ordered(before) =~= done.push(n as int) + ordered(
                        it.remaining(),
                    ));
                    done = done.push(n as int);
                }
                nodes.push(n);
                proof {
                    assert(nodes@ =~= as_usizes(done));
                }
            },
        }
    }
    nodes
}

impl<const N: usize> CompactMotif<N> {
    /// The edges of the motif that share at least one node with edge `edge_number`.
    pub fn part_ovelaps(&self, edge_number: usize) -> (r: Self)
        requires
            2 <= N <= 5,
            edge_number < edge_total(N as nat),
        ensures
            r@ == self@.intersect(part_set(N as nat, edge_number as int)),
    {
        let table = Self::get_part_overlaps_const_bitmasks();
        let r = self.bitand(table[edge_number]);
        proof {
            assert(r@ =~= self@.intersect(part_set(N as nat, edge_number as int)));
        }
        r
    }

    /// The edges of the motif whose nodes all lie in edge `edge_number`.
    pub fn full_ovelaps(&self, edge_number: usize) -> (r: Self)
        requires
            2 <= N <= 5,
            edge_number < edge_total(N as nat),
        ensures
            r@ == self@.intersect(full_set(N as nat, edge_number as int)),
    {
        let table = Self::get_full_overlaps_const_bitmasks();
        let r = self.bitand(table[edge_number]);
        proof {
            assert(r@ =~= self@.intersect(full_set(N as nat, edge_number as int)));
        }
        r
    }

    /// Walks the node sets of the edges of the motif, by increasing edge number.
    pub fn iter_nodes(&self) -> (r: CompactMotifNodeIter<N>)
        ensures
            r.remaining() == self@,
    {
        CompactMotifNodeIter { remaining_edges: self.container() }
    }

    /// The motif as a list of edges, each a list of its nodes; edges by
    /// increasing number, nodes in increasing order.
    pub fn to_vec(&self) -> (r: Vec<Vec<usize>>)
        requires
            2 <= N <= 5,
            self@.subset_of(edge_range(N as nat)),
        ensures
            r@.len() == ordered(self@).len(),
            forall|j: int|
                0 <= j < r@.len() ==> (#[trigger] r@[j])@ == as_usizes(
                    ordered(edge_nodes(N as nat, ordered(self@)[j])),
                ),
    {
        let node_map = Self::get_node_map_const_bitmasks();
        let mut edges: Vec<Vec<usize>> = Vec::new();
        let mut it = self.iter_edges();
        let ghost mut done: Seq<int> = Seq::empty();
        proof {
            lemma_edge_totals();
            assert(done + ordered(it.remaining()) =~= ordered(self@));
        }
        loop
            invariant
                2 <= N <= 5,
                is_node_map(N as nat, node_map@),
                it.remaining().subset_of(self@),
                self@.subset_of(edge_range(N as nat)),
                done + ordered(it.remaining()) == ordered(self@),
                edges@.len() == done.len(),
                forall|j: int|
                    0 <= j < edges@.len() ==> (#[trigger] edges@[j])@ == as_usizes(
                        ordered(edge_nodes(N as nat, done[j])),
                    ),
            ensures
                done == ordered(self@),
                edges@.len() == done.len(),
                forall|j: int|
                    0 <= j < edges@.len() ==> (#[trigger] edges@[j])@ == as_usizes(
                        ordered(edge_nodes(N as nat, done[j])),
                    ),
            decreases it.remaining().len(),
        {
            let ghost before = it.remaining();
            proof {
                vstd::set_lib::lemma_int_range(0, edge_total(N as nat) as int);
                vstd::set_lib::lemma_len_subset(before, edge_range(N as nat));
            }
            match it.next() {
                None => {
                    proof {
                        lemma_ordered_from_empty(before, 0);
                        assert(done + Seq::<int>::empty() =~= done);
                    }
                    break;
                },
                Some(e) => {
                    proof {
                        lemma_ordered_from_min(before, 0, e as int);
                        assert(done + ordered(before) =~= done.push(e as int) + ordered(
                            it.remaining(),
                        ));
                    }
                    let nodes = node_list(node_map[e]);
                    edges.push(nodes);
                    proof {
                        done = done.push(e as int);
                    }
                },
            }
        }
        edges
    }
}

/// Walks the node sets of the edges of a motif, by increasing edge number.
pub struct CompactMotifNodeIter<const N: usize> {
    remaining_edges: u32,
}

impl<const N: usize> CompactMotifNodeIter<N> {
    /// The edges whose node sets are still to come.
    pub closed spec fn remaining(&self) -> Set<int> {
        set32(self.remaining_edges)
    }

    /// Yields the node set of the smallest edge left, and drops that edge.
    pub fn next(&mut self) -> (r: Option<CompressedNodeSet>)
        requires
            2 <= N <= 5,
            old(self).remaining().subset_of(edge_range(N as nat)),
        ensures
            old(self).remaining() == Set::<int>::empty() ==> r is None && final(self).remaining()
                == old(self).remaining(),
            old(self).remaining() != Set::<int>::empty() ==> exists|i: int|
                #![trigger old(self).remaining().contains(i)]
                old(self).remaining().contains(i) && (forall|j: int|
                    #[trigger] old(self).remaining().contains(j) ==> i <= j) && final(self).remaining() == old(self).remaining().remove(i) && (r matches Some(s) && s@
                    == edge_nodes(N as nat, i)),
    {
        let w = self.remaining_edges;
        proof {
            lemma_set32_empty(w);
        }
        if w == 0 {
            None
        } else {
            let index = w.trailing_zeros();
            proof {
                lemma_clear_lowest(w);
                assert forall|j: int| #[trigger] set32(w).contains(j) implies index <= j by {
                    if j < index {
                        assert(!bit32(w, j));
                    }
                }
                assert(set32(w).contains(index as int));
            }
            self.remaining_edges = w & (w - 1);
            let node_map = CompactMotif::<N>::get_node_map_const_bitmasks();
            Some(node_map[index as usize])
        }
    }
}

} // verus!
