//! Compact motifs: the hyperedges of a motif of order 2 to 5, held as the bits
//! of one word.

use vstd::prelude::*;

verus! {

use vstd::set_lib::set_int_range;
use crate::bits::{
    bit32,
    set32,
    pop32,
    lemma_bit32_or,
    lemma_bit32_and,
    lemma_bit32_and_not,
    lemma_bit32_shl1,
    lemma_bit32_low_mask,
    lemma_bit32_bound,
    lemma_set32_empty,
    lemma_clear_lowest,
    count_ones32,
};

/// A motif on `N` nodes, held as the set of its hyperedges: bit `e` stands for
/// the `e`-th hyperedge of the order-`N` numbering (see `order_edges`).
#[derive(Copy, Clone)]
pub struct CompactMotif<const N: usize> {
    pub(crate) container: u32,
}

impl<const N: usize> View for CompactMotif<N> {
    type V = Set<int>;

    open spec fn view(&self) -> Set<int> {
        set32(self.bits())
    }
}

/// Number of bits of the word that holds a motif of order `n`
/// (a byte up to order 3, 16 bits for order 4, 32 bits for order 5).
pub open spec fn container_width(n: nat) -> nat {
    if n <= 3 {
        8
    } else if n == 4 {
        16
    } else {
        32
    }
}

/// The positions a container word of order `n` can hold.
pub open spec fn container_range(n: nat) -> Set<int> {
    set_int_range(0, container_width(n) as int)
}

impl<const N: usize> CompactMotif<N> {
    /// The raw bits of the motif.
    pub closed spec fn bits(&self) -> u32 {
        self.container
    }

    /// The motif fits the word of its order.
    pub open spec fn fits(&self) -> bool {
        self@.subset_of(container_range(N as nat))
    }

    /// Number of bits of the container word.
    pub fn container_bits() -> (r: u32)
        requires
            2 <= N <= 5,
        ensures
            r == container_width(N as nat),
    {
        if N <= 3 {
            8
        } else if N == 4 {
            16
        } else {
            32
        }
    }

    /// Keeps the bits that the container word of this order holds.
    fn truncate(x: u32) -> (r: u32)
        requires
            2 <= N <= 5,
        ensures
            set32(r) == set32(x).intersect(container_range(N as nat)),
    {
        let w = Self::container_bits();
        if w == 32 {
            proof {
                assert(set32(x) =~= set32(x).intersect(container_range(N as nat)));
            }
            x
        } else {
            proof {
                assert(w < 32 ==> (1u32 << w) >= 1) by (bit_vector);
            }
            let mask = (1u32 << w) - 1;
            proof {
                lemma_bit32_low_mask(w);
                lemma_bit32_and(x, mask);
                assert(set32(x & mask) =~= set32(x).intersect(container_range(N as nat)));
            }
            x & mask
        }
    }

    /// The raw word of the motif.
    pub fn container(&self) -> (r: u32)
        ensures
            r == self.bits(),
    {
        self.container
    }

    /// The motif whose edges are the set bits of `container`.
    pub fn new(container: u32) -> (r: Self)
        ensures
            r.bits() == container,
    {
        Self { container }
    }

    /// The edges of either motif.
    pub fn bitor(self, other: Self) -> (r: Self)
        ensures
            r@ == self@.union(other@),
    {
        proof {
            lemma_bit32_or(self.container, other.container);
        }
        Self::new(self.container | other.container)
    }

    /// The edges of both motifs.
    pub fn bitand(self, other: Self) -> (r: Self)
        ensures
            r@ == self@.intersect(other@),
    {
        proof {
            lemma_bit32_and(self.container, other.container);
        }
        Self::new(self.container & other.container)
    }

    /// Adds the edges of `other`.
    pub fn const_bitor_assign(&mut self, other: Self)
        ensures
            final(self)@ == old(self)@.union(other@),
    {
        proof {
            lemma_bit32_or(self.container, other.container);
        }
        self.container = self.container | other.container;
    }

    /// Keeps only the edges that `other` has too.
    pub fn bitand_assign(&mut self, other: Self)
        ensures
            final(self)@ == old(self)@.intersect(other@),
    {
        proof {
            lemma_bit32_and(self.container, other.container);
        }
        self.container = self.container & other.container;
    }

    /// Moves every edge `rhs` places up; what passes the container word is lost.
    pub fn shl(self, rhs: usize) -> (r: Self)
        requires
            2 <= N <= 5,
            rhs < container_width(N as nat),
        ensures
            forall|i: int| #[trigger]
                r@.contains(i) == (container_range(N as nat).contains(i) && rhs <= i
                    && self@.contains(i - rhs)),
    {
        let s = rhs as u32;
        let shifted = self.container << s;
        let r = Self::truncate(shifted);
        proof {
            let x = self.container;
            assert forall|i: int| #[trigger] bit32(shifted, i) == (0 <= i < 32 && s <= i && bit32(
                x,
                i - s,
            )) by {
                if 0 <= i < 32 {
                    let k = i as u32;
                    if s <= k {
                        let j = (k - s) as u32;
                        assert((((x << s) >> k) & 1u32 == 1u32) == (((x >> j) & 1u32) == 1u32))
                            by (bit_vector)
                            requires
                                s < 32,
                                k < 32,
                                s <= k,
                                j == k - s,
                        ;
                    } else {
                        assert(((x << s) >> k) & 1u32 == 0u32) by (bit_vector)
                            requires
                                s < 32,
                                k < s,
                        ;
                    }
                }
            }
        }
        Self::new(r)
    }

    /// Moves every edge `rhs` places up, in place (see `shl`).
    pub fn shl_assign(&mut self, rhs: usize)
        requires
            2 <= N <= 5,
            rhs < container_width(N as nat),
        ensures
            forall|i: int| #[trigger]
                final(self)@.contains(i) == (container_range(N as nat).contains(i) && rhs <= i
                    && old(self)@.contains(i - rhs)),
    {
        *self = self.shl(rhs);
    }

    /// Moves every edge `rhs` places down; the lowest ones are lost.
    pub fn shr(self, rhs: usize) -> (r: Self)
        requires
            2 <= N <= 5,
            rhs < container_width(N as nat),
        ensures
            forall|i: int| #[trigger]
                r@.contains(i) == (0 <= i && self@.contains(i + rhs)),
    {
        let s = rhs as u32;
        let x = self.container;
        let shifted = x >> s;
        proof {
            assert forall|i: int| #[trigger] bit32(shifted, i) == (0 <= i && bit32(x, i + s)) by {
                if 0 <= i < 32 {
                    let k = i as u32;
                    if k + s < 32 {
                        let j = (k + s) as u32;
                        assert((((x >> s) >> k) & 1u32 == 1u32) == (((x >> j) & 1u32) == 1u32))
                            by (bit_vector)
                            requires
                                s < 32,
                                k < 32,
                                j == k + s,
                        ;
                    } else {
                        assert(((x >> s) >> k) & 1u32 == 0u32) by (bit_vector)
                            requires
                                s < 32,
                                k < 32,
                                k + s >= 32,
                        ;
                    }
                }
            }
        }
        Self::new(shifted)
    }

    /// Moves every edge `rhs` places down, in place (see `shr`).
    pub fn shr_assign(&mut self, rhs: usize)
        requires
            2 <= N <= 5,
            rhs < container_width(N as nat),
        ensures
            forall|i: int| #[trigger]
                final(self)@.contains(i) == (0 <= i && old(self)@.contains(i + rhs)),
    {
        *self = self.shr(rhs);
    }

    /// Number of edges of the motif.
    pub fn edge_count(&self) -> (r: u32)
        ensures
            r == self@.len(),
    {
        count_ones32(self.container)
    }

    /// Adds edge `edge_number`.
    pub fn add_edge(&mut self, edge_number: usize)
        requires
            2 <= N <= 5,
            edge_number < container_width(N as nat),
        ensures
            final(self)@ == old(self)@.insert(edge_number as int),
    {
        let b = 1u32 << (edge_number as u32);
        proof {
            lemma_bit32_shl1(edge_number as u32);
            lemma_bit32_or(self.container, b);
            assert(set32(self.container | b) =~= set32(self.container).insert(edge_number as int));
        }
        self.container = self.container | b;
    }

    /// Removes edge `edge_number`.
    pub fn remove_edge(&mut self, edge_number: usize)
        requires
            2 <= N <= 5,
            edge_number < container_width(N as nat),
        ensures
            final(self)@ == old(self)@.remove(edge_number as int),
    {
        let b = 1u32 << (edge_number as u32);
        proof {
            lemma_bit32_shl1(edge_number as u32);
            lemma_bit32_and_not(self.container, b);
            assert(set32(self.container & !b) =~= set32(self.container).remove(
                edge_number as int,
            ));
        }
        self.container = self.container & !b;
    }

    /// The motif has no edge.
    pub fn is_empty(&self) -> (r: bool)
        ensures
            r == (self@ == Set::<int>::empty()),
    {
        proof {
            lemma_set32_empty(self.container);
        }
        self.container == 0
    }

    /// The motif whose word is 0: the empty motif, under the name this API
    /// has always given it.
    pub fn one() -> (r: Self)
        ensures
            r@ == Set::<int>::empty(),
    {
        proof {
            lemma_set32_empty(0);
        }
        Self::new(0)
    }

    /// The motif whose word is 1: hyperedge 0 alone, under the name this API
    /// has always given it.
    pub fn zero() -> (r: Self)
        ensures
            r@ == set![0int],
    {
        proof {
            lemma_bit32_shl1(0);
            assert(1u32 << 0u32 == 1u32) by (bit_vector);
        }
        Self::new(1)
    }

    /// Walks the edge numbers of the motif in increasing order.
    pub fn iter_edges(&self) -> (r: CompactMotifEdgeIter<N>)
        ensures
            r.remaining() == self@,
    {
        CompactMotifEdgeIter { remaining_edges: self.container }
    }
}

/// Walks the edge numbers of a motif in increasing order.
pub struct CompactMotifEdgeIter<const N: usize> {
    pub(crate) remaining_edges: u32,
}

impl<const N: usize> CompactMotifEdgeIter<N> {
    /// The edges that are still to come.
    pub closed spec fn remaining(&self) -> Set<int> {
        set32(self.remaining_edges)
    }

    /// Yields the smallest edge number left, and drops it.
    pub fn next(&mut self) -> (r: Option<usize>)
        ensures
            old(self).remaining() == Set::<int>::empty() ==> r is None && final(self).remaining()
                == old(self).remaining(),
            old(self).remaining() != Set::<int>::empty() ==> (r matches Some(i) && old(
                self,
            ).remaining().contains(i as int) && (forall|j: int|
                #[trigger] old(self).remaining().contains(j) ==> i <= j) && final(self).remaining()
                == old(self).remaining().remove(i as int)),
    {
        let w = self.remaining_edges;
        proof {
            lemma_set32_empty(w);
        }
        if w == 0 {
            None
        } else {
            let index = w.trailing_zeros();
            proof {
                lemma_clear_lowest(w);
                assert forall|j: int| #[trigger] set32(w).contains(j) implies index <= j by {
                    if j < index {
                        assert(!bit32(w, j));
                    }
                }
            }
            self.remaining_edges = w & (w - 1);
            Some(index as usize)
        }
    }

    /// The exact number of edges still to come, as lower and upper bound.
    pub fn size_hint(&self) -> (r: (usize, Option<usize>))
        ensures
            r.0 == self.remaining().len(),
            r.1 == Some(r.0),
    {
        let count = count_ones32(self.remaining_edges) as usize;
        (count, Some(count))
    }
}

} // verus!
