//! Node sets held as the bits of one byte.

use vstd::prelude::*;

verus! {

use crate::bits::{bit32, set32, set8, lemma_set32_empty, lemma_clear_lowest, count_ones32, lemma_set32_card_bound, lemma_bit32_and, lemma_bit32_bound, lemma_set32_finite};

/// A set of nodes (each below 8) held as the bits of one byte.
#[derive(Copy, Clone)]
pub struct CompressedNodeSet {
    pub nodes: u8,
}

impl View for CompressedNodeSet {
    type V = Set<int>;

    open spec fn view(&self) -> Set<int> {
        set8(self.nodes)
    }
}

/// Walks the nodes of a set in increasing order.
pub struct CompressetNodeSetIter {
    remaining_nodes: u8,
}

impl CompressetNodeSetIter {
    /// The nodes that are still to come.
    pub closed spec fn remaining(&self) -> Set<int> {
        set8(self.remaining_nodes)
    }

    /// Yields the smallest node left, and drops it.
    pub fn next(&mut self) -> (r: Option<usize>)
        ensures
            old(self).remaining() == Set::<int>::empty() ==> r is None && final(self).remaining()
                == old(self).remaining(),
            old(self).remaining() != Set::<int>::empty() ==> (r matches Some(i) && old(
                self,
            ).remaining().contains(i as int) && (forall|j: int|
                #[trigger] old(self).remaining().contains(j) ==> i <= j) && final(self).remaining()
                == old(self).remaining().remove(i as int)),
    {
        let w = self.remaining_nodes as u32;
        proof {
            lemma_set32_empty(w);
        }
        if self.remaining_nodes == 0 {
            None
        } else {
            let index = w.trailing_zeros();
            proof {
                lemma_clear_lowest(w);
                assert forall|j: int| #[trigger] set32(w).contains(j) implies index <= j by {
                    if j < index {
                        assert(!bit32(w, j));
                    }
                }
            }
            let cleared = w & (w - 1);
            self.remaining_nodes = cleared as u8;
            proof {
                assert(cleared < 256);
                assert(self.remaining_nodes as u32 == cleared);
            }
            Some(index as usize)
        }
    }

    /// The exact number of nodes still to come, as lower and upper bound.
    pub fn size_hint(&self) -> (r: (usize, Option<usize>))
        ensures
            r.0 == self.remaining().len(),
            r.1 == Some(r.0),
    {
        let count = count_ones32(self.remaining_nodes as u32) as usize;
        (count, Some(count))
    }
}

impl CompressedNodeSet {
    /// The set whose members are the set bits of `nodes`.
    pub fn new(nodes: u8) -> (r: Self)
        ensures
            r.nodes == nodes,
    {
        Self { nodes }
    }

    /// Number of nodes in the set.
    pub fn len(&self) -> (r: u32)
        ensures
            r == self@.len(),
            r <= 8,
    {
        proof {
            lemma_set8_range(self.nodes);
        }
        count_ones32(self.nodes as u32)
    }

    /// Walks the nodes of the set in increasing order.
    pub fn iter(&self) -> (r: CompressetNodeSetIter)
        ensures
            r.remaining() == self@,
    {
        CompressetNodeSetIter { remaining_nodes: self.nodes }
    }

    /// Whether `node` is in the set.
    pub fn contains(&self, node: usize) -> (r: bool)
        requires
            node < 8,
        ensures
            r == self@.contains(node as int),
    {
        let k = node as u8;
        let r = (self.nodes & (1u8 << k)) != 0;
        proof {
            let a = self.nodes;
            assert(((a & (1u8 << k)) != 0u8) == ((((a as u32) >> (k as u32)) & 1u32) == 1u32))
                by (bit_vector)
                requires
                    k < 8,
            ;
        }
        r
    }

    /// The nodes that belong to both sets.
    pub fn bitand(self, other: Self) -> (r: Self)
        ensures
            r@ == self@.intersect(other@),
    {
        let r = Self { nodes: self.nodes & other.nodes };
        proof {
            let a = self.nodes;
            let b = other.nodes;
            assert(((a & b) as u32) == ((a as u32) & (b as u32))) by (bit_vector);
            lemma_bit32_and(a as u32, b as u32);
        }
        r
    }
}

/// Every node of a byte set is below 8.
pub proof fn lemma_set8_range(x: u8)
    ensures
        forall|i: int| #[trigger] set8(x).contains(i) ==> 0 <= i < 8,
        set8(x).finite(),
        set8(x).len() <= 8,
{
    let w = x as u32;
    assert(w < (1u32 << 8u32)) by (bit_vector)
        requires
            w == x as u32,
    ;
    lemma_bit32_bound(w, 8);
    lemma_set32_card_bound(w, 8);
    lemma_set32_finite(w);
}

} // verus!
