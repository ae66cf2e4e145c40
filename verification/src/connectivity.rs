//! Connected motifs: a motif is connected when its hyperedges cover every node
//! and overlap in one chain.

use vstd::prelude::*;

verus! {

use vstd::set_lib::set_int_range;
use crate::bits::{
    set32,
    set8,
    bit32,
    lemma_bit32_or,
    lemma_bit32_and_not,
    lemma_bit32_shl1,
    lemma_bit32_low_mask,
    lemma_set32_ext,
    lemma_set32_empty,
    lemma_set32_finite,
    lemma_clear_lowest,
    lemma_set8_or_shl,
};
use crate::node_set::{CompressedNodeSet, lemma_set8_range};
use crate::motif::CompactMotif;
use crate::motif_ops::{edge_range, part_set};
use crate::tables::{edge_total, edge_nodes, is_node_map, lemma_edge_totals, lemma_edge_nodes_range};

/// Two hyperedges of order `n` share a node.
pub open spec fn overlap(n: nat, e: int, f: int) -> bool {
    !edge_nodes(n, e).disjoint(edge_nodes(n, f))
}

/// Node `v` lies in some edge of `m`.
pub open spec fn covered_by(n: nat, m: Set<int>, v: int) -> bool {
    exists|e: int| #[trigger] m.contains(e) && #[trigger] edge_nodes(n, e).contains(v)
}

/// Every node `0..n` lies in some edge of `m`.
pub open spec fn covers_all(n: nat, m: Set<int>) -> bool {
    forall|v: int| 0 <= v < n ==> #[trigger] covered_by(n, m, v)
}

/// `s` is a part of `m` that no edge of `m` outside it overlaps.
pub open spec fn closed_in(n: nat, m: Set<int>, s: Set<int>) -> bool {
    &&& s.subset_of(m)
    &&& forall|e: int, f: int|
        #![trigger s.contains(e), m.contains(f), s.contains(f)]
        s.contains(e) && m.contains(f) && overlap(n, e, f) ==> s.contains(f)
}

/// The edges of `m` cannot be split into two parts that share no node.
pub open spec fn edges_connected(n: nat, m: Set<int>) -> bool {
    forall|s: Set<int>| #[trigger] closed_in(n, m, s) ==> s == Set::<int>::empty() || s == m
}

/// A connected motif of order `n`: it has an edge, covers every node, and
/// its edges hang together.
pub open spec fn is_connected_motif(n: nat, m: Set<int>) -> bool {
    &&& m != Set::<int>::empty()
    &&& covers_all(n, m)
    &&& edges_connected(n, m)
}

/// Overlapping is symmetric.
pub proof fn lemma_overlap_symmetric(n: nat, e: int, f: int)
    ensures
        overlap(n, e, f) == overlap(n, f, e),
{
    if overlap(n, e, f) {
        let v = choose|v: int| #[trigger] edge_nodes(n, e).contains(v) && edge_nodes(n, f).contains(v);
        assert(edge_nodes(n, f).contains(v) && edge_nodes(n, e).contains(v));
    }
    if overlap(n, f, e) {
        let v = choose|v: int| #[trigger] edge_nodes(n, f).contains(v) && edge_nodes(n, e).contains(v);
        assert(edge_nodes(n, e).contains(v) && edge_nodes(n, f).contains(v));
    }
}

/// What a closed part of `m` leaves out is closed too.
pub proof fn lemma_closed_complement(n: nat, m: Set<int>, s: Set<int>)
    requires
        closed_in(n, m, s),
    ensures
        closed_in(n, m, m.difference(s)),
{
    let t = m.difference(s);
    assert forall|e: int, f: int|
        #![trigger t.contains(e), m.contains(f), t.contains(f)]
        t.contains(e) && m.contains(f) && overlap(n, e, f) implies t.contains(f) by {
        if s.contains(f) {
            lemma_overlap_symmetric(n, e, f);
            assert(s.contains(e));
        }
    }
}

/// A closed part that holds everything reachable from `first`, with
/// `first` in every closed part that holds it, shows connectivity.
pub proof fn lemma_reached_all_connected(n: nat, m: Set<int>, first: int)
    requires
        m.contains(first),
        forall|s: Set<int>| #[trigger] closed_in(n, m, s) && s.contains(first) ==> m.subset_of(s),
    ensures
        edges_connected(n, m),
{
    assert forall|s: Set<int>| #[trigger] closed_in(n, m, s) implies s == Set::<int>::empty() || s
        == m by {
        if s.contains(first) {
            assert(s =~= m);
        } else {
            lemma_closed_complement(n, m, s);
            let t = m.difference(s);
            assert(closed_in(n, m, t) && t.contains(first));
            assert(m.subset_of(t));
            assert(s =~= Set::<int>::empty());
        }
    }
}

impl<const N: usize> CompactMotif<N> {
    /// The motif has an edge, covers every node, and its edges hang together.
    pub fn is_connected(&self) -> (r: bool)
        requires
            2 <= N <= 5,
            self@.subset_of(edge_range(N as nat)),
        ensures
            r == is_connected_motif(N as nat, self@),
    {
        let motif = *self;
        let ghost m = self@;
        proof {
            lemma_edge_totals();
        }
        if motif.is_empty() {
            return false;
        }
        // The motif must cover every node.
        let node_map = Self::get_node_map_const_bitmasks();
        let mut covered_nodes: u8 = 0;
        let mut it = motif.iter_edges();
        proof {
            crate::bits::lemma_bit32_zero();
            assert(set8(covered_nodes) =~= Set::<int>::empty());
        }
        loop
            invariant
                2 <= N <= 5,
                is_node_map(N as nat, node_map@),
                m.subset_of(edge_range(N as nat)),
                it.remaining().subset_of(m),
                forall|v: int| #[trigger] set8(covered_nodes).contains(v) == exists|e: int|
                    #[trigger] m.contains(e) && !it.remaining().contains(e) && edge_nodes(N as nat, e).contains(v),
            ensures
                forall|v: int| #[trigger] set8(covered_nodes).contains(v) == exists|e: int|
                    #[trigger] m.contains(e) && edge_nodes(N as nat, e).contains(v),
            decreases it.remaining().len(),
        {
            let ghost before = it.remaining();
            proof {
                vstd::set_lib::lemma_int_range(0, edge_total(N as nat) as int);
                vstd::set_lib::lemma_len_subset(before, edge_range(N as nat));
            }
            match it.next() {
                None => {
                    break;
                },
                Some(e) => {
                    let ns = node_map[e].nodes;
                    proof {
                        let a = covered_nodes as u32;
                        let b = ns as u32;
                        assert((covered_nodes | ns) as u32 == a | b) by (bit_vector)
                            requires
                                a == covered_nodes as u32,
                                b == ns as u32,
                        ;
                        lemma_bit32_or(a, b);
                        assert(set8(ns) == edge_nodes(N as nat, e as int));
                        assert(it.remaining() == before.remove(e as int));
                        assert forall|v: int| #[trigger] set8(covered_nodes | ns).contains(v) == exists|f: int|
                            #[trigger] m.contains(f) && !it.remaining().contains(f) && edge_nodes(N as nat, f).contains(v) by {
                            assert(set8(covered_nodes | ns).contains(v) == (set8(covered_nodes).contains(v) || set8(ns).contains(v)));
                            if set8(covered_nodes).contains(v) {
                                let f = choose|f: int| #[trigger] m.contains(f) && !before.contains(f) && edge_nodes(N as nat, f).contains(v);
                                assert(m.contains(f) && !it.remaining().contains(f) && edge_nodes(N as nat, f).contains(v));
                            }
                            if set8(ns).contains(v) {
                                assert(m.contains(e as int) && !it.remaining().contains(e as int) && edge_nodes(N as nat, e as int).contains(v));
                            }
                            if exists|f: int| #[trigger] m.contains(f) && !it.remaining().contains(f) && edge_nodes(N as nat, f).contains(v) {
                                let f = choose|f: int| #[trigger] m.contains(f) && !it.remaining().contains(f) && edge_nodes(N as nat, f).contains(v);
                                if f != e {
                                    assert(!before.contains(f));
                                    assert(m.contains(f) && !before.contains(f) && edge_nodes(N as nat, f).contains(v));
                                    assert(set8(covered_nodes).contains(v));
                                }
                            }
                        }
                    }
                    covered_nodes = covered_nodes | ns;
                },
            }
        }
        let nn = N as u8;
        proof {
            assert(nn < 8 ==> (1u8 << nn) >= 1) by (bit_vector);
        }
        let all_nodes = (1u8 << nn) - 1;
        proof {
            let k = nn as u32;
            assert((all_nodes as u32) == ((1u32 << k) - 1) as u32) by (bit_vector)
                requires
                    all_nodes == ((1u8 << nn) - 1) as u8,
                    k == nn as u32,
                    nn < 8,
            ;
            lemma_bit32_low_mask(k);
        }
        if covered_nodes != all_nodes {
            proof {
                if covers_all(N as nat, m) {
                    assert forall|i: int| 0 <= i < 32 implies #[trigger] bit32(covered_nodes as u32, i)
                        == bit32(all_nodes as u32, i) by {
                        assert(set8(covered_nodes).contains(i) == set8(all_nodes).contains(i)) by {
                            if set8(covered_nodes).contains(i) {
                                let e = choose|e: int| #[trigger] m.contains(e) && #[trigger] edge_nodes(N as nat, e).contains(i);
                                lemma_edge_nodes_range(N as nat, e);
                            }
                            if set8(all_nodes).contains(i) {
                                assert(0 <= i < N);
                                assert(covered_by(N as nat, m, i));
                                let e = choose|e: int| #[trigger] m.contains(e) && #[trigger] edge_nodes(N as nat, e).contains(i);
                                assert(set8(covered_nodes).contains(i));
                            }
                        }
                    }
                    crate::bits::lemma_bit32_ext(covered_nodes as u32, all_nodes as u32);
                }
            }
            return false;
        }
        proof {
            assert forall|v: int| 0 <= v < N implies #[trigger] covered_by(N as nat, m, v) by {
                assert(set8(all_nodes).contains(v));
            }
        }
        // Walk the edges reachable from the first one.
        let mut first_iter = motif.iter_edges();
        let first_edge = match first_iter.next() {
            Some(f) => f,
            None => {
                return false;
            },
        };
        let first_bit = 1u32 << (first_edge as u32);
        let mut visited_edges = first_bit;
        let mut queue = first_bit;
        proof {
            lemma_bit32_shl1(first_edge as u32);
            lemma_set32_finite(motif.bits());
        }
        while queue != 0
            invariant
                2 <= N <= 5,
                m == motif@,
                m.subset_of(edge_range(N as nat)),
                m.contains(first_edge as int),
                m.finite(),
                set32(visited_edges).subset_of(m),
                set32(queue).subset_of(set32(visited_edges)),
                set32(visited_edges).contains(first_edge as int),
                forall|s: Set<int>| #[trigger] closed_in(N as nat, m, s) && s.contains(first_edge as int)
                    ==> set32(visited_edges).subset_of(s),
                forall|e: int, f: int|
                    #![trigger set32(visited_edges).contains(e), m.contains(f)]
                    set32(visited_edges).contains(e) && !set32(queue).contains(e) && m.contains(f)
                        && overlap(N as nat, e, f) ==> set32(visited_edges).contains(f),
            decreases 2 * (m.len() - set32(visited_edges).len()) + set32(queue).len(),
        {
            proof {
                lemma_clear_lowest(queue);
                lemma_set32_finite(queue);
                lemma_set32_finite(visited_edges);
                vstd::set_lib::lemma_len_subset(set32(visited_edges), m);
            }
            let e = queue.trailing_zeros() as usize;
            let ghost q0 = queue;
            let ghost v0 = visited_edges;
            queue = queue & (queue - 1);
            let po = motif.part_ovelaps(e);
            let pc = po.container();
            let neighbors = pc & !visited_edges;
            proof {
                lemma_bit32_and_not(pc, v0);
                lemma_bit32_or(v0, neighbors);
                lemma_bit32_or(queue, neighbors);
                assert(set32(q0).contains(e as int));
            }
            visited_edges = visited_edges | neighbors;
            queue = queue | neighbors;
            proof {
                let vs = set32(visited_edges);
                let ns = set32(neighbors);
                assert(set32(queue).subset_of(vs));
                assert forall|s: Set<int>| #[trigger] closed_in(N as nat, m, s) && s.contains(first_edge as int)
                    implies vs.subset_of(s) by {
                    assert(set32(v0).subset_of(s));
                    assert forall|f: int| vs.contains(f) implies s.contains(f) by {
                        if ns.contains(f) {
                            assert(s.contains(e as int) && m.contains(f) && overlap(N as nat, e as int, f));
                        }
                    }
                }
                assert forall|x: int, f: int|
                    #![trigger vs.contains(x), m.contains(f)]
                    vs.contains(x) && !set32(queue).contains(x) && m.contains(f)
                        && overlap(N as nat, x, f) implies vs.contains(f) by {
                    if x == e {
                        lemma_overlap_symmetric(N as nat, x, f);
                        assert(part_set(N as nat, e as int).contains(f));
                    } else {
                        assert(set32(v0).contains(x));
                        assert(!set32(q0).contains(x));
                    }
                }
                lemma_set32_finite(visited_edges);
                lemma_set32_finite(queue);
                lemma_set32_finite(neighbors);
                vstd::set_lib::lemma_len_subset(vs, m);
                assert(ns.disjoint(set32(v0)));
                assert(vs =~= set32(v0).union(ns));
                vstd::set_lib::lemma_set_disjoint_lens(set32(v0), ns);
                vstd::set_lib::lemma_len_union(set32(q0).remove(e as int), ns);
            }
        }
        proof {
            lemma_set32_empty(queue);
            let vs = set32(visited_edges);
            assert(closed_in(N as nat, m, vs));
            if visited_edges == motif.bits() {
                lemma_reached_all_connected(N as nat, m, first_edge as int);
            } else {
                if edges_connected(N as nat, m) {
                    assert(vs == m);
                    lemma_set32_ext(visited_edges, motif.bits());
                }
            }
        }
        visited_edges == motif.container()
    }
}


impl<const N: usize> CompactMotif<N> {
    /// Number of labelings of this order: every subset of its hyperedges.
    pub fn labeling_count() -> (r: u32)
        requires
            2 <= N <= 5,
        ensures
            r as int == crate::bits::low_mask(edge_total(N as nat)) + 1,
            r == (1u32 << (edge_total(N as nat) as u32)),
    {
        let e = Self::max_edge_count() as u32;
        proof {
            lemma_edge_totals();
            crate::bits::lemma_low_mask_shl(e);
        }
        1u32 << e
    }

    /// The first connected motif whose word is at least `start`, among the
    /// words below `labeling_count()`; `None` when there is none.
    pub fn next_connected_labeling(start: u32) -> (r: Option<Self>)
        requires
            2 <= N <= 5,
        ensures
            match r {
                Some(m) => {
                    &&& start <= m.bits() < (1u32 << (edge_total(N as nat) as u32))
                    &&& is_connected_motif(N as nat, m@)
                    &&& forall|x: u32|
                        start <= x < m.bits() ==> !is_connected_motif(N as nat, #[trigger] set32(x))
                },
                None => forall|x: u32|
                    start <= x < (1u32 << (edge_total(N as nat) as u32)) ==> !is_connected_motif(
                        N as nat,
                        #[trigger] set32(x),
                    ),
            },
    {
        let count = Self::labeling_count();
        let e = Self::max_edge_count() as u32;
        let mut i = start;
        proof {
            lemma_edge_totals();
        }
        while i < count
            invariant
                2 <= N <= 5,
                e == edge_total(N as nat),
                e <= 26,
                count == (1u32 << e),
                start <= i,
                forall|x: u32| start <= x < i ==> !is_connected_motif(N as nat, #[trigger] set32(x)),
            decreases count - i,
        {
            let m = Self::new(i);
            proof {
                crate::bits::lemma_bit32_bound(i, e);
                assert(set32(i).subset_of(edge_range(N as nat)));
            }
            if m.is_connected() {
                return Some(m);
            }
            i += 1;
        }
        None
    }
}
} // verus!
