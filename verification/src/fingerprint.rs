//! The fingerprint of order-4 motifs: node histograms by degree and inclusion
//! counts.

use vstd::prelude::*;

verus! {

use vstd::arithmetic::power2::pow2;
use vstd::relations::sorted_by;
use vstd::std_specs::cmp::PartialEqSpec;
use vstd::set_lib::set_int_range;
use crate::bits::{set32, ordered, lemma_ordered_from_min, lemma_ordered_from_empty};
use crate::node_set::{CompressedNodeSet, lemma_set8_range};
use crate::motif::CompactMotif;
use crate::motif_ops::edge_range;
use crate::tables::{
    edge_nodes,
    edge_total,
    order_edges,
    is_node_map,
    lemma_edge_totals,
    lemma_edges_upto_elems,
};
use crate::sorting_network::sorted_between;
use crate::histogram::{hist_le_order, sort_histograms};

/// Number of edges of `m` before `lo` whose nodes hold all nodes of edge `f` (order `n`).
pub open spec fn containing_count(n: nat, m: Set<int>, f: int, lo: int) -> nat
    decreases lo,
{
    if lo <= 0 {
        0
    } else {
        containing_count(n, m, f, lo - 1) + if m.contains(lo - 1) && edge_nodes(n, f).subset_of(
            edge_nodes(n, lo - 1),
        ) {
            1nat
        } else {
            0
        }
    }
}

/// For each edge of `m`, the number of other edges of `m` that hold all its nodes;
/// 0 for the edges outside `m`.
pub open spec fn inclusion(n: nat, m: Set<int>, f: int) -> int {
    if m.contains(f) {
        containing_count(n, m, f, edge_total(n) as int) - 1
    } else {
        0
    }
}

/// Number of nodes of hyperedge `f` in the order-`n` numbering.
pub open spec fn edge_size(n: nat, f: int) -> nat {
    edge_nodes(n, f).len()
}

/// Every hyperedge has between 2 and `n` nodes.
pub proof fn lemma_edge_size(n: nat, f: int)
    requires
        0 <= f < edge_total(n),
    ensures
        edge_nodes(n, f).finite(),
        2 <= edge_size(n, f) <= n,
        edge_size(n, f) == order_edges(n)[f].len(),
{
    lemma_edges_upto_elems(n, n + 1);
    let c = order_edges(n)[f];
    assert(c.no_duplicates()) by {
        assert forall|i: int, j: int| 0 <= i < c.len() && 0 <= j < c.len() && i != j implies c[i]
            != c[j] by {
            if i < j {
                assert(c[i] < c[j]);
            } else {
                assert(c[j] < c[i]);
            }
        }
    }
    c.unique_seq_to_set();
    vstd::seq_lib::seq_to_set_is_finite(c);
}

/// `r` lists the node histograms `s` (words of `bits`-bit digits, `d` of
/// them) by node degree, then lexicographically by histogram.
pub open spec fn is_hist_sorted_of(r: Seq<u32>, s: Seq<u32>, bits: u32, d: u32) -> bool {
    &&& sorted_by(r, hist_le_order(bits, d))
    &&& r.to_multiset() == s.to_multiset()
}

/// `r` lists the entries of `s` in increasing order.
pub open spec fn is_sorted_of(r: Seq<u32>, s: Seq<u32>) -> bool {
    &&& sorted_between(r, 0, r.len() as int)
    &&& r.to_multiset() == s.to_multiset()
}

/// Number of entries of `s` before `lo` equal to `v`.
pub open spec fn count_before(s: Seq<u8>, v: u8, lo: int) -> nat
    decreases lo,
{
    if lo <= 0 {
        0
    } else {
        count_before(s, v, lo - 1) + if s[lo - 1] == v {
            1nat
        } else {
            0
        }
    }
}

/// Counting entries one by one gives the multiplicity in the multiset.
pub proof fn lemma_count_before(s: Seq<u8>, v: u8, lo: int)
    requires
        0 <= lo <= s.len(),
    ensures
        count_before(s, v, lo) == s.subrange(0, lo).to_multiset().count(v),
    decreases lo,
{
    broadcast use vstd::seq_lib::group_to_multiset_ensures;
    broadcast use vstd::multiset::group_multiset_axioms;
    if lo == 0 {
        assert(s.subrange(0, 0) =~= Seq::<u8>::empty());
    } else {
        lemma_count_before(s, v, lo - 1);
        assert(s.subrange(0, lo) =~= s.subrange(0, lo - 1).push(s[lo - 1]));
    }
}

/// The weight of one hyperedge of size `size` in a node's histogram: one
/// count in the field of width `bits` for its size.
pub open spec fn size_weight(bits: nat, size: nat) -> nat {
    pow2(bits * (size - 2) as nat)
}

/// Sum, over the edges `e < lo` of `m` that contain node `v`, of their weight.
pub open spec fn node_weight(n: nat, bits: nat, m: Set<int>, v: int, lo: int) -> nat
    decreases lo,
{
    if lo <= 0 {
        0
    } else {
        node_weight(n, bits, m, v, lo - 1) + if m.contains(lo - 1) && edge_nodes(n, lo - 1).contains(v) {
            size_weight(bits, edge_size(n, lo - 1))
        } else {
            0
        }
    }
}

/// No edge of `m` in `a..b` leaves the weight unchanged.
pub proof fn lemma_node_weight_gap(n: nat, bits: nat, m: Set<int>, v: int, a: int, b: int)
    requires
        0 <= a <= b,
        forall|x: int| a <= x < b ==> !m.contains(x),
    ensures
        node_weight(n, bits, m, v, a) == node_weight(n, bits, m, v, b),
    decreases b - a,
{
    if a < b {
        lemma_node_weight_gap(n, bits, m, v, a, b - 1);
    }
}

/// Each edge adds at most `2^(bits * (n - 2))`.
pub proof fn lemma_node_weight_bound(n: nat, bits: nat, m: Set<int>, v: int, lo: int)
    requires
        0 <= lo <= edge_total(n),
        n >= 2,
    ensures
        node_weight(n, bits, m, v, lo) <= lo * pow2(bits * (n - 2) as nat),
    decreases lo,
{
    if lo > 0 {
        lemma_node_weight_bound(n, bits, m, v, lo - 1);
        lemma_edge_size(n, lo - 1);
        assert(bits * (edge_size(n, lo - 1) - 2) <= bits * (n - 2)) by (nonlinear_arith)
            requires
                edge_size(n, lo - 1) <= n,
                edge_size(n, lo - 1) >= 2,
        ;
        crate::bits::lemma_pow2_mono(
            bits * (edge_size(n, lo - 1) - 2) as nat,
            bits * (n - 2) as nat,
        );
        assert((lo - 1) * pow2(bits * (n - 2) as nat) + pow2(bits * (n - 2) as nat) == lo * pow2(
            bits * (n - 2) as nat,
        )) by (nonlinear_arith);
    }
}

impl<const N: usize> CompactMotif<N> {
    /// For each node, the histogram of the sizes of the edges that hold it:
    /// each edge of size `k` adds `2^(bits * (k - 2))`.
    pub fn node_histograms(&self, bits: u32) -> (r: Vec<u32>)
        requires
            2 <= N <= 5,
            bits <= 3,
            self@.subset_of(edge_range(N as nat)),
        ensures
            r@.len() == N,
            forall|v: int| 0 <= v < N ==> #[trigger] r@[v] == node_weight(N as nat, bits as nat, self@, v, edge_total(N as nat) as int),
            forall|v: int| 0 <= v < N ==> #[trigger] r@[v] <= 26 * 512,
    {
        proof {
            lemma_edge_totals();
        }
        let node_map = Self::get_node_map_const_bitmasks();
        let mut w: Vec<u32> = Vec::new();
        let mut i: usize = 0;
        while i < N
            invariant
                i <= N,
                w@.len() == i,
                forall|v: int| 0 <= v < i ==> w@[v] == 0,
            decreases N - i,
        {
            w.push(0);
            i += 1;
        }
        let ghost m = self@;
        let ghost mut lo: int = 0;
        let mut it = self.iter_edges();
        proof {
            assert(it.remaining() =~= m.intersect(set_int_range(lo, 32)));
        }
        loop
            invariant
                2 <= N <= 5,
                bits <= 3,
                is_node_map(N as nat, node_map@),
                m.subset_of(edge_range(N as nat)),
                0 <= lo <= edge_total(N as nat),
                edge_total(N as nat) <= 26,
                it.remaining() == m.intersect(set_int_range(lo, 32)),
                w@.len() == N,
                forall|v: int| 0 <= v < N ==> #[trigger] w@[v] == node_weight(N as nat, bits as nat, m, v, lo),
            ensures
                w@.len() == N,
                forall|v: int| 0 <= v < N ==> #[trigger] w@[v] == node_weight(N as nat, bits as nat, m, v, edge_total(N as nat) as int),
            decreases edge_total(N as nat) - lo,
        {
            let ghost before = it.remaining();
            match it.next() {
                None => {
                    proof {
                        assert forall|v: int| 0 <= v < N implies #[trigger] w@[v] == node_weight(N as nat, bits as nat, m, v, edge_total(N as nat) as int) by {
                            assert forall|x: int| lo <= x < edge_total(N as nat) implies !m.contains(x) by {
                                assert(!before.contains(x));
                            }
                            lemma_node_weight_gap(N as nat, bits as nat, m, v, lo, edge_total(N as nat) as int);
                        }
                    }
                    break;
                },
                Some(e) => {
                    let ghost e_int = e as int;
                    proof {
                        assert(before.contains(e_int));
                        assert(m.contains(e_int));
                        assert(e_int < edge_total(N as nat));
                        crate::fingerprint::lemma_edge_size(N as nat, e_int);
                        assert forall|v: int| 0 <= v < N implies #[trigger] w@[v] == node_weight(N as nat, bits as nat, m, v, e_int) by {
                            assert forall|x: int| lo <= x < e_int implies !m.contains(x) by {
                                if m.contains(x) {
                                    assert(before.contains(x));
                                }
                            }
                            lemma_node_weight_gap(N as nat, bits as nat, m, v, lo, e_int);
                        }
                    }
                    let nodes = node_map[e];
                    let len = nodes.len();
                    proof {
                        assert(nodes@ == edge_nodes(N as nat, e_int));
                        assert(len as nat == edge_size(N as nat, e_int));
                        assert(2 <= len <= 5);
                        crate::tables::lemma_edge_nodes_range(N as nat, e_int);
                        assert(nodes@.subset_of(set_int_range(0, N as int)));
                        assert(bits * (len - 2) <= 9) by (nonlinear_arith)
                            requires
                                bits <= 3,
                                2 <= len <= 5,
                        ;
                    }
                    let sh = bits * (len - 2);
                    proof {
                        assert(sh <= 9) by (nonlinear_arith)
                            requires
                                bits <= 3,
                                len <= 5,
                                len >= 2,
                                sh == bits * (len - 2),
                        ;
                        vstd::bits::lemma_u32_pow2_no_overflow(sh as nat);
                        vstd::bits::lemma_u32_shl_is_mul(1, sh);
                        crate::bits::lemma_pow2_mono(sh as nat, 9);
                        vstd::arithmetic::power2::lemma2_to64();
                        assert(nodes@ == edge_nodes(N as nat, e_int));
                        assert(size_weight(bits as nat, edge_size(N as nat, e_int)) == pow2(sh as nat));
                    }
                    let c = 1u32 << sh;
                    let ghost w0 = w@;
                    proof {
                        assert(bits * (N - 2) <= 9) by (nonlinear_arith)
                            requires
                                bits <= 3,
                                N <= 5,
                        ;
                        crate::bits::lemma_pow2_mono((bits * (N - 2)) as nat, 9);
                        assert forall|v: int| 0 <= v < N implies #[trigger] w0[v] <= 26 * 512 by {
                            lemma_node_weight_bound(N as nat, bits as nat, m, v, e_int);
                            assert(e_int * pow2((bits * (N - 2)) as nat) <= 26 * 512) by (nonlinear_arith)
                                requires
                                    e_int <= 26,
                                    e_int >= 0,
                                    pow2((bits * (N - 2)) as nat) <= 512,
                            ;
                        }
                    }
                    let mut nit = nodes.iter();
                    proof {
                        lemma_set8_range(nodes.nodes);
                    }
                    loop
                        invariant
                            2 <= N <= 5,
                            w@.len() == N,
                            w0.len() == N,
                            nit.remaining().subset_of(nodes@),
                            nodes@.subset_of(set_int_range(0, N as int)),
                            nodes@.finite(),
                            c <= 512,
                            forall|v: int| 0 <= v < N ==> #[trigger] w0[v] <= 26 * 512,
                            forall|v: int| 0 <= v < N ==> #[trigger] w@[v] == w0[v] + if nodes@.contains(v) && !nit.remaining().contains(v) {
                                c as int
                            } else {
                                0
                            },
                        ensures
                            forall|v: int| 0 <= v < N ==> #[trigger] w@[v] == w0[v] + if nodes@.contains(v) {
                                c as int
                            } else {
                                0
                            },
                        decreases nit.remaining().len(),
                    {
                        let ghost nb = nit.remaining();
                        proof {
                            vstd::set_lib::lemma_len_subset(nb, nodes@);
                        }
                        match nit.next() {
                            None => {
                                break;
                            },
                            Some(v) => {
                                proof {
                                    assert(nb.contains(v as int));
                                    assert(nodes@.contains(v as int));
                                }
                                let x = w[v] + c;
                                w.set(v, x);
                            },
                        }
                    }
                    proof {
                        lo = e_int + 1;
                        assert(it.remaining() =~= m.intersect(set_int_range(lo, 32)));
                    }
                },
            }
        }
        proof {
            assert(bits * (N - 2) <= 9) by (nonlinear_arith)
                requires
                    bits <= 3,
                    N <= 5,
            ;
            vstd::arithmetic::power2::lemma2_to64();
            crate::bits::lemma_pow2_mono((bits * (N - 2)) as nat, 9);
            assert forall|v: int| 0 <= v < N implies #[trigger] w@[v] <= 26 * 512 by {
                lemma_node_weight_bound(N as nat, bits as nat, m, v, edge_total(N as nat) as int);
                assert(edge_total(N as nat) * pow2((bits * (N - 2)) as nat) <= 26 * 512) by (nonlinear_arith)
                    requires
                        edge_total(N as nat) <= 26,
                        pow2((bits * (N - 2)) as nat) <= 512,
                ;
            }
        }
        w
    }
}


/// The node histograms of a motif, as words.
pub open spec fn weights_u32(n: nat, bits: nat, m: Set<int>) -> Seq<u32> {
    Seq::new(n, |v: int| node_weight(n, bits, m, v, edge_total(n) as int) as u32)
}

/// An edge of `m` before `lo` is counted among the edges that hold it.
pub proof fn lemma_containing_count_self(n: nat, m: Set<int>, f: int, lo: int)
    requires
        m.contains(f),
        0 <= f < lo,
    ensures
        containing_count(n, m, f, lo) >= 1,
    decreases lo,
{
    if lo - 1 > f {
        lemma_containing_count_self(n, m, f, lo - 1);
    }
}

/// At most one count per edge.
pub proof fn lemma_containing_count_bound(n: nat, m: Set<int>, f: int, lo: int)
    requires
        0 <= lo,
    ensures
        containing_count(n, m, f, lo) <= lo,
    decreases lo,
{
    if lo > 0 {
        lemma_containing_count_bound(n, m, f, lo - 1);
    }
}

/// No edge of `m` in `a..b` leaves the count unchanged.
pub proof fn lemma_containing_count_gap(n: nat, m: Set<int>, f: int, a: int, b: int)
    requires
        0 <= a <= b,
        forall|x: int| a <= x < b ==> !m.contains(x),
    ensures
        containing_count(n, m, f, a) == containing_count(n, m, f, b),
    decreases b - a,
{
    if a < b {
        lemma_containing_count_gap(n, m, f, a, b - 1);
    }
}

/// The fingerprint type of motifs of order 2, which carry no fingerprint.
pub struct Fingerprint2;

/// The fingerprint type of motifs of order 3, which carry no fingerprint.
pub struct Fingerprint3;

/// The fingerprint of a motif of order 4.
#[derive(Clone, Copy)]
pub struct Fingerprint4 {
    /// for each node, a histogram of the sizes of the edges it participates in; sorted by node
    /// degree, then lexicographically by histogram
    order_map: [u8; 4],
    /// for each edge, the number of edges in which it is fully contained
    inclusions: [u8; 11],
}

/// What the fingerprint of order 4 of `m` holds: the node histograms sorted
/// by node degree, then lexicographically by histogram, and, for each edge,
/// the number of other edges of `m` that hold it.
pub open spec fn is_fingerprint4_of(f: Fingerprint4, m: Set<int>) -> bool {
    &&& is_hist_sorted_of(f.order_view(), weights_u32(4, 2, m), 2, 3)
    &&& f.inclusions_view().len() == 11
    &&& forall|e: int| 0 <= e < 11 ==> #[trigger] f.inclusions_view()[e] as int == inclusion(4, m, e)
}

impl Fingerprint4 {
    #[verifier::type_invariant]
    spec fn inclusions_small(&self) -> bool {
        forall|i: int| 0 <= i < 11 ==> #[trigger] self.inclusions@[i] < 11
    }

    /// The node histograms, by node degree, then lexicographically by histogram.
    pub closed spec fn order_view(&self) -> Seq<u32> {
        self.order_map@.map_values(|x: u8| x as u32)
    }

    /// For each edge, the number of other edges that hold it.
    pub closed spec fn inclusions_view(&self) -> Seq<u8> {
        self.inclusions@
    }

    /// The fingerprint of `cm`.
    pub fn from(cm: CompactMotif<4>) -> (r: Self)
        requires
            cm@.subset_of(edge_range(4)),
        ensures
            is_fingerprint4_of(r, cm@),
    {
        proof {
            lemma_edge_totals();
        }
        let ghost m = cm@;
        // node histograms
        let mut w = cm.node_histograms(2);
        let ghost w0 = w@;
        proof {
            assert forall|v: int| 0 <= v < 4 implies #[trigger] w0[v] <= 176 by {
                lemma_node_weight_bound(4, 2, m, v, 11);
                vstd::arithmetic::power2::lemma2_to64();
            }
            assert(w0 =~= weights_u32(4, 2, m));
        }
        sort_histograms(&mut w, 2, 3);
        proof {
            assert forall|v: int| 0 <= v < 4 implies #[trigger] w@[v] <= 176 by {
                broadcast use vstd::seq_lib::group_to_multiset_ensures;
                assert(w@.to_multiset().count(w@[v]) > 0);
                assert(w0.contains(w@[v]));
            }
        }
        let mut order_map = [0u8; 4];
        let mut i: usize = 0;
        while i < 4
            invariant
                i <= 4,
                w@.len() == 4,
                forall|v: int| 0 <= v < 4 ==> #[trigger] w@[v] <= 176,
                forall|j: int| 0 <= j < i ==> order_map@[j] as u32 == w@[j],
            decreases 4 - i,
        {
            order_map[i] = w[i] as u8;
            i += 1;
        }
        proof {
            assert(order_map@.map_values(|x: u8| x as u32) =~= w@);
        }
        // inclusions
        let full = CompactMotif::<4>::get_full_overlaps_const_bitmasks();
        let mut inclusions = [0u8; 11];
        let ghost mut lo: int = 0;
        let mut it = cm.iter_edges();
        proof {
            assert(it.remaining() =~= m.intersect(set_int_range(lo, 32)));
        }
        loop
            invariant
                crate::tables::is_full_overlaps(full@),
                edge_total(4) == 11,
                m == cm@,
                m.subset_of(edge_range(4)),
                0 <= lo <= 11,
                it.remaining() == m.intersect(set_int_range(lo, 32)),
                forall|f: int| 0 <= f < 11 ==> #[trigger] inclusions@[f] as int == if m.contains(f) {
                    containing_count(4, m, f, lo) as int
                } else {
                    0
                },
            ensures
                forall|f: int| 0 <= f < 11 ==> #[trigger] inclusions@[f] as int == if m.contains(f) {
                    containing_count(4, m, f, 11) as int
                } else {
                    0
                },
            decreases 11 - lo,
        {
            let ghost before = it.remaining();
            match it.next() {
                None => {
                    proof {
                        assert forall|f: int| 0 <= f < 11 implies #[trigger] inclusions@[f] as int == if m.contains(f) {
                            containing_count(4, m, f, 11) as int
                        } else {
                            0
                        } by {
                            assert forall|x: int| lo <= x < 11 implies !m.contains(x) by {
                                assert(!before.contains(x));
                            }
                            lemma_containing_count_gap(4, m, f, lo, 11);
                        }
                    }
                    break;
                },
                Some(e) => {
                    let ghost ei = e as int;
                    proof {
                        assert(before.contains(ei));
                        assert forall|f: int| 0 <= f < 11 && m.contains(f) implies containing_count(4, m, f, lo) == containing_count(4, m, f, ei) by {
                            assert forall|x: int| lo <= x < ei implies !m.contains(x) by {
                                if m.contains(x) {
                                    assert(before.contains(x));
                                }
                            }
                            lemma_containing_count_gap(4, m, f, lo, ei);
                        }
                    }
                    proof {
                        assert(m.contains(ei));
                        assert(ei < 11);
                    }
                    let inner_set = full[e].bitand(cm);
                    let ghost inc0 = inclusions@;
                    let mut iit = inner_set.iter_edges();
                    proof {
                        assert(inner_set@ =~= full@[ei]@.intersect(m));
                        crate::bits::lemma_set32_finite(inner_set.bits());
                    }
                    loop
                        invariant
                            0 <= ei < 11,
                            edge_total(4) == 11,
                            inc0.len() == 11,
                            lo <= ei,
                            m.contains(ei),
                            crate::tables::is_full_overlaps(full@),
                            m.subset_of(edge_range(4)),
                            inner_set@ == full@[ei]@.intersect(m),
                            iit.remaining().subset_of(inner_set@),
                            inner_set@.finite(),
                            forall|f: int| 0 <= f < 11 ==> #[trigger] inc0[f] as int == if m.contains(f) {
                                containing_count(4, m, f, ei) as int
                            } else {
                                0
                            },
                            forall|f: int| 0 <= f < 11 ==> #[trigger] inclusions@[f] as int == inc0[f] + if inner_set@.contains(f) && !iit.remaining().contains(f) {
                                1int
                            } else {
                                0
                            },
                        ensures
                            forall|f: int| 0 <= f < 11 ==> #[trigger] inclusions@[f] as int == inc0[f] + if inner_set@.contains(f) {
                                1int
                            } else {
                                0
                            },
                        decreases iit.remaining().len(),
                    {
                        let ghost ib = iit.remaining();
                        proof {
                            vstd::set_lib::lemma_len_subset(ib, inner_set@);
                        }
                        match iit.next() {
                            None => {
                                break;
                            },
                            Some(inner) => {
                                proof {
                                    assert(ib.contains(inner as int));
                                    assert(m.contains(inner as int));
                                    assert(inner < 11);
                                    lemma_containing_count_bound(4, m, inner as int, ei);
                                }
                                inclusions[inner] = inclusions[inner] + 1;
                            },
                        }
                    }
                    proof {
                        assert forall|f: int| 0 <= f < 11 implies #[trigger] inclusions@[f] as int == if m.contains(f) {
                            containing_count(4, m, f, ei + 1) as int
                        } else {
                            0
                        } by {
                            if m.contains(f) {
                                assert(inner_set@.contains(f) == edge_nodes(4, f).subset_of(edge_nodes(4, ei)));
                            }
                        }
                        lo = ei + 1;
                        assert(it.remaining() =~= m.intersect(set_int_range(lo, 32)));
                    }
                },
            }
        }
        // an edge is not counted among those that hold it
        let mut it2 = cm.iter_edges();
        let ghost inc1 = inclusions@;
        proof {
            crate::bits::lemma_set32_finite(cm.bits());
        }
        loop
            invariant
                m.subset_of(edge_range(4)),
                edge_total(4) == 11,
                inc1.len() == 11,
                it2.remaining().subset_of(m),
                m.finite(),
                forall|f: int| 0 <= f < 11 ==> #[trigger] inc1[f] as int == if m.contains(f) {
                    containing_count(4, m, f, 11) as int
                } else {
                    0
                },
                forall|f: int| 0 <= f < 11 ==> #[trigger] inclusions@[f] as int == inc1[f] - if m.contains(f) && !it2.remaining().contains(f) {
                    1int
                } else {
                    0
                },
            ensures
                forall|f: int| 0 <= f < 11 ==> #[trigger] inclusions@[f] as int == inclusion(4, m, f),
            decreases it2.remaining().len(),
        {
            let ghost b2 = it2.remaining();
            proof {
                vstd::set_lib::lemma_len_subset(b2, m);
            }
            match it2.next() {
                None => {
                    break;
                },
                Some(e) => {
                    proof {
                        assert(b2.contains(e as int));
                        lemma_containing_count_self(4, m, e as int, 11);
                    }
                    inclusions[e] = inclusions[e] - 1;
                },
            }
        }
        proof {
            assert forall|f: int| 0 <= f < 11 implies #[trigger] inclusions@[f] < 11 by {
                lemma_containing_count_bound(4, m, f, 11);
                if m.contains(f) {
                    lemma_containing_count_self(4, m, f, 11);
                }
            }
        }
        Fingerprint4 { order_map, inclusions }
    }
}

/// For each value `0..k`, how often it occurs in `s`, as words.
pub open spec fn bucket_counts(s: Seq<u8>, k: nat) -> Seq<u32> {
    Seq::new(k, |v: int| s.to_multiset().count(v as u8) as u32)
}

impl Fingerprint4 {
    /// Counts the occurrences of each inclusion number.
    fn inclusion_buckets(&self) -> (r: [u8; 11])
        ensures
            forall|v: int| 0 <= v < 11 ==> #[trigger] r@[v] as nat == self.inclusions_view().to_multiset().count(v as u8),
    {
        proof {
            use_type_invariant(self);
        }
        let mut b = [0u8; 11];
        let mut i: usize = 0;
        while i < 11
            invariant
                i <= 11,
                self.inclusions@.len() == 11,
                forall|j: int| 0 <= j < 11 ==> #[trigger] self.inclusions@[j] < 11,
                forall|v: int| 0 <= v < 11 ==> #[trigger] b@[v] as nat == count_before(self.inclusions@, v as u8, i as int),
            decreases 11 - i,
        {
            let x = self.inclusions[i] as usize;
            proof {
                assert forall|v: int| 0 <= v < 11 implies #[trigger] count_before(self.inclusions@, v as u8, i as int) <= i by {
                    lemma_count_before_bound(self.inclusions@, v as u8, i as int);
                }
                assert(count_before(self.inclusions@, x as u8, i as int) <= i);
                assert(b@[x as int] as nat == count_before(self.inclusions@, x as u8, i as int));
            }
            b[x] = b[x] + 1;
            i += 1;
        }
        proof {
            assert forall|v: int| 0 <= v < 11 implies #[trigger] b@[v] as nat == self.inclusions_view().to_multiset().count(v as u8) by {
                lemma_count_before(self.inclusions@, v as u8, 11);
                assert(self.inclusions@.subrange(0, 11) =~= self.inclusions@);
            }
        }
        b
    }

    /// The values that the hash of a fingerprint is built from: how often each
    /// inclusion number occurs, then the sorted node histograms.
    pub fn hash_key(&self) -> (r: Vec<u32>)
        ensures
            r@ == bucket_counts(self.inclusions_view(), 11) + self.order_view(),
    {
        let b = self.inclusion_buckets();
        let mut r: Vec<u32> = Vec::new();
        let mut i: usize = 0;
        while i < 11
            invariant
                i <= 11,
                forall|v: int| 0 <= v < 11 ==> #[trigger] b@[v] as nat == self.inclusions_view().to_multiset().count(v as u8),
                r@ == bucket_counts(self.inclusions_view(), 11).subrange(0, i as int),
            decreases 11 - i,
        {
            r.push(b[i] as u32);
            proof {
                assert(r@ =~= bucket_counts(self.inclusions_view(), 11).subrange(0, i + 1));
            }
            i += 1;
        }
        let mut j: usize = 0;
        while j < 4
            invariant
                j <= 4,
                r@ == bucket_counts(self.inclusions_view(), 11) + self.order_view().subrange(0, j as int),
            decreases 4 - j,
        {
            r.push(self.order_map[j] as u32);
            proof {
                assert(r@ =~= bucket_counts(self.inclusions_view(), 11) + self.order_view().subrange(0, j + 1));
            }
            j += 1;
        }
        proof {
            assert(self.order_view().subrange(0, 4) =~= self.order_view());
        }
        r
    }
}

/// A prefix count never passes the prefix length.
pub proof fn lemma_count_before_bound(s: Seq<u8>, v: u8, lo: int)
    requires
        0 <= lo,
    ensures
        count_before(s, v, lo) <= lo,
    decreases lo,
{
    if lo > 0 {
        lemma_count_before_bound(s, v, lo - 1);
    }
}

impl PartialEq for Fingerprint4 {
    fn eq(&self, other: &Self) -> (r: bool) {
        proof {
            use_type_invariant(self);
            use_type_invariant(other);
        }
        let b1 = self.inclusion_buckets();
        let b2 = other.inclusion_buckets();
        let mut i: usize = 0;
        while i < 11
            invariant
                i <= 11,
                forall|v: int| 0 <= v < i ==> b1@[v] == b2@[v],
                forall|v: int| 0 <= v < 11 ==> #[trigger] b1@[v] as nat == self.inclusions_view().to_multiset().count(v as u8),
                forall|v: int| 0 <= v < 11 ==> #[trigger] b2@[v] as nat == other.inclusions_view().to_multiset().count(v as u8),
            decreases 11 - i,
        {
            if b1[i] != b2[i] {
                proof {
                    assert(self.inclusions_view().to_multiset().count(i as u8) != other.inclusions_view().to_multiset().count(i as u8));
                }
                return false;
            }
            i += 1;
        }
        let mut j: usize = 0;
        while j < 4
            invariant
                j <= 4,
                forall|v: int| 0 <= v < j ==> self.order_map@[v] == other.order_map@[v],
                forall|v: int| 0 <= v < 11 ==> b1@[v] == b2@[v],
                forall|v: int| 0 <= v < 11 ==> #[trigger] b1@[v] as nat == self.inclusions_view().to_multiset().count(v as u8),
                forall|v: int| 0 <= v < 11 ==> #[trigger] b2@[v] as nat == other.inclusions_view().to_multiset().count(v as u8),
            decreases 4 - j,
        {
            if self.order_map[j] != other.order_map[j] {
                proof {
                    assert(self.order_view()[j as int] != other.order_view()[j as int]);
                }
                return false;
            }
            j += 1;
        }
        proof {
            assert(self.order_view() =~= other.order_view());
            assert forall|x: u8| #[trigger] self.inclusions_view().to_multiset().count(x) == other.inclusions_view().to_multiset().count(x) by {
                broadcast use vstd::seq_lib::group_to_multiset_ensures;
                if x < 11 {
                    assert(b1@[x as int] == b2@[x as int]);
                } else {
                    if self.inclusions_view().to_multiset().count(x) > 0 {
                        let k = choose|k: int| 0 <= k < 11 && self.inclusions@[k] == x;
                    }
                    if other.inclusions_view().to_multiset().count(x) > 0 {
                        let k = choose|k: int| 0 <= k < 11 && other.inclusions@[k] == x;
                    }
                }
            }
            assert(self.inclusions_view().to_multiset() =~= other.inclusions_view().to_multiset());
        }
        true
    }
}

impl vstd::std_specs::cmp::PartialEqSpecImpl for Fingerprint4 {
    open spec fn obeys_eq_spec() -> bool {
        true
    }

    open spec fn eq_spec(&self, other: &Self) -> bool {
        &&& self.order_view() == other.order_view()
        &&& self.inclusions_view().to_multiset() == other.inclusions_view().to_multiset()
    }
}

impl Eq for Fingerprint4 {}

/// Equal fingerprints of order 4 hash alike.
pub proof fn lemma_fingerprint4_hash_agrees(a: Fingerprint4, b: Fingerprint4)
    requires
        a.eq_spec(&b),
    ensures
        bucket_counts(a.inclusions_view(), 11) + a.order_view() == bucket_counts(b.inclusions_view(), 11) + b.order_view(),
{
    assert(bucket_counts(a.inclusions_view(), 11) =~= bucket_counts(b.inclusions_view(), 11));
}

impl CompactMotif<4> {
    /// The fingerprint of the motif.
    pub fn fingerprint(&self) -> (r: Fingerprint4)
        requires
            self@.subset_of(edge_range(4)),
        ensures
            is_fingerprint4_of(r, self@),
    {
        Fingerprint4::from(*self)
    }
}
} // verus!
