//! The fingerprint of order-5 motifs: node histograms by degree and sorted
//! connection counters.

use vstd::prelude::*;

verus! {

use vstd::relations::{sorted_by, total_ordering};
use crate::node_set::CompressedNodeSet;
use crate::motif::CompactMotif;
use crate::motif_ops::edge_range;
use crate::tables::{
    edge_total,
    order_edges,
    edges_upto,
    combos,
    is_node_map,
    lemma_edge_totals,
    lemma_edges_upto_step,
    lemma_combos_elems,
    lemma_combos_len,
};
use crate::util::binom;
use crate::fingerprint::{edge_size, lemma_edge_size, is_sorted_of, is_hist_sorted_of, weights_u32, lemma_node_weight_bound};
use crate::histogram::sort_histograms;
use vstd::set_lib::set_int_range;
use crate::sorting_network::{sort_range, sorted_between};
use crate::cross_edges::{block_counts, block_offset, info_len, lemma_block_layout};
use vstd::std_specs::cmp::PartialEqSpec;

/// Sizes of the hyperedges of order 5, by number: ten pairs, ten triples,
/// five quadruples, then the edge of all five nodes.
pub proof fn lemma_edge_sizes5(f: int)
    requires
        0 <= f < 26,
    ensures
        edge_size(5, f) == if f < 10 {
            2nat
        } else if f < 20 {
            3nat
        } else if f < 25 {
            4nat
        } else {
            5nat
        },
{
    lemma_edge_totals();
    lemma_edge_size(5, f);
    lemma_edges_upto_step(5, 2);
    lemma_edges_upto_step(5, 3);
    lemma_edges_upto_step(5, 4);
    lemma_edges_upto_step(5, 5);
    assert(edges_upto(5, 2) == Seq::<Seq<int>>::empty());
    lemma_combos_len(0, 5, 2);
    lemma_combos_len(0, 5, 3);
    lemma_combos_len(0, 5, 4);
    lemma_combos_len(0, 5, 5);
    reveal_with_fuel(binom, 6);
    lemma_combos_elems(0, 5, 2);
    lemma_combos_elems(0, 5, 3);
    lemma_combos_elems(0, 5, 4);
    lemma_combos_elems(0, 5, 5);
    let e3 = edges_upto(5, 3);
    let e4 = edges_upto(5, 4);
    let e5 = edges_upto(5, 5);
    assert(e3 =~= combos(0, 5, 2));
    assert(order_edges(5) == e5 + combos(0, 5, 5));
    if f < 10 {
        assert(order_edges(5)[f] == combos(0, 5, 2)[f]);
    } else if f < 20 {
        assert(order_edges(5)[f] == e4[f]);
        assert(e4[f] == combos(0, 5, 3)[f - 10]);
    } else if f < 25 {
        assert(order_edges(5)[f] == e5[f]);
        assert(e5[f] == combos(0, 5, 4)[f - 20]);
    } else {
        assert(order_edges(5)[f] == combos(0, 5, 5)[f - 25]);
    }
}

/// `b` lists, in increasing order, the counters of all the groups of
/// `s` nodes of edge `e` (see `block_counts`).
pub open spec fn is_block_of(b: Seq<u32>, cm: Set<int>, e: int, s: nat) -> bool {
    &&& sorted_between(b, 0, b.len() as int)
    &&& block_counts(b, cm, e, s)
}

/// The counters of the groups of `s` nodes of edge `e`, in increasing order.
pub open spec fn sorted_block(cm: Set<int>, e: int, s: nat) -> Seq<u32> {
    choose|b: Seq<u32>| is_block_of(b, cm, e, s)
}

/// The counters of all the groups around edge `e`, block by block, each
/// block in increasing order.
pub open spec fn cross_infos(cm: Set<int>, e: int) -> Seq<u32> {
    let k = edge_size(5, e);
    if k == 2 {
        sorted_block(cm, e, 1) + sorted_block(cm, e, 2)
    } else if k == 3 {
        sorted_block(cm, e, 1) + sorted_block(cm, e, 2) + sorted_block(cm, e, 3)
    } else {
        sorted_block(cm, e, 1) + sorted_block(cm, e, 2) + sorted_block(cm, e, 3) + sorted_block(
            cm,
            e,
            4,
        )
    }
}

/// Packs the counters of an edge of size `k` into one word: fields of 5 bits
/// for a pair (in 16 bits), of 3 bits for a triple, of 1 bit for a quadruple
/// (in 16 bits, the last counter left out).
pub open spec fn pack_entry(k: nat, v: Seq<u32>) -> u32 {
    if k == 2 {
        ((v[0] as u16) | ((v[1] as u16) << 5u16) | ((v[2] as u16) << 10u16)) as u32
    } else if k == 3 {
        v[0] | (v[1] << 3u32) | (v[2] << 6u32) | (v[3] << 9u32) | (v[4] << 12u32) | (v[5] << 15u32)
            | (v[6] << 18u32)
    } else {
        ((v[0] as u16) | ((v[1] as u16) << 1u16) | ((v[2] as u16) << 2u16) | ((v[3] as u16) << 3u16)
            | ((v[4] as u16) << 4u16) | ((v[5] as u16) << 5u16) | ((v[6] as u16) << 6u16) | ((
        v[7] as u16) << 7u16) | ((v[8] as u16) << 8u16) | ((v[9] as u16) << 9u16) | ((v[10] as u16)
            << 10u16) | ((v[11] as u16) << 11u16) | ((v[12] as u16) << 12u16) | ((v[13] as u16)
            << 13u16)) as u32
    }
}

/// The connection entry of edge `e` of motif `cm`.
pub open spec fn conn_entry(cm: Set<int>, e: int) -> u32 {
    pack_entry(edge_size(5, e), cross_infos(cm, e))
}

/// The connection entries of the edges `f < lo` of `cm` of size `k`, by edge number.
pub open spec fn conn_entries(cm: Set<int>, k: nat, lo: int) -> Seq<u32>
    decreases lo,
{
    if lo <= 0 {
        Seq::empty()
    } else {
        conn_entries(cm, k, lo - 1) + if cm.contains(lo - 1) && edge_size(5, lo - 1) == k {
            seq![conn_entry(cm, lo - 1)]
        } else {
            Seq::empty()
        }
    }
}

/// A sorted rearrangement of a block's counters is the sorted block.
pub proof fn lemma_sorted_block_unique(raw: Seq<u32>, b: Seq<u32>, cm: Set<int>, e: int, s: nat)
    requires
        block_counts(raw, cm, e, s),
        sorted_between(b, 0, b.len() as int),
        b.to_multiset() == raw.to_multiset(),
    ensures
        sorted_block(cm, e, s) == b,
{
    assert(is_block_of(b, cm, e, s));
    let c = sorted_block(cm, e, s);
    assert(is_block_of(c, cm, e, s));
    let leq = |x: u32, y: u32| x <= y;
    assert(c.to_multiset() =~= b.to_multiset()) by {
        assert forall|v: u32| #[trigger] c.to_multiset().count(v) == b.to_multiset().count(v) by {
            assert(block_counts(c, cm, e, s));
            assert(block_counts(raw, cm, e, s));
            assert(c.to_multiset().count(v) == raw.to_multiset().count(v));
        }
    }
    assert(sorted_by(b, leq));
    assert(sorted_by(c, leq));
    assert(total_ordering(leq));
    vstd::seq_lib::lemma_sorted_unique(c, b, leq);
}

/// One block of a list of counters that holds every block.
proof fn lemma_block_at(r: Seq<u32>, cm: Set<int>, e: int, k: nat, s: nat)
    requires
        1 <= s <= k,
        forall|s: nat| 1 <= s <= k ==> #[trigger] block_counts(r.subrange(block_offset(k, s) as int, (block_offset(k, s) + binom(k, s)) as int), cm, e, s),
    ensures
        block_counts(r.subrange(block_offset(k, s) as int, (block_offset(k, s) + binom(k, s)) as int), cm, e, s),
{
}

impl CompactMotif<5> {
    /// The connection entry of edge `e`, of size `k`, of the motif.
    fn connection_entry(&self, e: usize, k: usize, node_map: &Vec<CompressedNodeSet>) -> (r: u32)
        requires
            self@.subset_of(edge_range(5)),
            self@.contains(e as int),
            is_node_map(5, node_map@),
            k == edge_size(5, e as int),
            2 <= k <= 4,
        ensures
            r == conn_entry(self@, e as int),
    {
        let mut v = self.cross_edge_infos(e, k, node_map);
        let ghost raw = v@;
        let ghost cm = self@;
        let ghost ei = e as int;
        proof {
            lemma_block_layout(k as nat);
            reveal_with_fuel(binom, 6);
        }
        if k == 2 {
            sort_range(&mut v, 0, 2);
            proof {
                lemma_block_at(raw, cm, ei, k as nat, 1);
                assert(block_counts(raw.subrange(0, 2), cm, ei, 1));
                lemma_block_at(raw, cm, ei, k as nat, 2);
                assert(block_counts(raw.subrange(2, 3), cm, ei, 2));
                lemma_sorted_block_unique(raw.subrange(0, 2), v@.subrange(0, 2), cm, ei, 1);
                assert(v@.subrange(2, 3) =~= raw.subrange(2, 3));
                lemma_sorted_block_unique(raw.subrange(2, 3), v@.subrange(2, 3), cm, ei, 2);
                assert(v@ =~= v@.subrange(0, 2) + v@.subrange(2, 3));
            }
            ((v[0] as u16) | ((v[1] as u16) << 5u16) | ((v[2] as u16) << 10u16)) as u32
        } else if k == 3 {
            sort_range(&mut v, 0, 3);
            let ghost v1 = v@;
            sort_range(&mut v, 3, 6);
            proof {
                lemma_block_at(raw, cm, ei, k as nat, 1);
                assert(block_counts(raw.subrange(0, 3), cm, ei, 1));
                lemma_block_at(raw, cm, ei, k as nat, 2);
                assert(block_counts(raw.subrange(3, 6), cm, ei, 2));
                lemma_block_at(raw, cm, ei, k as nat, 3);
                assert(block_counts(raw.subrange(6, 7), cm, ei, 3));
                assert(v1.subrange(3, 6) =~= raw.subrange(3, 6));
                assert(v@.subrange(0, 3) =~= v1.subrange(0, 3));
                lemma_sorted_block_unique(raw.subrange(0, 3), v@.subrange(0, 3), cm, ei, 1);
                lemma_sorted_block_unique(raw.subrange(3, 6), v@.subrange(3, 6), cm, ei, 2);
                assert(v@.subrange(6, 7) =~= raw.subrange(6, 7));
                lemma_sorted_block_unique(raw.subrange(6, 7), v@.subrange(6, 7), cm, ei, 3);
                assert(v@ =~= v@.subrange(0, 3) + v@.subrange(3, 6) + v@.subrange(6, 7));
            }
            v[0] | (v[1] << 3u32) | (v[2] << 6u32) | (v[3] << 9u32) | (v[4] << 12u32) | (v[5] << 15u32)
                | (v[6] << 18u32)
        } else {
            sort_range(&mut v, 0, 4);
            let ghost v1 = v@;
            sort_range(&mut v, 4, 10);
            let ghost v2 = v@;
            sort_range(&mut v, 10, 14);
            proof {
                lemma_block_at(raw, cm, ei, k as nat, 1);
                assert(block_counts(raw.subrange(0, 4), cm, ei, 1));
                lemma_block_at(raw, cm, ei, k as nat, 2);
                assert(block_counts(raw.subrange(4, 10), cm, ei, 2));
                lemma_block_at(raw, cm, ei, k as nat, 3);
                assert(block_counts(raw.subrange(10, 14), cm, ei, 3));
                lemma_block_at(raw, cm, ei, k as nat, 4);
                assert(block_counts(raw.subrange(14, 15), cm, ei, 4));
                assert(v1.subrange(4, 10) =~= raw.subrange(4, 10));
                assert(v2.subrange(10, 14) =~= raw.subrange(10, 14));
                assert(v2.subrange(0, 4) =~= v1.subrange(0, 4));
                assert(v@.subrange(0, 4) =~= v2.subrange(0, 4));
                assert(v@.subrange(4, 10) =~= v2.subrange(4, 10));
                lemma_sorted_block_unique(raw.subrange(0, 4), v@.subrange(0, 4), cm, ei, 1);
                lemma_sorted_block_unique(raw.subrange(4, 10), v@.subrange(4, 10), cm, ei, 2);
                lemma_sorted_block_unique(raw.subrange(10, 14), v@.subrange(10, 14), cm, ei, 3);
                assert(v@.subrange(14, 15) =~= raw.subrange(14, 15));
                lemma_sorted_block_unique(raw.subrange(14, 15), v@.subrange(14, 15), cm, ei, 4);
                assert(v@ =~= v@.subrange(0, 4) + v@.subrange(4, 10) + v@.subrange(10, 14) + v@.subrange(14, 15));
            }
            ((v[0] as u16) | ((v[1] as u16) << 1u16) | ((v[2] as u16) << 2u16) | ((v[3] as u16) << 3u16)
                | ((v[4] as u16) << 4u16) | ((v[5] as u16) << 5u16) | ((v[6] as u16) << 6u16) | ((
            v[7] as u16) << 7u16) | ((v[8] as u16) << 8u16) | ((v[9] as u16) << 9u16) | ((v[10] as u16)
                << 10u16) | ((v[11] as u16) << 11u16) | ((v[12] as u16) << 12u16) | ((v[13] as u16)
                << 13u16)) as u32
        }
    }
}


/// The fingerprint of a motif of order 5.
#[derive(Clone, Copy)]
pub struct Fingerprint5 {
    /// for each node, a histogram of the sizes of the edges it participates in; sorted by node
    /// degree, then lexicographically by histogram
    order_map: [u16; 5],
    /// for the edges of size 2, 3 and 4, their connection entries, sorted; the entries past
    /// those in use are 0
    edge_connection_map: ([u16; 10], [u32; 10], [u16; 5]),
    /// how many entries of each list are in use
    edge_connection_map_sizes: (usize, usize, usize),
}

impl Fingerprint5 {
    #[verifier::type_invariant]
    spec fn sizes_fit(&self) -> bool {
        &&& self.edge_connection_map_sizes.0 <= 10
        &&& self.edge_connection_map_sizes.1 <= 10
        &&& self.edge_connection_map_sizes.2 <= 5
        &&& forall|i: int| self.edge_connection_map_sizes.0 <= i < 10 ==> #[trigger] self.edge_connection_map.0@[i] == 0
        &&& forall|i: int| self.edge_connection_map_sizes.1 <= i < 10 ==> #[trigger] self.edge_connection_map.1@[i] == 0
        &&& forall|i: int| self.edge_connection_map_sizes.2 <= i < 5 ==> #[trigger] self.edge_connection_map.2@[i] == 0
    }

    /// The node histograms, by node degree, then lexicographically by histogram.
    pub closed spec fn order_view(&self) -> Seq<u32> {
        self.order_map@.map_values(|x: u16| x as u32)
    }

    /// The connection entries of the edges of size `k` in use, as words.
    pub closed spec fn conn_view(&self, k: nat) -> Seq<u32> {
        if k == 2 {
            self.edge_connection_map.0@.subrange(0, self.edge_connection_map_sizes.0 as int).map_values(
                |x: u16| x as u32,
            )
        } else if k == 3 {
            self.edge_connection_map.1@.subrange(0, self.edge_connection_map_sizes.1 as int)
        } else {
            self.edge_connection_map.2@.subrange(0, self.edge_connection_map_sizes.2 as int).map_values(
                |x: u16| x as u32,
            )
        }
    }

    /// An empty fingerprint: a zero histogram for each node and no entries.
    pub fn new() -> (r: Self)
        ensures
            r.order_view() == Seq::new(5, |i: int| 0u32),
            r.conn_view(2) == Seq::<u32>::empty(),
            r.conn_view(3) == Seq::<u32>::empty(),
            r.conn_view(4) == Seq::<u32>::empty(),
    {
        let r = Self {
            order_map: [0u16; 5],
            edge_connection_map: ([0u16; 10], [0u32; 10], [0u16; 5]),
            edge_connection_map_sizes: (0, 0, 0),
        };
        proof {
            assert(r.order_view() =~= Seq::new(5, |i: int| 0u32));
            assert(r.conn_view(2) =~= Seq::<u32>::empty());
            assert(r.conn_view(3) =~= Seq::<u32>::empty());
            assert(r.conn_view(4) =~= Seq::<u32>::empty());
        }
        r
    }

    /// Fills in the node histograms of `cm`, by node degree, then
    /// lexicographically by histogram; each edge of size `k`
    /// adds `2^(3 * (k - 2))` to each of its nodes.
    pub fn build_order_map(&mut self, cm: &CompactMotif<5>)
        requires
            cm@.subset_of(edge_range(5)),
        ensures
            is_hist_sorted_of(final(self).order_view(), weights_u32(5, 3, cm@), 3, 4),
            final(self).conn_view(2) == old(self).conn_view(2),
            final(self).conn_view(3) == old(self).conn_view(3),
            final(self).conn_view(4) == old(self).conn_view(4),
    {
        proof {
            use_type_invariant(&*self);
            lemma_edge_totals();
        }
        let ghost m = cm@;
        let mut w = cm.node_histograms(3);
        let ghost w0 = w@;
        proof {
            assert(w0 =~= weights_u32(5, 3, m));
        }
        sort_histograms(&mut w, 3, 4);
        proof {
            assert forall|v: int| 0 <= v < 5 implies #[trigger] w@[v] <= 26 * 512 by {
                broadcast use vstd::seq_lib::group_to_multiset_ensures;
                assert(w@.to_multiset().count(w@[v]) > 0);
                assert(w0.contains(w@[v]));
            }
        }
        let mut order_map = [0u16; 5];
        let mut i: usize = 0;
        while i < 5
            invariant
                i <= 5,
                w@.len() == 5,
                forall|v: int| 0 <= v < 5 ==> #[trigger] w@[v] <= 26 * 512,
                forall|j: int| 0 <= j < i ==> order_map@[j] as u32 == w@[j],
            decreases 5 - i,
        {
            order_map[i] = w[i] as u16;
            i += 1;
        }
        self.order_map = order_map;
        proof {
            assert(self.order_view() =~= w@);
        }
    }

    /// Fills in, for the edges of `cm` of sizes 2, 3 and 4, the sorted lists of
    /// their connection entries; an edge of size 5 has none.
    pub fn build_edge_connection_map(&mut self, cm: &CompactMotif<5>)
        requires
            cm@.subset_of(edge_range(5)),
        ensures
            final(self).order_view() == old(self).order_view(),
            is_sorted_of(final(self).conn_view(2), conn_entries(cm@, 2, 26)),
            is_sorted_of(final(self).conn_view(3), conn_entries(cm@, 3, 26)),
            is_sorted_of(final(self).conn_view(4), conn_entries(cm@, 4, 26)),
    {
        proof {
            use_type_invariant(&*self);
            lemma_edge_totals();
        }
        let ghost m = cm@;
        let node_map = CompactMotif::<5>::get_node_map_const_bitmasks();
        let mut l2: Vec<u32> = Vec::new();
        let mut l3: Vec<u32> = Vec::new();
        let mut l4: Vec<u32> = Vec::new();
        let ghost mut lo: int = 0;
        let mut it = cm.iter_edges();
        proof {
            assert(it.remaining() =~= m.intersect(set_int_range(lo, 32)));
            assert(l2@ =~= conn_entries(m, 2, 0));
            assert(l3@ =~= conn_entries(m, 3, 0));
            assert(l4@ =~= conn_entries(m, 4, 0));
        }
        loop
            invariant
                is_node_map(5, node_map@),
                m == cm@,
                m.subset_of(edge_range(5)),
                edge_total(5) == 26,
                0 <= lo <= 26,
                it.remaining() == m.intersect(set_int_range(lo, 32)),
                l2@ == conn_entries(m, 2, lo),
                l3@ == conn_entries(m, 3, lo),
                l4@ == conn_entries(m, 4, lo),
                l2@.len() <= if lo < 10 { lo } else { 10 },
                l3@.len() <= if lo < 10 { 0 } else if lo < 20 { lo - 10 } else { 10 },
                l4@.len() <= if lo < 20 { 0 } else if lo < 25 { lo - 20 } else { 5 },
                forall|i: int| 0 <= i < l2@.len() ==> #[trigger] l2@[i] < 0x10000,
                forall|i: int| 0 <= i < l4@.len() ==> #[trigger] l4@[i] < 0x10000,
            ensures
                l2@ == conn_entries(m, 2, 26),
                l3@ == conn_entries(m, 3, 26),
                l4@ == conn_entries(m, 4, 26),
                l2@.len() <= 10,
                l3@.len() <= 10,
                l4@.len() <= 5,
                forall|i: int| 0 <= i < l2@.len() ==> #[trigger] l2@[i] < 0x10000,
                forall|i: int| 0 <= i < l4@.len() ==> #[trigger] l4@[i] < 0x10000,
            decreases 26 - lo,
        {
            let ghost before = it.remaining();
            match it.next() {
                None => {
                    proof {
                        assert forall|x: int| lo <= x < 26 implies !m.contains(x) by {
                            assert(!before.contains(x));
                        }
                        lemma_conn_entries_gap(m, 2, lo, 26);
                        lemma_conn_entries_gap(m, 3, lo, 26);
                        lemma_conn_entries_gap(m, 4, lo, 26);
                    }
                    break;
                },
                Some(e) => {
                    let ghost ei = e as int;
                    proof {
                        assert(before.contains(ei));
                        assert forall|x: int| lo <= x < ei implies !m.contains(x) by {
                            if m.contains(x) {
                                assert(before.contains(x));
                            }
                        }
                        lemma_conn_entries_gap(m, 2, lo, ei);
                        lemma_conn_entries_gap(m, 3, lo, ei);
                        lemma_conn_entries_gap(m, 4, lo, ei);
                        lemma_edge_sizes5(ei);
                        lemma_edge_size(5, ei);
                    }
                    let k = node_map[e].len() as usize;
                    if k == 2 {
                        let x = cm.connection_entry(e, 2, &node_map);
                        proof {
                            lemma_conn_entry_small(m, ei);
                        }
                        l2.push(x);
                    } else if k == 3 {
                        let x = cm.connection_entry(e, 3, &node_map);
                        l3.push(x);
                    } else if k == 4 {
                        let x = cm.connection_entry(e, 4, &node_map);
                        proof {
                            lemma_conn_entry_small(m, ei);
                        }
                        l4.push(x);
                    }
                    proof {
                        lo = ei + 1;
                        assert(it.remaining() =~= m.intersect(set_int_range(lo, 32)));
                        assert(l2@ =~= conn_entries(m, 2, lo));
                        assert(l3@ =~= conn_entries(m, 3, lo));
                        assert(l4@ =~= conn_entries(m, 4, lo));
                    }
                },
            }
        }
        let n2 = l2.len();
        let n3 = l3.len();
        let n4 = l4.len();
        let ghost s2 = l2@;
        let ghost s4 = l4@;
        sort_range(&mut l2, 0, n2);
        sort_range(&mut l3, 0, n3);
        sort_range(&mut l4, 0, n4);
        proof {
            broadcast use vstd::seq_lib::group_to_multiset_ensures;
            assert(l2@.subrange(0, n2 as int) =~= l2@);
            assert(l3@.subrange(0, n3 as int) =~= l3@);
            assert(l4@.subrange(0, n4 as int) =~= l4@);
            assert(s2.subrange(0, n2 as int) =~= s2);
            assert(s4.subrange(0, n4 as int) =~= s4);
            assert(conn_entries(m, 3, 26).subrange(0, n3 as int) =~= conn_entries(m, 3, 26));
            assert forall|i: int| 0 <= i < n2 implies #[trigger] l2@[i] < 0x10000 by {
                assert(l2@.to_multiset().count(l2@[i]) > 0);
                assert(s2.contains(l2@[i]));
            }
            assert forall|i: int| 0 <= i < n4 implies #[trigger] l4@[i] < 0x10000 by {
                assert(l4@.to_multiset().count(l4@[i]) > 0);
                assert(s4.contains(l4@[i]));
            }
        }
        let mut c2 = [0u16; 10];
        let mut c3 = [0u32; 10];
        let mut c4 = [0u16; 5];
        let mut i: usize = 0;
        while i < n2
            invariant
                n2 == l2@.len(),
                n2 <= 10,
                i <= n2,
                forall|j: int| 0 <= j < n2 ==> #[trigger] l2@[j] < 0x10000,
                forall|j: int| 0 <= j < i ==> c2@[j] as u32 == l2@[j],
                forall|j: int| i <= j < 10 ==> c2@[j] == 0,
            decreases n2 - i,
        {
            c2[i] = l2[i] as u16;
            i += 1;
        }
        let mut i: usize = 0;
        while i < n3
            invariant
                n3 == l3@.len(),
                n3 <= 10,
                i <= n3,
                forall|j: int| 0 <= j < i ==> c3@[j] == l3@[j],
                forall|j: int| i <= j < 10 ==> c3@[j] == 0,
            decreases n3 - i,
        {
            c3[i] = l3[i];
            i += 1;
        }
        let mut i: usize = 0;
        while i < n4
            invariant
                n4 == l4@.len(),
                n4 <= 5,
                i <= n4,
                forall|j: int| 0 <= j < n4 ==> #[trigger] l4@[j] < 0x10000,
                forall|j: int| 0 <= j < i ==> c4@[j] as u32 == l4@[j],
                forall|j: int| i <= j < 5 ==> c4@[j] == 0,
            decreases n4 - i,
        {
            c4[i] = l4[i] as u16;
            i += 1;
        }
        *self = Self {
            order_map: self.order_map,
            edge_connection_map: (c2, c3, c4),
            edge_connection_map_sizes: (n2, n3, n4),
        };
        proof {
            assert(self.conn_view(2) =~= l2@);
            assert(self.conn_view(3) =~= l3@);
            assert(self.conn_view(4) =~= l4@);
        }
    }
}

/// No edge of `cm` in `a..b` leaves the entry lists unchanged.
pub proof fn lemma_conn_entries_gap(cm: Set<int>, k: nat, a: int, b: int)
    requires
        0 <= a <= b,
        forall|x: int| a <= x < b ==> !cm.contains(x),
    ensures
        conn_entries(cm, k, a) == conn_entries(cm, k, b),
    decreases b - a,
{
    if a < b {
        lemma_conn_entries_gap(cm, k, a, b - 1);
        assert(conn_entries(cm, k, b) =~= conn_entries(cm, k, b - 1));
    }
}

/// The entry of a pair or a quadruple fits in 16 bits.
pub proof fn lemma_conn_entry_small(cm: Set<int>, e: int)
    requires
        edge_size(5, e) == 2 || edge_size(5, e) == 4,
    ensures
        conn_entry(cm, e) < 0x10000,
{
}

/// What the fingerprint of order 5 of `m` holds: the node histograms (by
/// node degree, then lexicographically by histogram)
/// and, for each edge size 2, 3 and 4, the sorted connection entries.
pub open spec fn is_fingerprint5_of(f: Fingerprint5, m: Set<int>) -> bool {
    &&& is_hist_sorted_of(f.order_view(), weights_u32(5, 3, m), 3, 4)
    &&& is_sorted_of(f.conn_view(2), conn_entries(m, 2, 26))
    &&& is_sorted_of(f.conn_view(3), conn_entries(m, 3, 26))
    &&& is_sorted_of(f.conn_view(4), conn_entries(m, 4, 26))
}

impl Fingerprint5 {
    /// The fingerprint of `cm`.
    pub fn from(cm: CompactMotif<5>) -> (r: Self)
        requires
            cm@.subset_of(edge_range(5)),
        ensures
            is_fingerprint5_of(r, cm@),
    {
        let mut rv = Fingerprint5::new();
        rv.build_order_map(&cm);
        rv.build_edge_connection_map(&cm);
        rv
    }

    /// The values that the hash of a fingerprint is built from, in order: the
    /// node histograms, then the entries for pairs, triples and quadruples.
    pub fn hash_key(&self) -> (r: Vec<u32>)
        ensures
            r@ == self.order_view() + self.conn_view(2) + self.conn_view(3) + self.conn_view(4),
    {
        proof {
            use_type_invariant(self);
        }
        let mut r: Vec<u32> = Vec::new();
        let mut i: usize = 0;
        while i < 5
            invariant
                i <= 5,
                r@ == self.order_view().subrange(0, i as int),
            decreases 5 - i,
        {
            r.push(self.order_map[i] as u32);
            proof {
                assert(r@ =~= self.order_view().subrange(0, i + 1));
            }
            i += 1;
        }
        proof {
            assert(self.order_view().subrange(0, 5) =~= self.order_view());
        }
        let ghost p = r@;
        let n2 = self.edge_connection_map_sizes.0;
        let mut i: usize = 0;
        while i < n2
            invariant
                n2 == self.edge_connection_map_sizes.0,
                n2 <= 10,
                i <= n2,
                r@ == p + self.conn_view(2).subrange(0, i as int),
            decreases n2 - i,
        {
            r.push(self.edge_connection_map.0[i] as u32);
            proof {
                assert(r@ =~= p + self.conn_view(2).subrange(0, i + 1));
            }
            i += 1;
        }
        proof {
            assert(self.conn_view(2).subrange(0, n2 as int) =~= self.conn_view(2));
        }
        let ghost p = r@;
        let n3 = self.edge_connection_map_sizes.1;
        let mut i: usize = 0;
        while i < n3
            invariant
                n3 == self.edge_connection_map_sizes.1,
                n3 <= 10,
                i <= n3,
                r@ == p + self.conn_view(3).subrange(0, i as int),
            decreases n3 - i,
        {
            r.push(self.edge_connection_map.1[i]);
            proof {
                assert(r@ =~= p + self.conn_view(3).subrange(0, i + 1));
            }
            i += 1;
        }
        proof {
            assert(self.conn_view(3).subrange(0, n3 as int) =~= self.conn_view(3));
        }
        let ghost p = r@;
        let n4 = self.edge_connection_map_sizes.2;
        let mut i: usize = 0;
        while i < n4
            invariant
                n4 == self.edge_connection_map_sizes.2,
                n4 <= 5,
                i <= n4,
                r@ == p + self.conn_view(4).subrange(0, i as int),
            decreases n4 - i,
        {
            r.push(self.edge_connection_map.2[i] as u32);
            proof {
                assert(r@ =~= p + self.conn_view(4).subrange(0, i + 1));
            }
            i += 1;
        }
        proof {
            assert(self.conn_view(4).subrange(0, n4 as int) =~= self.conn_view(4));
        }
        r
    }
}

impl PartialEq for Fingerprint5 {
    fn eq(&self, other: &Self) -> (r: bool) {
        proof {
            use_type_invariant(self);
            use_type_invariant(other);
        }
        let mut j: usize = 0;
        while j < 5
            invariant
                j <= 5,
                forall|v: int| 0 <= v < j ==> self.order_map@[v] == other.order_map@[v],
            decreases 5 - j,
        {
            if self.order_map[j] != other.order_map[j] {
                proof {
                    assert(self.order_view()[j as int] != other.order_view()[j as int]);
                }
                return false;
            }
            j += 1;
        }
        proof {
            assert(self.order_view() =~= other.order_view());
        }
        let n2 = self.edge_connection_map_sizes.0;
        if n2 != other.edge_connection_map_sizes.0 {
            proof {
                assert(self.conn_view(2).len() != other.conn_view(2).len());
            }
            return false;
        }
        let mut i: usize = 0;
        while i < n2
            invariant
                n2 == self.edge_connection_map_sizes.0,
                n2 == other.edge_connection_map_sizes.0,
                n2 <= 10,
                i <= n2,
                forall|v: int| 0 <= v < i ==> self.edge_connection_map.0@[v] == other.edge_connection_map.0@[v],
            decreases n2 - i,
        {
            if self.edge_connection_map.0[i] != other.edge_connection_map.0[i] {
                proof {
                    assert(self.conn_view(2)[i as int] != other.conn_view(2)[i as int]);
                }
                return false;
            }
            i += 1;
        }
        proof {
            assert(self.conn_view(2) =~= other.conn_view(2));
        }
        let n3 = self.edge_connection_map_sizes.1;
        if n3 != other.edge_connection_map_sizes.1 {
            proof {
                assert(self.conn_view(3).len() != other.conn_view(3).len());
            }
            return false;
        }
        let mut i: usize = 0;
        while i < n3
            invariant
                n3 == self.edge_connection_map_sizes.1,
                n3 == other.edge_connection_map_sizes.1,
                n3 <= 10,
                i <= n3,
                forall|v: int| 0 <= v < i ==> self.edge_connection_map.1@[v] == other.edge_connection_map.1@[v],
            decreases n3 - i,
        {
            if self.edge_connection_map.1[i] != other.edge_connection_map.1[i] {
                proof {
                    assert(self.conn_view(3)[i as int] != other.conn_view(3)[i as int]);
                }
                return false;
            }
            i += 1;
        }
        proof {
            assert(self.conn_view(3) =~= other.conn_view(3));
        }
        let n4 = self.edge_connection_map_sizes.2;
        if n4 != other.edge_connection_map_sizes.2 {
            proof {
                assert(self.conn_view(4).len() != other.conn_view(4).len());
            }
            return false;
        }
        let mut i: usize = 0;
        while i < n4
            invariant
                n4 == self.edge_connection_map_sizes.2,
                n4 == other.edge_connection_map_sizes.2,
                n4 <= 5,
                i <= n4,
                forall|v: int| 0 <= v < i ==> self.edge_connection_map.2@[v] == other.edge_connection_map.2@[v],
            decreases n4 - i,
        {
            if self.edge_connection_map.2[i] != other.edge_connection_map.2[i] {
                proof {
                    assert(self.conn_view(4)[i as int] != other.conn_view(4)[i as int]);
                }
                return false;
            }
            i += 1;
        }
        proof {
            assert(self.conn_view(4) =~= other.conn_view(4));
        }
        true
    }
}

impl vstd::std_specs::cmp::PartialEqSpecImpl for Fingerprint5 {
    open spec fn obeys_eq_spec() -> bool {
        true
    }

    open spec fn eq_spec(&self, other: &Self) -> bool {
        &&& self.order_view() == other.order_view()
        &&& self.conn_view(2) == other.conn_view(2)
        &&& self.conn_view(3) == other.conn_view(3)
        &&& self.conn_view(4) == other.conn_view(4)
    }
}

impl Eq for Fingerprint5 {}

/// Equal fingerprints of order 5 hash alike.
pub proof fn lemma_fingerprint5_hash_agrees(a: Fingerprint5, b: Fingerprint5)
    requires
        a.eq_spec(&b),
    ensures
        a.order_view() + a.conn_view(2) + a.conn_view(3) + a.conn_view(4) == b.order_view() + b.conn_view(2)
            + b.conn_view(3) + b.conn_view(4),
{
}

impl CompactMotif<5> {
    /// The fingerprint of the motif.
    pub fn fingerprint(&self) -> (r: Fingerprint5)
        requires
            self@.subset_of(edge_range(5)),
        ensures
            is_fingerprint5_of(r, self@),
    {
        Fingerprint5::from(*self)
    }
}

} // verus!
