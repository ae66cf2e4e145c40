//! Counters of how the hyperedges of an order-5 motif meet one another, the raw
//! material of its fingerprint.

use vstd::prelude::*;

verus! {

use vstd::arithmetic::power2::pow2;
use vstd::set_lib::set_int_range;
use crate::bits::{set32, set8, lemma_set32_ext};
use crate::node_set::{CompressedNodeSet, lemma_set8_range};
use crate::motif::CompactMotif;
use crate::motif_ops::{edge_range, part_set, full_set};
use crate::tables::{edge_nodes, edge_total, is_node_map, lemma_edge_totals, lemma_edge_nodes_range};
use crate::subsets::{subsets_of_size, lemma_subsets_of_size_len};
use crate::util::binom;
use crate::fingerprint::{edge_size, lemma_edge_size};

/// Edge `f` of motif `cm` (order 5) crosses edge `e`: it shares a node with
/// `e` without lying inside it.
pub open spec fn is_cross(cm: Set<int>, e: int, f: int) -> bool {
    &&& cm.contains(f)
    &&& 0 <= f < edge_total(5)
    &&& !edge_nodes(5, f).disjoint(edge_nodes(5, e))
    &&& !edge_nodes(5, f).subset_of(edge_nodes(5, e))
}

/// Where, in the counter of a group of crossing edges, an edge of size `m`
/// is counted; the group meets an edge of size `k` in `s` nodes.
pub open spec fn inner_offset(k: nat, s: nat, m: nat) -> nat {
    if k == 2 {
        if s == 1 {
            if m == 2 {
                0
            } else if m == 3 {
                2
            } else {
                4
            }
        } else {
            if m == 4 {
                2
            } else {
                0
            }
        }
    } else if k == 3 {
        if s == 1 {
            if m == 2 {
                0
            } else if m == 3 {
                2
            } else {
                3
            }
        } else if s == 2 {
            if m == 4 {
                2
            } else {
                0
            }
        } else {
            0
        }
    } else {
        if s == 1 {
            if m == 2 {
                0
            } else {
                1
            }
        } else if s == 2 {
            if m == 4 {
                1
            } else {
                0
            }
        } else {
            0
        }
    }
}

/// The counter of the group of edges `f < lo` of `cm` (with fewer than 5
/// nodes) that cross `e` and meet it in exactly the nodes `g`.
pub open spec fn group_value(cm: Set<int>, e: int, g: Set<int>, lo: int) -> nat
    decreases lo,
{
    if lo <= 0 {
        0
    } else {
        let f = lo - 1;
        group_value(cm, e, g, lo - 1) + if is_cross(cm, e, f) && edge_size(5, f) < 5
            && edge_nodes(5, f).intersect(edge_nodes(5, e)) == g {
            pow2(inner_offset(edge_size(5, e), g.len(), edge_size(5, f)))
        } else {
            0
        }
    }
}

/// Where the block of the groups that meet an edge of size `k` in `s` nodes starts.
pub open spec fn block_offset(k: nat, s: nat) -> nat {
    if s <= 1 {
        0
    } else if k == 2 {
        2
    } else if k == 3 {
        if s == 2 {
            3
        } else {
            6
        }
    } else {
        if s == 2 {
            4
        } else if s == 3 {
            10
        } else {
            14
        }
    }
}

/// Length of the counters of an edge of size `k`.
pub open spec fn info_len(k: nat) -> nat {
    if k == 2 {
        3
    } else if k == 3 {
        7
    } else {
        15
    }
}

/// `b` holds, as often as they occur, the counters of all the groups of
/// size `s` around edge `e`: one per subset of its nodes of that size.
pub open spec fn block_counts(b: Seq<u32>, cm: Set<int>, e: int, s: nat) -> bool {
    forall|v: u32| #[trigger] b.to_multiset().count(v) == groups_with_value(cm, e, s, v).len()
}

/// The groups of size `s` around edge `e` whose counter is `v`.
pub open spec fn groups_with_value(cm: Set<int>, e: int, s: nat, v: u32) -> Set<Set<int>> {
    subsets_of_size(edge_nodes(5, e), s).filter(
        |g: Set<int>| group_value(cm, e, g, edge_total(5) as int) == v as nat,
    )
}

/// The members of `a` that `f` maps to `v`.
pub open spec fn preimage(a: Set<Set<int>>, f: spec_fn(Set<int>) -> u32, v: u32) -> Set<Set<int>> {
    a.filter(|x: Set<int>| f(x) == v)
}

/// Block sizes and offsets of each edge size.
pub proof fn lemma_block_layout(k: nat)
    requires
        2 <= k <= 4,
    ensures
        forall|s: nat|
            1 <= s <= k ==> #[trigger] block_offset(k, s) + binom(k, s) <= info_len(k) && (s < k
                ==> block_offset(k, s) + binom(k, s) == block_offset(k, s + 1)),
        block_offset(k, k) + binom(k, k) == info_len(k),
{
    reveal_with_fuel(binom, 6);
    assert(binom(2, 1) == 2 && binom(2, 2) == 1);
    assert(binom(3, 1) == 3 && binom(3, 2) == 3 && binom(3, 3) == 1);
    assert(binom(4, 1) == 4 && binom(4, 2) == 6 && binom(4, 3) == 4 && binom(4, 4) == 1);
}

/// No crossing edge in `a..b` leaves every counter unchanged.
pub proof fn lemma_group_value_gap(cm: Set<int>, e: int, g: Set<int>, a: int, b: int)
    requires
        0 <= a <= b,
        forall|x: int| a <= x < b ==> !is_cross(cm, e, x),
    ensures
        group_value(cm, e, g, a) == group_value(cm, e, g, b),
    decreases b - a,
{
    if a < b {
        lemma_group_value_gap(cm, e, g, a, b - 1);
    }
}

/// Each edge adds at most 16 to a counter.
pub proof fn lemma_group_value_bound(cm: Set<int>, e: int, g: Set<int>, lo: int)
    requires
        0 <= lo,
    ensures
        group_value(cm, e, g, lo) <= 16 * lo,
    decreases lo,
{
    if lo > 0 {
        lemma_group_value_bound(cm, e, g, lo - 1);
        let k = edge_size(5, e);
        let m = edge_size(5, lo - 1);
        assert(inner_offset(k, g.len(), m) <= 4);
        crate::bits::lemma_pow2_mono(inner_offset(k, g.len(), m), 4);
        vstd::arithmetic::power2::lemma2_to64();
    }
}

/// A sequence without repeats drawn from a finite set is no longer than the set.
pub proof fn lemma_unique_seq_in_set<A>(s: Seq<A>, t: Set<A>)
    requires
        s.no_duplicates(),
        t.finite(),
        forall|i: int| 0 <= i < s.len() ==> t.contains(#[trigger] s[i]),
    ensures
        s.len() <= t.len(),
{
    s.unique_seq_to_set();
    vstd::seq_lib::seq_to_set_is_finite(s);
    assert(s.to_set().subset_of(t));
    vstd::set_lib::lemma_len_subset(s.to_set(), t);
}

/// In a sequence without repeats, how often a value comes out of `f` is the
/// number of members that map to it.
pub proof fn lemma_unique_seq_count(s: Seq<Set<int>>, f: spec_fn(Set<int>) -> u32, v: u32)
    requires
        s.no_duplicates(),
    ensures
        s.map_values(f).to_multiset().count(v) == preimage(s.to_set(), f, v).len(),
    decreases s.len(),
{
    broadcast use vstd::seq_lib::group_to_multiset_ensures;
    broadcast use vstd::set::group_set_axioms;
    if s.len() == 0 {
        assert(s.map_values(f) =~= Seq::<u32>::empty());
        assert(preimage(s.to_set(), f, v) =~= Set::<Set<int>>::empty());
    } else {
        let t = s.drop_last();
        let l = s.last();
        assert(t.no_duplicates());
        lemma_unique_seq_count(t, f, v);
        assert(s =~= t.push(l));
        assert(s.map_values(f) =~= t.map_values(f).push(f(l)));
        t.lemma_push_to_set_commute(l);
        assert(!t.to_set().contains(l)) by {
            if t.to_set().contains(l) {
                let i = choose|i: int| 0 <= i < t.len() && t[i] == l;
                assert(s[i] == s[s.len() - 1]);
            }
        }
        vstd::seq_lib::seq_to_set_is_finite(t);
        let a = preimage(t.to_set(), f, v);
        vstd::set_lib::lemma_len_subset(a, t.to_set());
        if f(l) == v {
            assert(preimage(s.to_set(), f, v) =~= a.insert(l));
        } else {
            assert(preimage(s.to_set(), f, v) =~= a);
        }
    }
}


/// Where the block of groups of size `s` starts, for an edge of size `k`.
fn block_offset_exec(k: usize, s: usize) -> (r: usize)
    requires
        2 <= k <= 4,
        1 <= s <= k,
    ensures
        r == block_offset(k as nat, s as nat),
{
    if s <= 1 {
        0
    } else if k == 2 {
        2
    } else if k == 3 {
        if s == 2 {
            3
        } else {
            6
        }
    } else {
        if s == 2 {
            4
        } else if s == 3 {
            10
        } else {
            14
        }
    }
}

/// The offset of the counter of an edge of size `m` in a group of size `s`
/// around an edge of size `k`.
fn inner_offset_exec(k: usize, s: usize, m: usize) -> (r: u32)
    requires
        2 <= k <= 4,
    ensures
        r == inner_offset(k as nat, s as nat, m as nat),
        r <= 4,
{
    if k == 2 {
        if s == 1 {
            if m == 2 {
                0
            } else if m == 3 {
                2
            } else {
                4
            }
        } else {
            if m == 4 {
                2
            } else {
                0
            }
        }
    } else if k == 3 {
        if s == 1 {
            if m == 2 {
                0
            } else if m == 3 {
                2
            } else {
                3
            }
        } else if s == 2 {
            if m == 4 {
                2
            } else {
                0
            }
        } else {
            0
        }
    } else {
        if s == 1 {
            if m == 2 {
                0
            } else {
                1
            }
        } else if s == 2 {
            if m == 4 {
                1
            } else {
                0
            }
        } else {
            0
        }
    }
}

/// A vector of `n` copies of `x`.
fn filled_usize(n: usize, x: usize) -> (r: Vec<usize>)
    ensures
        r@.len() == n,
        forall|i: int| 0 <= i < n ==> #[trigger] r@[i] == x,
{
    let mut v: Vec<usize> = Vec::new();
    let mut i: usize = 0;
    while i < n
        invariant
            i <= n,
            v@.len() == i,
            forall|j: int| 0 <= j < i ==> #[trigger] v@[j] == x,
        decreases n - i,
    {
        v.push(x);
        i += 1;
    }
    v
}

/// A vector of `n` zero words.
fn zeros_u32(n: usize) -> (r: Vec<u32>)
    ensures
        r@.len() == n,
        forall|i: int| 0 <= i < n ==> #[trigger] r@[i] == 0,
{
    let mut v: Vec<u32> = Vec::new();
    let mut i: usize = 0;
    while i < n
        invariant
            i <= n,
            v@.len() == i,
            forall|j: int| 0 <= j < i ==> #[trigger] v@[j] == 0,
        decreases n - i,
    {
        v.push(0);
        i += 1;
    }
    v
}

/// The groups of crossing edges of size `s` seen so far sit in slots
/// `0..gs.len()`, and every counter matches its group.
pub open spec fn slots_ok(cm: Set<int>, e: int, k: nat, gs: Seq<Seq<Set<int>>>, out: Seq<u32>, lo: int) -> bool {
    &&& gs.len() == k + 1
    &&& out.len() == info_len(k)
    &&& forall|s: nat| 1 <= s <= k ==> {
        let g = #[trigger] gs[s - 1];
        &&& g.no_duplicates()
        &&& g.len() <= binom(k, s)
        &&& forall|j: int| 0 <= j < g.len() ==> subsets_of_size(edge_nodes(5, e), s).contains(#[trigger] g[j])
            && group_value(cm, e, g[j], lo) > 0
        &&& forall|x: Set<int>| subsets_of_size(edge_nodes(5, e), s).contains(x) && group_value(cm, e, x, lo) > 0
            ==> #[trigger] g.contains(x)
        &&& forall|j: int| 0 <= j < binom(k, s) ==> #[trigger] out[block_offset(k, s) + j] == if j < g.len() {
            group_value(cm, e, g[j], lo) as u32
        } else {
            0u32
        }
    }
}

impl CompactMotif<5> {
    /// For edge `e` of size `k` of the motif, the counters of the groups of
    /// crossing edges, each block of groups in the order the groups first appear.
    pub(crate) fn cross_edge_infos(&self, e: usize, k: usize, node_map: &Vec<CompressedNodeSet>) -> (r: Vec<u32>)
        requires
            self@.subset_of(edge_range(5)),
            self@.contains(e as int),
            is_node_map(5, node_map@),
            k == edge_size(5, e as int),
            2 <= k <= 4,
        ensures
            r@.len() == info_len(k as nat),
            forall|s: nat| 1 <= s <= k ==> #[trigger] block_counts(r@.subrange(block_offset(k as nat, s) as int, (block_offset(k as nat, s) + binom(k as nat, s)) as int), self@, e as int, s),
    {
        proof {
            lemma_edge_totals();
            lemma_block_layout(k as nat);
        }
        let ghost cm = self@;
        let ghost t = edge_nodes(5, e as int);
        let pc = self.part_ovelaps(e).container();
        let fc = self.full_ovelaps(e).container();
        let mut cross = Self::new(pc & !fc);
        proof {
            crate::bits::lemma_bit32_and_not(pc, fc);
        }
        cross.remove_edge(e);
        let ghost cs = cross@;
        proof {
            assert forall|f: int| #[trigger] cs.contains(f) == is_cross(cm, e as int, f) by {
                if is_cross(cm, e as int, f) {
                    assert(f != e) by {
                        if f == e {
                            assert(edge_nodes(5, f).subset_of(edge_nodes(5, e as int)));
                        }
                    }
                    crate::connectivity::lemma_overlap_symmetric(5, f, e as int);
                }
                if cs.contains(f) {
                    crate::connectivity::lemma_overlap_symmetric(5, f, e as int);
                }
            }
        }
        let mut group_idx_by_size = filled_usize(k + 1, 0);
        let mut groups_idx = filled_usize(32, usize::MAX);
        let len = if k == 2 {
            3
        } else if k == 3 {
            7
        } else {
            15
        };
        let mut output = zeros_u32(len);
        let ghost mut gs: Seq<Seq<Set<int>>> = Seq::new((k + 1) as nat, |i: int| Seq::<Set<int>>::empty());
        let ghost mut lo: int = 0;
        let mut it = cross.iter_edges();
        proof {
            assert(it.remaining() =~= cs.intersect(set_int_range(lo, 32)));
            lemma_set8_range(node_map@[e as int].nodes);
            lemma_edge_size(5, e as int);
            lemma_edge_nodes_range(5, e as int);
            assert forall|s: nat| 1 <= s <= k implies {
                let g = #[trigger] gs[s - 1];
                &&& g.no_duplicates()
                &&& g.len() <= binom(k as nat, s)
                &&& forall|j: int| 0 <= j < g.len() ==> subsets_of_size(t, s).contains(#[trigger] g[j])
                    && group_value(cm, e as int, g[j], lo) > 0
                &&& forall|x: Set<int>| subsets_of_size(t, s).contains(x) && group_value(cm, e as int, x, lo) > 0
                    ==> #[trigger] g.contains(x)
                &&& forall|j: int| 0 <= j < binom(k as nat, s) ==> #[trigger] output@[block_offset(k as nat, s) + j] == if j < g.len() {
                    group_value(cm, e as int, g[j], lo) as u32
                } else {
                    0u32
                }
            } by {
                assert(gs[s - 1] == Seq::<Set<int>>::empty());
            }
        }
        loop
            invariant
                2 <= k <= 4,
                k == edge_size(5, e as int),
                t == edge_nodes(5, e as int),
                t.finite(),
                t.len() == k,
                t.subset_of(set_int_range(0, 5)),
                cm == self@,
                cm.subset_of(edge_range(5)),
                cm.contains(e as int),
                edge_total(5) == 26,
                is_node_map(5, node_map@),
                forall|f: int| #[trigger] cs.contains(f) == is_cross(cm, e as int, f),
                forall|s: nat| 1 <= s <= k ==> #[trigger] block_offset(k as nat, s) + binom(k as nat, s) <= info_len(k as nat),
                forall|s: nat| 1 <= s < k ==> #[trigger] block_offset(k as nat, s) + binom(k as nat, s) == block_offset(k as nat, s + 1),
                0 <= lo <= 26,
                it.remaining() == cs.intersect(set_int_range(lo, 32)),
                group_idx_by_size@.len() == k + 1,
                groups_idx@.len() == 32,
                forall|s: nat| 1 <= s <= k ==> #[trigger] group_idx_by_size@[s - 1] == gs[s - 1].len(),
                forall|key: int| 0 <= key < 32 && #[trigger] groups_idx@[key] == usize::MAX ==> forall|s: nat| 1 <= s <= k ==> !(#[trigger] gs[s - 1]).contains(set32(key as u32)),
                forall|key: int| 0 <= key < 32 && #[trigger] groups_idx@[key] != usize::MAX ==> {
                    let s = set32(key as u32).len();
                    &&& 1 <= s <= k
                    &&& groups_idx@[key] < gs[s - 1].len()
                    &&& gs[s - 1][groups_idx@[key] as int] == set32(key as u32)
                },
                slots_ok(cm, e as int, k as nat, gs, output@, lo),
            ensures
                slots_ok(cm, e as int, k as nat, gs, output@, 26),
            decreases 26 - lo,
        {
            let ghost before = it.remaining();
            match it.next() {
                None => {
                    proof {
                        assert forall|x: int| lo <= x < 26 implies !is_cross(cm, e as int, x) by {
                            assert(!before.contains(x));
                        }
                        assert forall|g: Set<int>| #[trigger] group_value(cm, e as int, g, lo) == group_value(cm, e as int, g, 26) by {
                            lemma_group_value_gap(cm, e as int, g, lo, 26);
                        }
                    }
                    break;
                },
                Some(inner) => {
                    let ghost fi = inner as int;
                    proof {
                        assert(before.contains(fi));
                        assert(is_cross(cm, e as int, fi));
                        assert forall|x: int| lo <= x < fi implies !is_cross(cm, e as int, x) by {
                            if is_cross(cm, e as int, x) {
                                assert(before.contains(x));
                            }
                        }
                        assert forall|g: Set<int>| #[trigger] group_value(cm, e as int, g, lo) == group_value(cm, e as int, g, fi) by {
                            lemma_group_value_gap(cm, e as int, g, lo, fi);
                        }
                        lemma_slots_same(cm, e as int, k as nat, gs, output@, lo, fi);
                        lemma_edge_size(5, fi);
                    }
                    let inner_nodes = node_map[inner];
                    let il = inner_nodes.len() as usize;
                    if il == 5 {
                        proof {
                            assert forall|g: Set<int>| #[trigger] group_value(cm, e as int, g, fi + 1) == group_value(cm, e as int, g, fi) by {}
                            lemma_slots_same(cm, e as int, k as nat, gs, output@, fi, fi + 1);
                            lo = fi + 1;
                            assert(it.remaining() =~= cs.intersect(set_int_range(lo, 32)));
                        }
                    } else {
                        let ov = inner_nodes.bitand(node_map[e]);
                        let os = ov.len() as usize;
                        let key = ov.nodes as usize;
                        let ghost ovs = ov@;
                        proof {
                            assert(ovs == edge_nodes(5, fi).intersect(t));
                            lemma_set8_range(ov.nodes);
                            vstd::set_lib::lemma_len_subset(ovs, t);
                            assert(os >= 1) by {
                                if os == 0 {
                                    ovs.lemma_len0_is_empty();
                                    assert(edge_nodes(5, fi).intersect(t) =~= Set::<int>::empty());
                                    assert(!edge_nodes(5, fi).disjoint(edge_nodes(5, e as int)));
                                    let a = choose|a: int| edge_nodes(5, fi).contains(a) && #[trigger] t.contains(a);
                                    assert(edge_nodes(5, fi).intersect(t).contains(a));
                                }
                            }
                            assert(ovs.subset_of(set_int_range(0, 5)));
                            crate::bits::lemma_bit32_bound(ov.nodes as u32, 5);
                            assert((1u32 << 5u32) == 32u32) by (bit_vector);
                            assert(key < 32);
                            assert(set32(key as u32) == ovs);
                            assert(subsets_of_size(t, os as nat).contains(ovs));
                            vstd::arithmetic::power2::lemma2_to64();
                        }
                        let ghost gs0 = gs;
                        let ghost out0 = output@;
                        let g: usize;
                        if groups_idx[key] == usize::MAX {
                            g = group_idx_by_size[os - 1];
                            proof {
                                assert(!gs0[os - 1].contains(ovs));
                                let ng = gs0[os - 1].push(ovs);
                                assert(ng.no_duplicates()) by {
                                    assert forall|a: int, b: int| 0 <= a < ng.len() && 0 <= b < ng.len() && a != b implies ng[a] != ng[b] by {
                                        if a == gs0[os - 1].len() as int {
                                            assert(gs0[os - 1].contains(ng[b]) ==> ng[a] != ng[b]);
                                        } else if b == gs0[os - 1].len() as int {
                                            assert(gs0[os - 1][a] == ng[a]);
                                        }
                                    }
                                }
                                lemma_subsets_of_size_len(t, os as nat);
                                lemma_unique_seq_in_set(ng, subsets_of_size(t, os as nat));
                                assert(block_offset(k as nat, os as nat) + binom(k as nat, os as nat) <= info_len(k as nat));
                                gs = gs0.update(os - 1, ng);
                            }
                            groups_idx.set(key, g);
                            group_idx_by_size.set(os - 1, g + 1);
                        } else {
                            g = groups_idx[key];
                        }
                        let off = block_offset_exec(k, os);
                        let sh = inner_offset_exec(k, os, il);
                        let idx = off + g;
                        proof {
                            vstd::bits::lemma_u32_pow2_no_overflow(sh as nat);
                            vstd::bits::lemma_u32_shl_is_mul(1, sh);
                            assert(gs[os - 1][g as int] == ovs);
                            assert(g < gs[os - 1].len());
                            assert(g < binom(k as nat, os as nat));
                            lemma_group_value_bound(cm, e as int, ovs, fi);
                            assert(output@[idx as int] == if g < gs0[os - 1].len() { group_value(cm, e as int, ovs, fi) as u32 } else { 0u32 });
                        }
                        let nv = output[idx] + (1u32 << sh);
                        output.set(idx, nv);
                        proof {
                            let c = pow2(sh as nat);
                            crate::bits::lemma_pow2_mono(sh as nat, 4);
                            vstd::arithmetic::power2::lemma2_to64();
                            assert(output@ == out0.update(idx as int, (out0[idx as int] + c) as u32));
                            lemma_block_offsets(k as nat);
                            assert(edge_size(5, fi) == il);
                            assert forall|x: Set<int>| #[trigger] group_value(cm, e as int, x, fi + 1) == group_value(cm, e as int, x, fi) + if x == ovs { c } else { 0 } by {
                                if x == ovs {
                                    assert(x.len() == os);
                                }
                            }
                            assert(group_value(cm, e as int, ovs, fi) == 0 ==> !gs0[os - 1].contains(ovs)) by {
                                if group_value(cm, e as int, ovs, fi) == 0 && gs0[os - 1].contains(ovs) {
                                    let j = choose|j: int| 0 <= j < gs0[os - 1].len() && #[trigger] gs0[os - 1][j] == ovs;
                                }
                            }
                            lo = fi + 1;
                            assert(it.remaining() =~= cs.intersect(set_int_range(lo, 32)));
                            assert forall|key2: int| 0 <= key2 < 32 && #[trigger] groups_idx@[key2] == usize::MAX implies forall|s: nat| 1 <= s <= k ==> !(#[trigger] gs[s - 1]).contains(set32(key2 as u32)) by {
                                assert(key2 != key);
                                assert forall|s: nat| 1 <= s <= k implies !(#[trigger] gs[s - 1]).contains(set32(key2 as u32)) by {
                                    if set32(key2 as u32) == ovs {
                                        lemma_set32_ext(key2 as u32, key as u32);
                                    }
                                    if s != os {
                                        assert(gs[s - 1] == gs0[s - 1]);
                                    }
                                }
                            }
                            assert forall|key2: int| 0 <= key2 < 32 && #[trigger] groups_idx@[key2] != usize::MAX implies {
                                let s = set32(key2 as u32).len();
                                &&& 1 <= s <= k
                                &&& groups_idx@[key2] < gs[s - 1].len()
                                &&& gs[s - 1][groups_idx@[key2] as int] == set32(key2 as u32)
                            } by {
                                if key2 != key {
                                    let s = set32(key2 as u32).len();
                                    if s == os {
                                        assert(gs[s - 1].len() >= gs0[s - 1].len());
                                    }
                                }
                            }
                            assert forall|s: nat| 1 <= s <= k implies #[trigger] group_idx_by_size@[s - 1] == gs[s - 1].len() by {
                                if s != os {
                                    assert(gs[s - 1] == gs0[s - 1]);
                                }
                            }
                            lemma_slots_step(cm, e as int, k as nat, gs0, gs, out0, output@, fi, ovs, os as nat, g as int, c);
                        }
                    }
                },
            }
        }
        proof {
            assert forall|s: nat| 1 <= s <= k implies #[trigger] block_counts(output@.subrange(block_offset(k as nat, s) as int, (block_offset(k as nat, s) + binom(k as nat, s)) as int), cm, e as int, s) by {
                lemma_block_counts_from_slots(cm, e as int, k as nat, s, gs[s - 1], output@);
            }
        }
        output
    }
}

/// Blocks of smaller groups come first.
pub proof fn lemma_block_offset_mono(k: nat, a: nat, b: nat)
    requires
        2 <= k <= 4,
        1 <= a < b <= k,
    ensures
        block_offset(k, a) + binom(k, a) <= block_offset(k, b),
{
    reveal_with_fuel(binom, 6);
}

/// A block whose first slots hold the counters of the groups seen, without
/// repeats, and whose other slots are 0, counts every group of its size.
pub proof fn lemma_block_counts_from_slots(cm: Set<int>, e: int, k: nat, s: nat, g: Seq<Set<int>>, out: Seq<u32>)
    requires
        2 <= k <= 4,
        1 <= s <= k,
        k == edge_size(5, e),
        0 <= e < 26,
        edge_total(5) == 26,
        out.len() == info_len(k),
        block_offset(k, s) + binom(k, s) <= info_len(k),
        g.no_duplicates(),
        forall|j: int| 0 <= j < g.len() ==> subsets_of_size(edge_nodes(5, e), s).contains(#[trigger] g[j])
            && group_value(cm, e, g[j], 26) > 0,
        forall|x: Set<int>| subsets_of_size(edge_nodes(5, e), s).contains(x) && group_value(cm, e, x, 26) > 0
            ==> #[trigger] g.contains(x),
        forall|j: int| 0 <= j < binom(k, s) ==> #[trigger] out[block_offset(k, s) + j] == if j < g.len() {
            group_value(cm, e, g[j], 26) as u32
        } else {
            0u32
        },
    ensures
        block_counts(out.subrange(block_offset(k, s) as int, (block_offset(k, s) + binom(k, s)) as int), cm, e, s),
{
    broadcast use vstd::seq_lib::group_to_multiset_ensures;
    broadcast use vstd::multiset::group_multiset_axioms;
    let t = edge_nodes(5, e);
    let off = block_offset(k, s) as int;
    let bl = binom(k, s);
    let b = out.subrange(off, off + bl);
    let f = |x: Set<int>| group_value(cm, e, x, 26) as u32;
    lemma_edge_size(5, e);
    lemma_subsets_of_size_len(t, s);
    let subs = subsets_of_size(t, s);
    assert(g.to_set().subset_of(subs));
    g.unique_seq_to_set();
    vstd::seq_lib::seq_to_set_is_finite(g);
    assert(g.len() <= bl) by {
        lemma_unique_seq_in_set(g, subs);
    }
    let zeros = Seq::new((bl - g.len()) as nat, |i: int| 0u32);
    assert(b =~= g.map_values(f) + zeros) by {
        assert forall|j: int| 0 <= j < bl implies b[j] == (g.map_values(f) + zeros)[j] by {
            assert(b[j] == out[off + j]);
        }
    }
    assert forall|x: Set<int>| #[trigger] subs.contains(x) implies group_value(cm, e, x, 26) < 0x1_0000_0000 by {
        lemma_group_value_bound(cm, e, x, 26);
    }
    assert forall|v: u32| #[trigger] b.to_multiset().count(v) == groups_with_value(cm, e, s, v).len() by {
        lemma_unique_seq_count(g, f, v);
        vstd::seq_lib::lemma_multiset_commutative(g.map_values(f), zeros);
        let zc: nat = if v == 0 { (bl - g.len()) as nat } else { 0 };
        lemma_const_seq_count(zeros, 0u32, v);
        assert(zeros.to_multiset().count(v) == zc);
        let target = groups_with_value(cm, e, s, v);
        let mine = preimage(g.to_set(), f, v);
        assert(b.to_multiset() =~= g.map_values(f).to_multiset().add(zeros.to_multiset()));
        assert(b.to_multiset().count(v) == mine.len() + zc);
        if v != 0 {
            assert(target =~= mine) by {
                assert forall|x: Set<int>| target.contains(x) implies mine.contains(x) by {
                    assert(g.contains(x));
                }
                assert forall|x: Set<int>| mine.contains(x) implies target.contains(x) by {
                    assert(subs.contains(x));
                    lemma_group_value_bound(cm, e, x, 26);
                }
            }
        } else {
            assert(mine =~= Set::<Set<int>>::empty()) by {
                assert forall|x: Set<int>| !mine.contains(x) by {
                    if mine.contains(x) {
                        let j = choose|j: int| 0 <= j < g.len() && #[trigger] g[j] == x;
                        lemma_group_value_bound(cm, e, x, 26);
                    }
                }
            }
            assert(target =~= subs.difference(g.to_set())) by {
                assert forall|x: Set<int>| #[trigger] target.contains(x) == subs.difference(g.to_set()).contains(x) by {
                    if subs.contains(x) {
                        lemma_group_value_bound(cm, e, x, 26);
                        if g.to_set().contains(x) {
                            let j = choose|j: int| 0 <= j < g.len() && #[trigger] g[j] == x;
                        }
                    }
                }
            }
            vstd::set_lib::lemma_set_difference_len(subs, g.to_set());
            assert(subs.intersect(g.to_set()) =~= g.to_set());
            assert(subs.len() == bl);
            assert(target.len() == bl - g.len());
        }
    }
}

/// A sequence of copies of `c` holds `v` as often as its length when `v == c`, else never.
pub proof fn lemma_const_seq_count(z: Seq<u32>, c: u32, v: u32)
    requires
        forall|i: int| 0 <= i < z.len() ==> z[i] == c,
    ensures
        z.to_multiset().count(v) == if v == c { z.len() } else { 0 },
    decreases z.len(),
{
    broadcast use vstd::seq_lib::group_to_multiset_ensures;
    broadcast use vstd::multiset::group_multiset_axioms;
    if z.len() > 0 {
        lemma_const_seq_count(z.drop_last(), c, v);
        assert(z =~= z.drop_last().push(z.last()));
    }
}

/// One more crossing edge, counted in the slot of its group.
pub proof fn lemma_slots_step(
    cm: Set<int>,
    e: int,
    k: nat,
    gs0: Seq<Seq<Set<int>>>,
    gs: Seq<Seq<Set<int>>>,
    out0: Seq<u32>,
    out: Seq<u32>,
    fi: int,
    ovs: Set<int>,
    os: nat,
    g: int,
    c: nat,
)
    requires
        2 <= k <= 4,
        1 <= os <= k,
        0 <= fi,
        slots_ok(cm, e, k, gs0, out0, fi),
        forall|x: Set<int>| #[trigger] group_value(cm, e, x, fi + 1) == group_value(cm, e, x, fi) + if x == ovs { c } else { 0 },
        0 < c <= 16,
        subsets_of_size(edge_nodes(5, e), os).contains(ovs),
        group_value(cm, e, ovs, fi) + c < 0x1_0000_0000,
        gs.len() == k + 1,
        0 <= g < gs[os - 1].len(),
        gs[os - 1][g] == ovs,
        (gs == gs0 && gs0[os - 1].contains(ovs)) || (gs == gs0.update(os - 1, gs0[os - 1].push(ovs))
            && !gs0[os - 1].contains(ovs) && g == gs0[os - 1].len() && gs[os - 1].no_duplicates()
            && gs[os - 1].len() <= binom(k, os)),
        out == out0.update(block_offset(k, os) + g, (out0[block_offset(k, os) + g] + c) as u32),
        forall|a: nat, b: nat| 1 <= a < b <= k ==> #[trigger] block_offset(k, a) + binom(k, a) <= #[trigger] block_offset(k, b),
        block_offset(k, os) + binom(k, os) <= info_len(k),
    ensures
        slots_ok(cm, e, k, gs, out, fi + 1),
{
    let t = edge_nodes(5, e);
    let lo = fi + 1;
    let idx = block_offset(k, os) + g;
    lemma_block_layout(k);
    assert(g < binom(k, os));
    assert(out0[idx] == if g < gs0[os - 1].len() { group_value(cm, e, ovs, fi) as u32 } else { 0u32 }) by {
        if g < gs0[os - 1].len() {
            assert(gs0[os - 1][g] == gs[os - 1][g]);
        }
    }
    assert(group_value(cm, e, ovs, fi) == 0 ==> !gs0[os - 1].contains(ovs)) by {
        if group_value(cm, e, ovs, fi) == 0 && gs0[os - 1].contains(ovs) {
            let j = choose|j: int| 0 <= j < gs0[os - 1].len() && #[trigger] gs0[os - 1][j] == ovs;
        }
    }
    assert forall|s: nat| 1 <= s <= k implies {
        let gg = #[trigger] gs[s - 1];
        &&& gg.no_duplicates()
        &&& gg.len() <= binom(k, s)
        &&& forall|j: int| 0 <= j < gg.len() ==> subsets_of_size(t, s).contains(#[trigger] gg[j])
            && group_value(cm, e, gg[j], lo) > 0
        &&& forall|x: Set<int>| subsets_of_size(t, s).contains(x) && group_value(cm, e, x, lo) > 0
            ==> #[trigger] gg.contains(x)
        &&& forall|j: int| 0 <= j < binom(k, s) ==> #[trigger] out[block_offset(k, s) + j] == if j < gg.len() {
            group_value(cm, e, gg[j], lo) as u32
        } else {
            0u32
        }
    } by {
        let gg = gs[s - 1];
        let g0 = gs0[s - 1];
        if s != os {
            assert(gg == g0);
            assert forall|x: Set<int>| subsets_of_size(t, s).contains(x) && group_value(cm, e, x, lo) > 0 implies #[trigger] gg.contains(x) by {
                assert(x != ovs);
            }
            assert forall|j: int| 0 <= j < gg.len() implies subsets_of_size(t, s).contains(#[trigger] gg[j])
                && group_value(cm, e, gg[j], lo) > 0 by {
                assert(group_value(cm, e, gg[j], fi) > 0);
            }
            assert forall|j: int| 0 <= j < binom(k, s) implies #[trigger] out[block_offset(k, s) + j] == if j < gg.len() {
                group_value(cm, e, gg[j], lo) as u32
            } else {
                0u32
            } by {
                let p = block_offset(k, s) + j;
                assert(p != idx) by {
                    if s < os {
                        assert(block_offset(k, s) + binom(k, s) <= block_offset(k, os));
                    } else {
                        assert(block_offset(k, os) + binom(k, os) <= block_offset(k, s));
                    }
                }
                assert(block_offset(k, s) + binom(k, s) <= info_len(k));
                assert(out[p] == out0[p]);
                assert(out0[block_offset(k, s) + j] == if j < g0.len() {
                    group_value(cm, e, g0[j], fi) as u32
                } else {
                    0u32
                });
                if j < gg.len() {
                    assert(gg[j] != ovs) by {
                        assert(subsets_of_size(t, s).contains(gg[j]));
                        assert(gg[j].len() == s);
                        assert(ovs.len() == os);
                    }
                    assert(group_value(cm, e, gg[j], lo) == group_value(cm, e, gg[j], fi));
                }
            }
        } else {
            assert forall|j: int| 0 <= j < gg.len() implies subsets_of_size(t, s).contains(#[trigger] gg[j])
                && group_value(cm, e, gg[j], lo) > 0 by {
                if j < g0.len() {
                    assert(gg[j] == g0[j]);
                    assert(group_value(cm, e, g0[j], fi) > 0);
                    assert(group_value(cm, e, gg[j], lo) >= group_value(cm, e, gg[j], fi));
                } else {
                    assert(gs != gs0);
                    assert(gg == g0.push(ovs));
                    assert(gg[j] == ovs);
                    assert(group_value(cm, e, ovs, lo) == group_value(cm, e, ovs, fi) + c);
                }
            }
            assert forall|x: Set<int>| subsets_of_size(t, s).contains(x) && group_value(cm, e, x, lo) > 0 implies #[trigger] gg.contains(x) by {
                if x == ovs {
                    assert(gg[g] == x);
                } else {
                    assert(g0.contains(x));
                    let j = choose|j: int| 0 <= j < g0.len() && #[trigger] g0[j] == x;
                    assert(gg[j] == x);
                }
            }
            assert forall|j: int| 0 <= j < binom(k, s) implies #[trigger] out[block_offset(k, s) + j] == if j < gg.len() {
                group_value(cm, e, gg[j], lo) as u32
            } else {
                0u32
            } by {
                assert(out0[block_offset(k, s) + j] == if j < g0.len() {
                    group_value(cm, e, g0[j], fi) as u32
                } else {
                    0u32
                });
                if j == g {
                } else if j < gg.len() {
                    if j < g0.len() {
                        assert(gg[j] == g0[j]);
                    }
                    assert(gg[j] != ovs) by {
                        assert(gg.no_duplicates());
                    }
                } else {
                    assert(j >= g0.len());
                }
            }
        }
    }
}

/// Counters that agree at `a` and `b` keep the slots right.
pub proof fn lemma_slots_same(cm: Set<int>, e: int, k: nat, gs: Seq<Seq<Set<int>>>, out: Seq<u32>, a: int, b: int)
    requires
        slots_ok(cm, e, k, gs, out, a),
        forall|g: Set<int>| #[trigger] group_value(cm, e, g, a) == group_value(cm, e, g, b),
    ensures
        slots_ok(cm, e, k, gs, out, b),
{
    let t = edge_nodes(5, e);
    assert forall|s: nat| 1 <= s <= k implies {
        let gg = #[trigger] gs[s - 1];
        &&& gg.no_duplicates()
        &&& gg.len() <= binom(k, s)
        &&& forall|j: int| 0 <= j < gg.len() ==> subsets_of_size(t, s).contains(#[trigger] gg[j])
            && group_value(cm, e, gg[j], b) > 0
        &&& forall|x: Set<int>| subsets_of_size(t, s).contains(x) && group_value(cm, e, x, b) > 0
            ==> #[trigger] gg.contains(x)
        &&& forall|j: int| 0 <= j < binom(k, s) ==> #[trigger] out[block_offset(k, s) + j] == if j < gg.len() {
            group_value(cm, e, gg[j], b) as u32
        } else {
            0u32
        }
    } by {
        let gg = gs[s - 1];
        assert forall|j: int| 0 <= j < gg.len() implies subsets_of_size(t, s).contains(#[trigger] gg[j])
            && group_value(cm, e, gg[j], b) > 0 by {
            assert(group_value(cm, e, gg[j], a) > 0);
        }
        assert forall|x: Set<int>| subsets_of_size(t, s).contains(x) && group_value(cm, e, x, b) > 0 implies #[trigger] gg.contains(x) by {
            assert(group_value(cm, e, x, a) > 0);
        }
        assert forall|j: int| 0 <= j < binom(k, s) implies #[trigger] out[block_offset(k, s) + j] == if j < gg.len() {
            group_value(cm, e, gg[j], b) as u32
        } else {
            0u32
        } by {
            if j < gg.len() {
                assert(group_value(cm, e, gg[j], a) == group_value(cm, e, gg[j], b));
            }
        }
    }
}

/// Blocks of smaller groups come first, for every pair of sizes.
pub proof fn lemma_block_offsets(k: nat)
    requires
        2 <= k <= 4,
    ensures
        forall|a: nat, b: nat| 1 <= a < b <= k ==> #[trigger] block_offset(k, a) + binom(k, a) <= #[trigger] block_offset(k, b),
{
    assert forall|a: nat, b: nat| 1 <= a < b <= k implies #[trigger] block_offset(k, a) + binom(k, a) <= #[trigger] block_offset(k, b) by {
        lemma_block_offset_mono(k, a, b);
    }
}
} // verus!
