//! The tables of each order: hyperedge numbering, node maps, adjacency and
//! overlaps.

use vstd::prelude::*;

verus! {

use crate::bits::{set8, set32, bit32, lemma_set8_or_shl, lemma_bit32_zero, lemma_clear_lowest};
use vstd::set_lib::set_int_range;
use crate::node_set::CompressedNodeSet;
use crate::motif::{CompactMotif, container_width};
use crate::util::binom;

/// Put `p` in front of each sequence of `cs`.
pub open spec fn prepend_all(p: int, cs: Seq<Seq<int>>) -> Seq<Seq<int>> {
    cs.map_values(|c: Seq<int>| seq![p] + c)
}

/// The `k`-element subsets of `start..n`, each as an increasing sequence,
/// in lexicographic order.
pub open spec fn combos(start: int, n: int, k: nat) -> Seq<Seq<int>>
    decreases n - start,
{
    if k == 0 {
        seq![Seq::<int>::empty()]
    } else if start >= n {
        Seq::empty()
    } else {
        prepend_all(start, combos(start + 1, n, (k - 1) as nat)) + combos(start + 1, n, k)
    }
}

/// The part of `combos(a, n, k)` whose first element lies in `a..b`.
pub open spec fn combos_between(a: int, b: int, n: int, k: nat) -> Seq<Seq<int>>
    decreases b - a,
{
    if b <= a || k == 0 {
        Seq::empty()
    } else {
        combos_between(a, b - 1, n, k) + prepend_all(b - 1, combos(b, n, (k - 1) as nat))
    }
}

/// The hyperedges on `n` nodes of sizes `2..m`, by size, each size in lexicographic order.
pub open spec fn edges_upto(n: nat, m: nat) -> Seq<Seq<int>>
    decreases m,
{
    if m <= 2 {
        Seq::empty()
    } else {
        edges_upto(n, (m - 1) as nat) + combos(0, n as int, (m - 1) as nat)
    }
}

/// The numbering of the hyperedges of a motif of order `n`: all subsets of
/// `0..n` with at least two nodes, by size, each size in lexicographic order.
pub open spec fn order_edges(n: nat) -> Seq<Seq<int>> {
    edges_upto(n, n + 1)
}

/// The nodes of hyperedge `e` in the order-`n` numbering.
pub open spec fn edge_nodes(n: nat, e: int) -> Set<int> {
    order_edges(n)[e].to_set()
}

/// Number of hyperedges of a motif of order `n`.
pub open spec fn edge_total(n: nat) -> nat {
    order_edges(n).len()
}

/// The first `level` entries of a node buffer, as numbers.
pub open spec fn nodes_of(rv: Seq<u8>, level: int) -> Seq<int> {
    rv.subrange(0, level).map_values(|x: u8| x as int)
}

/// `t` is the node map of order `n`: entry `e` holds the nodes of hyperedge `e`.
pub open spec fn is_node_map(n: nat, t: Seq<CompressedNodeSet>) -> bool {
    &&& t.len() == edge_total(n)
    &&& forall|e: int| 0 <= e < t.len() ==> (#[trigger] t[e])@ == edge_nodes(n, e)
}

/// The combinations starting at `a` are those whose first member lies in
/// `a..b`, then those starting at `b`.
pub proof fn lemma_combos_split(a: int, b: int, n: int, k: nat)
    requires
        k > 0,
        a <= b <= n,
    ensures
        combos(a, n, k) == combos_between(a, b, n, k) + combos(b, n, k),
    decreases b - a,
{
    if b > a {
        lemma_combos_split(a, b - 1, n, k);
        assert(combos(b - 1, n, k) == prepend_all(b - 1, combos(b, n, (k - 1) as nat)) + combos(
            b,
            n,
            k,
        ));
        assert(combos(a, n, k) =~= combos_between(a, b, n, k) + combos(b, n, k));
    } else {
        assert(combos_between(a, b, n, k) =~= Seq::<Seq<int>>::empty());
        assert(combos(a, n, k) =~= combos_between(a, b, n, k) + combos(b, n, k));
    }
}

/// There is no `k`-combination of fewer than `k` members.
pub proof fn lemma_combos_empty(start: int, n: int, k: nat)
    requires
        k > 0,
        start + k > n,
    ensures
        combos(start, n, k).len() == 0,
    decreases n - start,
{
    if start < n {
        lemma_combos_empty(start + 1, n, (k - 1) as nat);
        lemma_combos_empty(start + 1, n, k);
    }
}

impl<const N: usize> CompactMotif<N> {
    /// Writes the node set of every hyperedge whose first `level` nodes are
    /// `rv[..level]` and whose other nodes are taken from `pos..N`, in
    /// lexicographic order, from index `edge_count` on.
    fn build_node_map_rec(
        pos: usize,
        level: usize,
        rv: &mut Vec<u8>,
        node_map: &mut Vec<CompressedNodeSet>,
        edge_count: &mut usize,
    )
        requires
            N <= 8,
            level <= old(rv).len() <= N,
            pos <= N,
            forall|j: int| 0 <= j < level ==> old(rv)[j] < N,
            *old(edge_count) + combos(pos as int, N as int, (old(rv).len() - level) as nat).len()
                <= old(node_map).len(),
        ensures
            final(rv).len() == old(rv).len(),
            final(rv)@.subrange(0, level as int) == old(rv)@.subrange(0, level as int),
            *final(edge_count) == *old(edge_count) + combos(
                pos as int,
                N as int,
                (old(rv).len() - level) as nat,
            ).len(),
            final(node_map).len() == old(node_map).len(),
            forall|i: int|
                (0 <= i < *old(edge_count) || *final(edge_count) <= i < old(node_map).len())
                    ==> #[trigger] final(node_map)[i] == old(node_map)[i],
            forall|i: int|
                0 <= i < combos(pos as int, N as int, (old(rv).len() - level) as nat).len()
                    ==> (#[trigger] final(node_map)[*old(edge_count) + i])@ == (nodes_of(
                    old(rv)@,
                    level as int,
                ) + combos(pos as int, N as int, (old(rv).len() - level) as nat)[i]).to_set(),
        decreases N - level,
    {
        let m = rv.len();
        let ghost rv0 = rv@;
        let ghost ec0 = *edge_count;
        let ghost nm0 = node_map@;
        if level == m {
            let mut map: u8 = 0;
            let mut i: usize = 0;
            proof {
                lemma_bit32_zero();
                assert(set8(map) =~= Set::<int>::empty());
                assert(nodes_of(rv@, 0) =~= Seq::<int>::empty());
                assert(nodes_of(rv@, 0).to_set() =~= Set::<int>::empty());
            }
            while i < m
                invariant
                    i <= m,
                    m == rv.len(),
                    level == m,
                    N <= 8,
                    forall|j: int| 0 <= j < m ==> rv[j] < N,
                    set8(map) == nodes_of(rv@, i as int).to_set(),
                decreases m - i,
            {
                proof {
                    lemma_set8_or_shl(map, rv[i as int]);
                    assert(nodes_of(rv@, i + 1) =~= nodes_of(rv@, i as int).push(rv[i as int] as int));
                    nodes_of(rv@, i as int).lemma_push_to_set_commute(rv[i as int] as int);
                }
                map = map | (1u8 << rv[i]);
                i += 1;
            }
            proof {
                assert(combos(pos as int, N as int, 0) == seq![Seq::<int>::empty()]);
                assert(nodes_of(rv0, level as int) + Seq::<int>::empty() =~= nodes_of(rv@, m as int));
            }
            node_map.set(*edge_count, CompressedNodeSet { nodes: map });
            *edge_count += 1;
            return;
        }
        let ghost k: nat = (m - level) as nat;
        let ghost pos0 = pos as int;
        let mut pos = pos;
        proof {
            lemma_combos_split(pos0, pos0, N as int, k);
        }
        while pos < N - (m - level - 1)
            invariant
                level < m,
                m == rv.len(),
                m <= N <= 8,
                k == m - level,
                rv0.len() == m,
                forall|j: int| 0 <= j < level ==> rv0[j] < N,
                pos0 <= pos <= N,
                rv@.subrange(0, level as int) == rv0.subrange(0, level as int),
                forall|j: int| 0 <= j < level ==> rv[j] < N,
                *edge_count == ec0 + combos_between(pos0, pos as int, N as int, k).len(),
                node_map.len() == nm0.len(),
                ec0 + combos(pos0, N as int, k).len() <= nm0.len(),
                combos(pos0, N as int, k) == combos_between(pos0, pos as int, N as int, k) + combos(
                    pos as int,
                    N as int,
                    k,
                ),
                forall|i: int|
                    (0 <= i < ec0 || *edge_count <= i < nm0.len()) ==> #[trigger] node_map[i]
                        == nm0[i],
                forall|i: int|
                    0 <= i < combos_between(pos0, pos as int, N as int, k).len()
                        ==> (#[trigger] node_map[ec0 + i])@ == (nodes_of(rv0, level as int)
                        + combos_between(pos0, pos as int, N as int, k)[i]).to_set(),
            decreases N - pos,
        {
            let ghost ec1 = *edge_count;
            let ghost nm1 = node_map@;
            let ghost cb = combos_between(pos0, pos as int, N as int, k);
            let ghost sub_c = combos(pos + 1, N as int, (k - 1) as nat);
            proof {
                assert(combos(pos as int, N as int, k) == prepend_all(pos as int, sub_c) + combos(
                    pos + 1,
                    N as int,
                    k,
                ));
                lemma_combos_split(pos0, pos + 1, N as int, k);
                assert(combos_between(pos0, pos + 1, N as int, k) == cb + prepend_all(
                    pos as int,
                    sub_c,
                ));
            }
            rv.set(level, pos as u8);
            Self::build_node_map_rec(pos + 1, level + 1, rv, node_map, edge_count);
            proof {
                let cb2 = combos_between(pos0, pos + 1, N as int, k);
                assert(nodes_of(rv@, level + 1) == nodes_of(rv0, level as int).push(pos as int))
                    by {
                    assert(rv@.subrange(0, level + 1).subrange(0, level as int) =~= rv@.subrange(
                        0,
                        level as int,
                    ));
                    assert(nodes_of(rv@, level + 1) =~= nodes_of(rv0, level as int).push(
                        pos as int,
                    ));
                }
                assert forall|i: int| 0 <= i < cb2.len() implies (#[trigger] node_map[ec0
                    + i])@ == (nodes_of(rv0, level as int) + cb2[i]).to_set() by {
                    if i < cb.len() {
                        assert(cb2[i] == cb[i]);
                        assert(node_map[ec0 + i] == nm1[ec0 + i]);
                    } else {
                        let j = i - cb.len();
                        assert(cb2[i] == seq![pos as int] + sub_c[j]);
                        assert(node_map[ec1 + j]@ == (nodes_of(rv@, level + 1) + sub_c[j]).to_set());
                        assert(nodes_of(rv0, level as int).push(pos as int) + sub_c[j] =~= nodes_of(
                            rv0,
                            level as int,
                        ) + (seq![pos as int] + sub_c[j]));
                    }
                }
                assert(rv@.subrange(0, level as int) =~= rv0.subrange(0, level as int)) by {
                    assert(rv@.subrange(0, level + 1).subrange(0, level as int) =~= rv@.subrange(
                        0,
                        level as int,
                    ));
                }
                assert forall|j: int| 0 <= j < level implies rv[j] < N by {
                    assert(rv@.subrange(0, level as int)[j] == rv0.subrange(0, level as int)[j]);
                }
            }
            pos += 1;
        }
        proof {
            lemma_combos_empty(pos as int, N as int, k);
            assert(combos(pos0, N as int, k) =~= combos_between(pos0, pos as int, N as int, k));
        }
    }
}


/// Every combination is an increasing sequence of `k` numbers from `start..n`.
pub proof fn lemma_combos_elems(start: int, n: int, k: nat)
    ensures
        forall|i: int|
            0 <= i < combos(start, n, k).len() ==> {
                let c = #[trigger] combos(start, n, k)[i];
                &&& c.len() == k
                &&& forall|j: int| 0 <= j < c.len() ==> start <= #[trigger] c[j] < n
                &&& forall|j1: int, j2: int| 0 <= j1 < j2 < c.len() ==> c[j1] < c[j2]
            },
    decreases n - start,
{
    if k > 0 && start < n {
        lemma_combos_elems(start + 1, n, (k - 1) as nat);
        lemma_combos_elems(start + 1, n, k);
        let a = prepend_all(start, combos(start + 1, n, (k - 1) as nat));
        let b = combos(start + 1, n, k);
        assert forall|i: int| 0 <= i < combos(start, n, k).len() implies {
            let c = #[trigger] combos(start, n, k)[i];
            &&& c.len() == k
            &&& forall|j: int| 0 <= j < c.len() ==> start <= #[trigger] c[j] < n
            &&& forall|j1: int, j2: int| 0 <= j1 < j2 < c.len() ==> c[j1] < c[j2]
        } by {
            let c = combos(start, n, k)[i];
            if i < a.len() {
                let c1 = combos(start + 1, n, (k - 1) as nat)[i];
                assert(c == seq![start] + c1);
                assert forall|j: int| 0 <= j < c.len() implies start <= #[trigger] c[j] < n by {
                    if j > 0 {
                        assert(c[j] == c1[j - 1]);
                    }
                }
                assert forall|j1: int, j2: int| 0 <= j1 < j2 < c.len() implies c[j1] < c[j2] by {
                    assert(c[j2] == c1[j2 - 1]);
                    if j1 > 0 {
                        assert(c[j1] == c1[j1 - 1]);
                    }
                }
            } else {
                assert(c == b[i - a.len()]);
            }
        }
    }
}

/// Every hyperedge of the order-`n` numbering has at least two nodes, all below `n`.
pub proof fn lemma_edges_upto_elems(n: nat, m: nat)
    ensures
        forall|e: int|
            0 <= e < edges_upto(n, m).len() ==> {
                let c = #[trigger] edges_upto(n, m)[e];
                &&& 2 <= c.len() < m
                &&& forall|j: int| 0 <= j < c.len() ==> 0 <= #[trigger] c[j] < n
                &&& forall|j1: int, j2: int| 0 <= j1 < j2 < c.len() ==> c[j1] < c[j2]
            },
    decreases m,
{
    if m > 2 {
        lemma_edges_upto_elems(n, (m - 1) as nat);
        lemma_combos_elems(0, n as int, (m - 1) as nat);
        let a = edges_upto(n, (m - 1) as nat);
        assert forall|e: int| 0 <= e < edges_upto(n, m).len() implies {
            let c = #[trigger] edges_upto(n, m)[e];
            &&& 2 <= c.len() < m
            &&& forall|j: int| 0 <= j < c.len() ==> 0 <= #[trigger] c[j] < n
            &&& forall|j1: int, j2: int| 0 <= j1 < j2 < c.len() ==> c[j1] < c[j2]
        } by {
            if e < a.len() {
                assert(edges_upto(n, m)[e] == a[e]);
            } else {
                assert(edges_upto(n, m)[e] == combos(0, n as int, (m - 1) as nat)[e - a.len()]);
            }
        }
    }
}

/// The nodes of every hyperedge lie in `0..n`.
pub proof fn lemma_edge_nodes_range(n: nat, e: int)
    requires
        0 <= e < edge_total(n),
    ensures
        forall|v: int| #[trigger] edge_nodes(n, e).contains(v) ==> 0 <= v < n,
{
    lemma_edges_upto_elems(n, n + 1);
    assert forall|v: int| #[trigger] edge_nodes(n, e).contains(v) implies 0 <= v < n by {
        let c = order_edges(n)[e];
        let j = choose|j: int| 0 <= j < c.len() && c[j] == v;
    }
}

/// A shorter list of sizes is a prefix of a longer one.
pub proof fn lemma_edges_upto_prefix(n: nat, a: nat, b: nat)
    requires
        a <= b,
    ensures
        edges_upto(n, a).len() <= edges_upto(n, b).len(),
        forall|e: int| 0 <= e < edges_upto(n, a).len() ==> #[trigger] edges_upto(n, b)[e] == edges_upto(n, a)[e],
    decreases b,
{
    if a < b {
        lemma_edges_upto_prefix(n, a, (b - 1) as nat);
        if b > 2 {
            assert(edges_upto(n, b) == edges_upto(n, (b - 1) as nat) + combos(0, n as int, (b - 1) as nat));
        }
    }
}

/// There are "`n - start` choose `k`" combinations.
pub proof fn lemma_combos_len(start: int, n: int, k: nat)
    requires
        start <= n,
    ensures
        combos(start, n, k).len() == binom((n - start) as nat, k),
    decreases n - start,
{
    if k > 0 && start < n {
        lemma_combos_len(start + 1, n, (k - 1) as nat);
        lemma_combos_len(start + 1, n, k);
    }
}

/// Number of hyperedges of each supported order.
pub proof fn lemma_edge_totals()
    ensures
        edge_total(2) == 1,
        edge_total(3) == 4,
        edge_total(4) == 11,
        edge_total(5) == 26,
{
    reveal_with_fuel(binom, 7);
    assert forall|k: nat| k <= 5 implies combos(0, 2, k).len() == binom(2, k) && combos(0, 3, k).len()
        == binom(3, k) && combos(0, 4, k).len() == binom(4, k) && combos(0, 5, k).len() == binom(
        5,
        k,
    ) by {
        lemma_combos_len(0, 2, k);
        lemma_combos_len(0, 3, k);
        lemma_combos_len(0, 4, k);
        lemma_combos_len(0, 5, k);
    }
    assert(binom(2, 2) == 1);
    assert(binom(3, 2) == 3 && binom(3, 3) == 1);
    assert(binom(4, 2) == 6 && binom(4, 3) == 4 && binom(4, 4) == 1);
    assert(binom(5, 2) == 10 && binom(5, 3) == 10 && binom(5, 4) == 5 && binom(5, 5) == 1);
    reveal_with_fuel(edges_upto, 6);
    assert(combos(0, 2, 2).len() == 1);
    assert(edge_total(2) == 1);
    assert(edge_total(3) == 4);
    assert(edge_total(4) == 11);
    assert(edge_total(5) == 26);
}


/// `t[v]` holds the hyperedges that contain node `v`.
pub open spec fn is_adj<const N: usize>(t: Seq<CompactMotif<N>>) -> bool {
    &&& t.len() == N
    &&& forall|v: int, e: int|
        0 <= v < N ==> (#[trigger] t[v]@.contains(e) == (0 <= e < edge_total(N as nat)
            && edge_nodes(N as nat, e).contains(v)))
}

/// `t[e]` holds the hyperedges whose nodes all lie in hyperedge `e`.
pub open spec fn is_full_overlaps<const N: usize>(t: Seq<CompactMotif<N>>) -> bool {
    &&& t.len() == edge_total(N as nat)
    &&& forall|e: int, f: int|
        0 <= e < t.len() ==> (#[trigger] t[e]@.contains(f) == (0 <= f < edge_total(N as nat)
            && edge_nodes(N as nat, f).subset_of(edge_nodes(N as nat, e))))
}

/// `t[e]` holds the hyperedges that share at least one node with hyperedge `e`.
pub open spec fn is_part_overlaps<const N: usize>(t: Seq<CompactMotif<N>>) -> bool {
    &&& t.len() == edge_total(N as nat)
    &&& forall|e: int, f: int|
        0 <= e < t.len() ==> (#[trigger] t[e]@.contains(f) == (0 <= f < edge_total(N as nat)
            && !edge_nodes(N as nat, f).disjoint(edge_nodes(N as nat, e))))
}

impl<const N: usize> CompactMotif<N> {
    /// Number of hyperedges of a motif of this order.
    pub fn max_edge_count() -> (r: usize)
        requires
            2 <= N <= 5,
        ensures
            r == edge_total(N as nat),
            r <= container_width(N as nat),
    {
        proof {
            lemma_edge_totals();
        }
        if N == 2 {
            1
        } else if N == 3 {
            4
        } else if N == 4 {
            11
        } else {
            26
        }
    }

    /// Number of nodes of a motif of this order.
    pub fn size() -> (r: usize)
        ensures
            r == N,
    {
        N
    }

    /// For every hyperedge whose first `level` nodes are `rv[..level]` and whose
    /// other nodes are taken from `pos..N` (in lexicographic order, numbered
    /// from `edge_count` on), adds the hyperedge to the entry of each of its nodes.
    fn build_adj_rec(
        pos: usize,
        level: usize,
        rv: &mut Vec<u8>,
        adj: &mut Vec<CompactMotif<N>>,
        edge_count: &mut usize,
    )
        requires
            2 <= N <= 5,
            level <= old(rv).len() <= N,
            pos <= N,
            forall|j: int| 0 <= j < level ==> old(rv)[j] < N,
            *old(edge_count) + combos(pos as int, N as int, (old(rv).len() - level) as nat).len()
                <= edge_total(N as nat),
            old(adj).len() == N,
        ensures
            final(rv).len() == old(rv).len(),
            final(rv)@.subrange(0, level as int) == old(rv)@.subrange(0, level as int),
            *final(edge_count) == *old(edge_count) + combos(
                pos as int,
                N as int,
                (old(rv).len() - level) as nat,
            ).len(),
            final(adj).len() == N,
            forall|v: int, e: int|
                0 <= v < N ==> #[trigger] final(adj)[v]@.contains(e) == (old(adj)[v]@.contains(e)
                    || (*old(edge_count) <= e < *final(edge_count) && (nodes_of(
                    old(rv)@,
                    level as int,
                ) + combos(pos as int, N as int, (old(rv).len() - level) as nat)[e
                    - *old(edge_count)]).to_set().contains(v))),
        decreases N - level,
    {
        let m = rv.len();
        let ghost rv0 = rv@;
        let ghost ec0 = *edge_count;
        let ghost adj0 = adj@;
        proof {
            lemma_edge_totals();
        }
        if level == m {
            let mut i: usize = 0;
            let ec = *edge_count;
            proof {
                assert(nodes_of(rv@, 0) =~= Seq::<int>::empty());
                assert(nodes_of(rv@, 0).to_set() =~= Set::<int>::empty());
                assert(combos(pos as int, N as int, 0) == seq![Seq::<int>::empty()]);
            }
            while i < m
                invariant
                    i <= m,
                    m == rv.len(),
                    level == m,
                    2 <= N <= 5,
                    ec == ec0,
                    ec0 < edge_total(N as nat),
                    edge_total(N as nat) <= container_width(N as nat),
                    forall|j: int| 0 <= j < m ==> rv[j] < N,
                    adj.len() == N,
                    forall|v: int, e: int|
                        0 <= v < N ==> #[trigger] adj[v]@.contains(e) == (adj0[v]@.contains(e) || (e
                            == ec0 && nodes_of(rv@, i as int).to_set().contains(v))),
                decreases m - i,
            {
                let node = rv[i] as usize;
                let one = Self::new(1);
                proof {
                    crate::bits::lemma_bit32_shl1(0);
                    assert(1u32 << 0u32 == 1u32) by (bit_vector);
                    assert(one@ == set![0int]);
                }
                let bit = one.shl(ec);
                let mut a = adj[node];
                a.const_bitor_assign(bit);
                proof {
                    assert(bit@ =~= set![ec as int]) by {
                        assert forall|x: int| #[trigger] bit@.contains(x) == (x == ec) by {
                            if bit@.contains(x) {
                                assert(one@.contains(x - ec));
                            }
                            if x == ec {
                                assert(one@.contains(x - ec));
                            }
                        }
                    }
                    assert(nodes_of(rv@, i + 1) =~= nodes_of(rv@, i as int).push(rv[i as int] as int));
                    nodes_of(rv@, i as int).lemma_push_to_set_commute(rv[i as int] as int);
                }
                adj.set(node, a);
                i += 1;
            }
            proof {
                assert(nodes_of(rv0, level as int) + Seq::<int>::empty() =~= nodes_of(rv@, m as int));
            }
            *edge_count += 1;
            return;
        }
        let ghost k: nat = (m - level) as nat;
        let ghost pos0 = pos as int;
        let mut pos = pos;
        proof {
            lemma_combos_split(pos0, pos0, N as int, k);
        }
        while pos < N - (m - level - 1)
            invariant
                level < m,
                m == rv.len(),
                2 <= N <= 5,
                m <= N,
                k == m - level,
                rv0.len() == m,
                forall|j: int| 0 <= j < level ==> rv0[j] < N,
                pos0 <= pos <= N,
                rv@.subrange(0, level as int) == rv0.subrange(0, level as int),
                forall|j: int| 0 <= j < level ==> rv[j] < N,
                *edge_count == ec0 + combos_between(pos0, pos as int, N as int, k).len(),
                adj.len() == N,
                ec0 + combos(pos0, N as int, k).len() <= edge_total(N as nat),
                combos(pos0, N as int, k) == combos_between(pos0, pos as int, N as int, k) + combos(
                    pos as int,
                    N as int,
                    k,
                ),
                forall|v: int, e: int|
                    0 <= v < N ==> #[trigger] adj[v]@.contains(e) == (adj0[v]@.contains(e) || (ec0
                        <= e < *edge_count && (nodes_of(rv0, level as int) + combos_between(
                        pos0,
                        pos as int,
                        N as int,
                        k,
                    )[e - ec0]).to_set().contains(v))),
            decreases N - pos,
        {
            let ghost ec1 = *edge_count;
            let ghost adj1 = adj@;
            let ghost cb = combos_between(pos0, pos as int, N as int, k);
            let ghost sub_c = combos(pos + 1, N as int, (k - 1) as nat);
            proof {
                assert(combos(pos as int, N as int, k) == prepend_all(pos as int, sub_c) + combos(
                    pos + 1,
                    N as int,
                    k,
                ));
                lemma_combos_split(pos0, pos + 1, N as int, k);
                assert(combos_between(pos0, pos + 1, N as int, k) == cb + prepend_all(
                    pos as int,
                    sub_c,
                ));
            }
            rv.set(level, pos as u8);
            Self::build_adj_rec(pos + 1, level + 1, rv, adj, edge_count);
            proof {
                let cb2 = combos_between(pos0, pos + 1, N as int, k);
                assert(nodes_of(rv@, level + 1) == nodes_of(rv0, level as int).push(pos as int))
                    by {
                    assert(rv@.subrange(0, level + 1).subrange(0, level as int) =~= rv@.subrange(
                        0,
                        level as int,
                    ));
                    assert(nodes_of(rv@, level + 1) =~= nodes_of(rv0, level as int).push(
                        pos as int,
                    ));
                }
                assert forall|v: int, e: int| 0 <= v < N implies #[trigger] adj[v]@.contains(e) == (
                adj0[v]@.contains(e) || (ec0 <= e < *edge_count && (nodes_of(rv0, level as int)
                    + cb2[e - ec0]).to_set().contains(v))) by {
                    if ec1 <= e < *edge_count {
                        let j = e - ec1;
                        assert(cb2[e - ec0] == seq![pos as int] + sub_c[j]);
                        assert(nodes_of(rv0, level as int).push(pos as int) + sub_c[j] =~= nodes_of(
                            rv0,
                            level as int,
                        ) + (seq![pos as int] + sub_c[j]));
                    } else if ec0 <= e < ec1 {
                        assert(cb2[e - ec0] == cb[e - ec0]);
                    }
                }
                assert(rv@.subrange(0, level as int) =~= rv0.subrange(0, level as int)) by {
                    assert(rv@.subrange(0, level + 1).subrange(0, level as int) =~= rv@.subrange(
                        0,
                        level as int,
                    ));
                }
                assert forall|j: int| 0 <= j < level implies rv[j] < N by {
                    assert(rv@.subrange(0, level as int)[j] == rv0.subrange(0, level as int)[j]);
                }
            }
            pos += 1;
        }
        proof {
            lemma_combos_empty(pos as int, N as int, k);
            assert(combos(pos0, N as int, k) =~= combos_between(pos0, pos as int, N as int, k));
        }
    }
}

/// Clearing the nodes of `a` from the low `n` bits of a byte.
pub proof fn lemma_set8_complement(a: u8, n: u8)
    requires
        n < 8,
    ensures
        set8((!a) & (((1u8 << n) - 1) as u8)) == set_int_range(0, n as int).difference(set8(a)),
{
    let r = (!a) & (((1u8 << n) - 1) as u8);
    assert forall|i: int| #[trigger] set8(r).contains(i) == set_int_range(0, n as int).difference(
        set8(a),
    ).contains(i) by {
        if 0 <= i < 32 {
            let k = i as u32;
            assert(((((r as u32) >> k) & 1u32) == 1u32) == (k < (n as u32) && !((((a as u32) >> k)
                & 1u32) == 1u32))) by (bit_vector)
                requires
                    n < 8,
                    k < 32,
                    r == (!a) & (((1u8 << n) - 1) as u8),
            ;
        }
    }
    assert(set8(r) =~= set_int_range(0, n as int).difference(set8(a)));
}

/// Adding the next size of hyperedges to the numbering.
pub proof fn lemma_edges_upto_step(n: nat, m: nat)
    requires
        m >= 2,
    ensures
        edges_upto(n, m + 1) == edges_upto(n, m) + combos(0, n as int, m),
{
}

impl<const N: usize> CompactMotif<N> {
    /// For every hyperedge whose first `level` nodes are `rv[..level]` and whose
    /// other nodes are taken from `pos..N` (numbered from `edge_count` on), writes
    /// the set of hyperedges whose nodes all lie in it.
    fn build_full_overlaps_rec(
        pos: usize,
        level: usize,
        rv: &mut Vec<u8>,
        adj: &Vec<CompactMotif<N>>,
        full_overlaps: &mut Vec<CompactMotif<N>>,
        edge_count: &mut usize,
    )
        requires
            2 <= N <= 5,
            level <= old(rv).len() <= N,
            pos <= N,
            forall|j: int| 0 <= j < level ==> old(rv)[j] < N,
            *old(edge_count) + combos(pos as int, N as int, (old(rv).len() - level) as nat).len()
                <= old(full_overlaps).len(),
            is_adj(adj@),
        ensures
            final(rv).len() == old(rv).len(),
            final(rv)@.subrange(0, level as int) == old(rv)@.subrange(0, level as int),
            *final(edge_count) == *old(edge_count) + combos(
                pos as int,
                N as int,
                (old(rv).len() - level) as nat,
            ).len(),
            final(full_overlaps).len() == old(full_overlaps).len(),
            forall|i: int|
                (0 <= i < *old(edge_count) || *final(edge_count) <= i < old(full_overlaps).len())
                    ==> #[trigger] final(full_overlaps)[i] == old(full_overlaps)[i],
            forall|i: int, f: int|
                0 <= i < combos(pos as int, N as int, (old(rv).len() - level) as nat).len()
                    ==> (#[trigger] final(full_overlaps)[*old(edge_count) + i]@.contains(f) == (0
                    <= f < edge_total(N as nat) && edge_nodes(N as nat, f).subset_of(
                    (nodes_of(old(rv)@, level as int) + combos(
                        pos as int,
                        N as int,
                        (old(rv).len() - level) as nat,
                    )[i]).to_set(),
                ))),
        decreases N - level,
    {
        let m = rv.len();
        let ghost rv0 = rv@;
        let ghost ec0 = *edge_count;
        let ghost fo0 = full_overlaps@;
        proof {
            lemma_edge_totals();
        }
        if level == m {
            let mut node_set: u8 = 0;
            let mut i: usize = 0;
            proof {
                crate::bits::lemma_bit32_zero();
                assert(set8(node_set) =~= Set::<int>::empty());
                assert(nodes_of(rv@, 0) =~= Seq::<int>::empty());
                assert(nodes_of(rv@, 0).to_set() =~= Set::<int>::empty());
            }
            while i < m
                invariant
                    i <= m,
                    m == rv.len(),
                    level == m,
                    N <= 5,
                    forall|j: int| 0 <= j < m ==> rv[j] < N,
                    set8(node_set) == nodes_of(rv@, i as int).to_set(),
                decreases m - i,
            {
                proof {
                    lemma_set8_or_shl(node_set, rv[i as int]);
                    assert(nodes_of(rv@, i + 1) =~= nodes_of(rv@, i as int).push(rv[i as int] as int));
                    nodes_of(rv@, i as int).lemma_push_to_set_commute(rv[i as int] as int);
                }
                node_set = node_set | (1u8 << rv[i]);
                i += 1;
            }
            let ghost sset = set8(node_set);
            proof {
                lemma_set8_complement(node_set, N as u8);
            }
            let nn = N as u8;
            proof {
                assert(nn < 8 ==> (1u8 << nn) >= 1) by (bit_vector);
            }
            node_set = !node_set;
            node_set = node_set & ((1u8 << nn) - 1);
            let ghost comp = set8(node_set);
            let mut curr_full_overlaps: u32 = !0u32;
            proof {
                crate::bits::lemma_bit32_not(0u32);
                crate::bits::lemma_bit32_zero();
                assert(!0u32 == 0xffff_ffffu32) by (bit_vector);
            }
            while node_set != 0
                invariant
                    2 <= N <= 5,
                    is_adj(adj@),
                    set8(node_set).subset_of(comp),
                    forall|f: int| #[trigger]
                        bit32(curr_full_overlaps, f) == (0 <= f < 32 && forall|v: int|
                            comp.contains(v) && !set8(node_set).contains(v) ==> !(
                            #[trigger] adj[v]@.contains(f))),
                    comp == set_int_range(0, N as int).difference(sset),
                decreases node_set,
            {
                let w = node_set as u32;
                proof {
                    lemma_clear_lowest(w);
                }
                let node = w.trailing_zeros();
                let b = 1u32 << node;
                proof {
                    crate::bits::lemma_bit32_shl1(node);
                    crate::bits::lemma_bit32_and_not(w, b);
                    assert((w & !b) < 256 && (w & !b) < w) by {
                        assert(w < 256 ==> b == 1u32 << node ==> node < 32 ==> (w >> node) & 1u32
                            == 1u32 ==> (w & !b) < 256 && (w & !b) < w) by (bit_vector);
                    }
                    assert(set32(w).contains(node as int));
                }
                node_set = (w & !b) as u8;
                let a = adj[node as usize].container();
                proof {
                    crate::bits::lemma_bit32_and_not(curr_full_overlaps, a);
                    assert(set8(node_set) == set32(w).remove(node as int));
                    assert forall|f: int| #[trigger]
                        bit32(curr_full_overlaps & !a, f) == (0 <= f < 32 && forall|v: int|
                            comp.contains(v) && !set8(node_set).contains(v) ==> !(
                            #[trigger] adj[v]@.contains(f))) by {
                        if bit32(curr_full_overlaps & !a, f) {
                            assert forall|v: int|
                                comp.contains(v) && !set8(node_set).contains(v) implies !(
                                #[trigger] adj[v]@.contains(f)) by {
                                if v != node {
                                    assert(!set32(w).contains(v));
                                }
                            }
                        }
                        if (0 <= f < 32 && forall|v: int|
                            comp.contains(v) && !set8(node_set).contains(v) ==> !(
                            #[trigger] adj[v]@.contains(f))) {
                            assert(comp.contains(node as int));
                            assert(!adj[node as int]@.contains(f));
                        }
                    }
                }
                curr_full_overlaps = curr_full_overlaps & !a;
            }
            let e_count = Self::max_edge_count() as u32;
            proof {
                assert(e_count < 32 ==> (1u32 << e_count) >= 1) by (bit_vector);
            }
            let lm = (1u32 << e_count) - 1;
            proof {
                crate::bits::lemma_bit32_low_mask(e_count);
                crate::bits::lemma_bit32_and(curr_full_overlaps, lm);
                crate::bits::lemma_set32_empty(node_set as u32);
            }
            curr_full_overlaps = curr_full_overlaps & lm;
            let r = Self::new(curr_full_overlaps);
            proof {
                assert(combos(pos as int, N as int, 0) == seq![Seq::<int>::empty()]);
                assert(nodes_of(rv0, level as int) + Seq::<int>::empty() =~= nodes_of(rv@, m as int));
                assert forall|f: int| #[trigger] r@.contains(f) == (0 <= f < edge_total(N as nat)
                    && edge_nodes(N as nat, f).subset_of(sset)) by {
                    if 0 <= f < edge_total(N as nat) {
                        lemma_edge_nodes_range(N as nat, f);
                        if edge_nodes(N as nat, f).subset_of(sset) {
                            assert forall|v: int| comp.contains(v) implies !(
                            #[trigger] adj[v]@.contains(f)) by {}
                        } else {
                            let v = choose|v: int|
                                edge_nodes(N as nat, f).contains(v) && !sset.contains(v);
                            assert(comp.contains(v));
                            assert(adj[v]@.contains(f));
                        }
                    }
                }
            }
            full_overlaps.set(*edge_count, r);
            *edge_count += 1;
            return;
        }
        let ghost k: nat = (m - level) as nat;
        let ghost pos0 = pos as int;
        let mut pos = pos;
        proof {
            lemma_combos_split(pos0, pos0, N as int, k);
        }
        while pos < N - (m - level - 1)
            invariant
                level < m,
                m == rv.len(),
                2 <= N <= 5,
                m <= N,
                k == m - level,
                rv0.len() == m,
                is_adj(adj@),
                forall|j: int| 0 <= j < level ==> rv0[j] < N,
                pos0 <= pos <= N,
                rv@.subrange(0, level as int) == rv0.subrange(0, level as int),
                forall|j: int| 0 <= j < level ==> rv[j] < N,
                *edge_count == ec0 + combos_between(pos0, pos as int, N as int, k).len(),
                full_overlaps.len() == fo0.len(),
                ec0 + combos(pos0, N as int, k).len() <= fo0.len(),
                combos(pos0, N as int, k) == combos_between(pos0, pos as int, N as int, k) + combos(
                    pos as int,
                    N as int,
                    k,
                ),
                forall|i: int|
                    (0 <= i < ec0 || *edge_count <= i < fo0.len()) ==> #[trigger] full_overlaps[i]
                        == fo0[i],
                forall|i: int, f: int|
                    0 <= i < combos_between(pos0, pos as int, N as int, k).len()
                        ==> (#[trigger] full_overlaps[ec0 + i]@.contains(f) == (0 <= f
                        < edge_total(N as nat) && edge_nodes(N as nat, f).subset_of(
                        (nodes_of(rv0, level as int) + combos_between(
                            pos0,
                            pos as int,
                            N as int,
                            k,
                        )[i]).to_set(),
                    ))),
            decreases N - pos,
        {
            let ghost ec1 = *edge_count;
            let ghost fo1 = full_overlaps@;
            let ghost cb = combos_between(pos0, pos as int, N as int, k);
            let ghost sub_c = combos(pos + 1, N as int, (k - 1) as nat);
            proof {
                assert(combos(pos as int, N as int, k) == prepend_all(pos as int, sub_c) + combos(
                    pos + 1,
                    N as int,
                    k,
                ));
                lemma_combos_split(pos0, pos + 1, N as int, k);
                assert(combos_between(pos0, pos + 1, N as int, k) == cb + prepend_all(
                    pos as int,
                    sub_c,
                ));
            }
            rv.set(level, pos as u8);
            Self::build_full_overlaps_rec(pos + 1, level + 1, rv, adj, full_overlaps, edge_count);
            proof {
                let cb2 = combos_between(pos0, pos + 1, N as int, k);
                assert(nodes_of(rv@, level + 1) == nodes_of(rv0, level as int).push(pos as int))
                    by {
                    assert(rv@.subrange(0, level + 1).subrange(0, level as int) =~= rv@.subrange(
                        0,
                        level as int,
                    ));
                    assert(nodes_of(rv@, level + 1) =~= nodes_of(rv0, level as int).push(
                        pos as int,
                    ));
                }
                assert forall|i: int, f: int| 0 <= i < cb2.len() implies (
                #[trigger] full_overlaps[ec0 + i]@.contains(f) == (0 <= f < edge_total(N as nat)
                    && edge_nodes(N as nat, f).subset_of(
                    (nodes_of(rv0, level as int) + cb2[i]).to_set(),
                ))) by {
                    if i < cb.len() {
                        assert(cb2[i] == cb[i]);
                        assert(full_overlaps[ec0 + i] == fo1[ec0 + i]);
                    } else {
                        let j = i - cb.len();
                        assert(cb2[i] == seq![pos as int] + sub_c[j]);
                        assert(full_overlaps[ec1 + j]@.contains(f) == (0 <= f < edge_total(
                            N as nat,
                        ) && edge_nodes(N as nat, f).subset_of(
                            (nodes_of(rv@, level + 1) + sub_c[j]).to_set(),
                        )));
                        assert(nodes_of(rv0, level as int).push(pos as int) + sub_c[j] =~= nodes_of(
                            rv0,
                            level as int,
                        ) + (seq![pos as int] + sub_c[j]));
                    }
                }
                assert(rv@.subrange(0, level as int) =~= rv0.subrange(0, level as int)) by {
                    assert(rv@.subrange(0, level + 1).subrange(0, level as int) =~= rv@.subrange(
                        0,
                        level as int,
                    ));
                }
                assert forall|j: int| 0 <= j < level implies rv[j] < N by {
                    assert(rv@.subrange(0, level as int)[j] == rv0.subrange(0, level as int)[j]);
                }
            }
            pos += 1;
        }
        proof {
            lemma_combos_empty(pos as int, N as int, k);
            assert(combos(pos0, N as int, k) =~= combos_between(pos0, pos as int, N as int, k));
        }
    }
}

/// A buffer of `m` zero bytes.
fn zero_bucket(m: usize) -> (r: Vec<u8>)
    ensures
        r.len() == m,
{
    let mut v: Vec<u8> = Vec::new();
    let mut i: usize = 0;
    while i < m
        invariant
            i <= m,
            v.len() == i,
        decreases m - i,
    {
        v.push(0);
        i += 1;
    }
    v
}

impl<const N: usize> CompactMotif<N> {
    /// `count` empty motifs.
    fn zeros(count: usize) -> (r: Vec<Self>)
        ensures
            r.len() == count,
            forall|i: int| 0 <= i < count ==> (#[trigger] r[i])@ == Set::<int>::empty(),
    {
        let mut v: Vec<Self> = Vec::new();
        let mut i: usize = 0;
        while i < count
            invariant
                i <= count,
                v.len() == i,
                forall|j: int| 0 <= j < i ==> (#[trigger] v[j])@ == Set::<int>::empty(),
            decreases count - i,
        {
            v.push(Self::one());
            i += 1;
        }
        v
    }

    /// For each node, the hyperedges that contain it.
    pub fn get_adj_const_bitmasks() -> (r: Vec<Self>)
        requires
            2 <= N <= 5,
        ensures
            is_adj(r@),
    {
        let mut adj_raw = Self::zeros(N);
        let mut edge_count: usize = 0;
        let mut m: usize = 2;
        proof {
            lemma_edge_totals();
        }
        while m <= N
            invariant
                2 <= N <= 5,
                2 <= m <= N + 1,
                adj_raw.len() == N,
                edge_count == edges_upto(N as nat, m as nat).len(),
                forall|v: int, e: int|
                    0 <= v < N ==> #[trigger] adj_raw[v]@.contains(e) == (0 <= e < edge_count
                        && edges_upto(N as nat, m as nat)[e].to_set().contains(v)),
            decreases N + 1 - m,
        {
            let mut bucket = zero_bucket(m);
            proof {
                lemma_edges_upto_step(N as nat, m as nat);
                lemma_edges_upto_prefix(N as nat, (m + 1) as nat, (N + 1) as nat);
                lemma_combos_len(0, N as int, m as nat);
            }
            let ghost adj0 = adj_raw@;
            let ghost ec0 = edge_count;
            Self::build_adj_rec(0, 0, &mut bucket, &mut adj_raw, &mut edge_count);
            proof {
                let up = edges_upto(N as nat, (m + 1) as nat);
                assert forall|v: int, e: int| 0 <= v < N implies #[trigger] adj_raw[v]@.contains(e)
                    == (0 <= e < edge_count && up[e].to_set().contains(v)) by {
                    if ec0 <= e < edge_count {
                        assert(nodes_of(bucket@, 0) =~= Seq::<int>::empty());
                        assert(up[e] == combos(0, N as int, m as nat)[e - ec0]);
                        assert(nodes_of(bucket@, 0) + combos(0, N as int, m as nat)[e - ec0]
                            =~= up[e]);
                    } else if 0 <= e < ec0 {
                        assert(up[e] == edges_upto(N as nat, m as nat)[e]);
                    }
                }
            }
            m += 1;
        }
        adj_raw
    }

    /// For each hyperedge, the hyperedges whose nodes all lie in it.
    pub fn get_full_overlaps_const_bitmasks() -> (r: Vec<Self>)
        requires
            2 <= N <= 5,
        ensures
            is_full_overlaps(r@),
    {
        let e_count = Self::max_edge_count();
        let mut full_overlaps_raw = Self::zeros(e_count);
        let mut edge_count: usize = 0;
        let adj_raw = Self::get_adj_const_bitmasks();
        let mut m: usize = 2;
        proof {
            lemma_edge_totals();
        }
        while m <= N
            invariant
                2 <= N <= 5,
                2 <= m <= N + 1,
                is_adj(adj_raw@),
                e_count == edge_total(N as nat),
                full_overlaps_raw.len() == e_count,
                edge_count == edges_upto(N as nat, m as nat).len(),
                forall|e: int, f: int|
                    0 <= e < edge_count ==> #[trigger] full_overlaps_raw[e]@.contains(f) == (0 <= f
                        < edge_total(N as nat) && edge_nodes(N as nat, f).subset_of(
                        edges_upto(N as nat, m as nat)[e].to_set(),
                    )),
            decreases N + 1 - m,
        {
            let mut bucket = zero_bucket(m);
            proof {
                lemma_edges_upto_step(N as nat, m as nat);
                lemma_edges_upto_prefix(N as nat, (m + 1) as nat, (N + 1) as nat);
                lemma_combos_len(0, N as int, m as nat);
            }
            let ghost fo0 = full_overlaps_raw@;
            let ghost ec0 = edge_count;
            Self::build_full_overlaps_rec(
                0,
                0,
                &mut bucket,
                &adj_raw,
                &mut full_overlaps_raw,
                &mut edge_count,
            );
            proof {
                let up = edges_upto(N as nat, (m + 1) as nat);
                assert forall|e: int, f: int| 0 <= e < edge_count implies #[trigger] full_overlaps_raw[e]@.contains(
                    f,
                ) == (0 <= f < edge_total(N as nat) && edge_nodes(N as nat, f).subset_of(
                    up[e].to_set(),
                )) by {
                    if ec0 <= e {
                        assert(nodes_of(bucket@, 0) =~= Seq::<int>::empty());
                        assert(up[e] == combos(0, N as int, m as nat)[e - ec0]);
                        assert(nodes_of(bucket@, 0) + combos(0, N as int, m as nat)[e - ec0]
                            =~= up[e]);
                        assert(full_overlaps_raw[ec0 + (e - ec0)] == full_overlaps_raw[e]);
                    } else {
                        assert(up[e] == edges_upto(N as nat, m as nat)[e]);
                        assert(full_overlaps_raw[e] == fo0[e]);
                    }
                }
            }
            m += 1;
        }
        full_overlaps_raw
    }

    /// For each hyperedge, the nodes it holds.
    pub fn get_node_map_const_bitmasks() -> (r: Vec<CompressedNodeSet>)
        requires
            2 <= N <= 5,
        ensures
            is_node_map(N as nat, r@),
    {
        let e_count = Self::max_edge_count();
        let mut node_map_raw: Vec<CompressedNodeSet> = Vec::new();
        let mut i: usize = 0;
        while i < e_count
            invariant
                i <= e_count,
                node_map_raw.len() == i,
            decreases e_count - i,
        {
            node_map_raw.push(CompressedNodeSet { nodes: 0 });
            i += 1;
        }
        let mut edge_count: usize = 0;
        let mut m: usize = 2;
        proof {
            lemma_edge_totals();
        }
        while m <= N
            invariant
                2 <= N <= 5,
                2 <= m <= N + 1,
                e_count == edge_total(N as nat),
                node_map_raw.len() == e_count,
                edge_count == edges_upto(N as nat, m as nat).len(),
                forall|e: int|
                    0 <= e < edge_count ==> (#[trigger] node_map_raw[e])@ == edges_upto(
                        N as nat,
                        m as nat,
                    )[e].to_set(),
            decreases N + 1 - m,
        {
            let mut bucket = zero_bucket(m);
            proof {
                lemma_edges_upto_step(N as nat, m as nat);
                lemma_edges_upto_prefix(N as nat, (m + 1) as nat, (N + 1) as nat);
                lemma_combos_len(0, N as int, m as nat);
            }
            let ghost nm0 = node_map_raw@;
            let ghost ec0 = edge_count;
            Self::build_node_map_rec(0, 0, &mut bucket, &mut node_map_raw, &mut edge_count);
            proof {
                let up = edges_upto(N as nat, (m + 1) as nat);
                assert forall|e: int| 0 <= e < edge_count implies (
                #[trigger] node_map_raw[e])@ == up[e].to_set() by {
                    if ec0 <= e {
                        assert(nodes_of(bucket@, 0) =~= Seq::<int>::empty());
                        assert(up[e] == combos(0, N as int, m as nat)[e - ec0]);
                        assert(nodes_of(bucket@, 0) + combos(0, N as int, m as nat)[e - ec0]
                            =~= up[e]);
                        assert(node_map_raw[ec0 + (e - ec0)] == node_map_raw[e]);
                    } else {
                        assert(up[e] == edges_upto(N as nat, m as nat)[e]);
                        assert(node_map_raw[e] == nm0[e]);
                    }
                }
            }
            m += 1;
        }
        node_map_raw
    }

    /// For each hyperedge, the hyperedges that share at least one node with it.
    pub fn get_part_overlaps_const_bitmasks() -> (r: Vec<Self>)
        requires
            2 <= N <= 5,
        ensures
            is_part_overlaps(r@),
    {
        let e_count = Self::max_edge_count();
        let mut part_overlaps_raw = Self::zeros(e_count);
        let adj_raw = Self::get_adj_const_bitmasks();
        let mut n: usize = 0;
        proof {
            lemma_edge_totals();
        }
        while n < N
            invariant
                2 <= N <= 5,
                n <= N,
                is_adj(adj_raw@),
                e_count == edge_total(N as nat),
                part_overlaps_raw.len() == e_count,
                forall|e: int, f: int|
                    0 <= e < e_count ==> #[trigger] part_overlaps_raw[e]@.contains(f) == exists|
                        v: int,
                    |
                        0 <= v < n && #[trigger] adj_raw[v]@.contains(e) && adj_raw[v]@.contains(
                            f,
                        ),
            decreases N - n,
        {
            let edges = adj_raw[n].container();
            let mut edges_iter = edges;
            while edges_iter != 0
                invariant
                    2 <= N <= 5,
                    n < N,
                    is_adj(adj_raw@),
                    e_count == edge_total(N as nat),
                    part_overlaps_raw.len() == e_count,
                    set32(edges) == adj_raw[n as int]@,
                    set32(edges_iter).subset_of(set32(edges)),
                    forall|e: int, f: int|
                        0 <= e < e_count ==> #[trigger] part_overlaps_raw[e]@.contains(f) == ((
                        exists|v: int|
                            0 <= v < n && #[trigger] adj_raw[v]@.contains(e)
                                && adj_raw[v]@.contains(f)) || (set32(edges).contains(e)
                            && !set32(edges_iter).contains(e) && adj_raw[n as int]@.contains(f))),
                decreases edges_iter,
            {
                proof {
                    lemma_clear_lowest(edges_iter);
                }
                let edge = edges_iter.trailing_zeros();
                let b = 1u32 << edge;
                proof {
                    crate::bits::lemma_bit32_shl1(edge);
                    crate::bits::lemma_bit32_and_not(edges_iter, b);
                    assert(set32(edges_iter & !b) == set32(edges_iter).remove(edge as int));
                    assert(set32(edges).contains(edge as int));
                    assert((edge as int) < e_count);
                    assert(set32(edges_iter & !b) == set32(edges_iter & ((edges_iter - 1) as u32)));
                    crate::bits::lemma_set32_ext(edges_iter & !b, edges_iter & ((edges_iter - 1) as u32));
                }
                edges_iter = edges_iter & !b;
                let mut p = part_overlaps_raw[edge as usize];
                p.const_bitor_assign(adj_raw[n]);
                part_overlaps_raw.set(edge as usize, p);
            }
            proof {
                crate::bits::lemma_set32_empty(edges_iter);
                assert forall|e: int, f: int|
                    0 <= e < e_count implies #[trigger] part_overlaps_raw[e]@.contains(f) == exists|
                        v: int,
                    |
                        0 <= v < n + 1 && #[trigger] adj_raw[v]@.contains(e) && adj_raw[v]@.contains(
                            f,
                        ) by {
                    if part_overlaps_raw[e]@.contains(f) {
                        if !(exists|v: int|
                            0 <= v < n && #[trigger] adj_raw[v]@.contains(e)
                                && adj_raw[v]@.contains(f)) {
                            assert(adj_raw[n as int]@.contains(e) && adj_raw[n as int]@.contains(f));
                        }
                    }
                }
            }
            n += 1;
        }
        proof {
            assert forall|e: int, f: int| 0 <= e < part_overlaps_raw.len() implies (
            #[trigger] part_overlaps_raw[e]@.contains(f) == (0 <= f < edge_total(N as nat)
                && !edge_nodes(N as nat, f).disjoint(edge_nodes(N as nat, e)))) by {
                if part_overlaps_raw[e]@.contains(f) {
                    let v = choose|v: int|
                        0 <= v < N && #[trigger] adj_raw[v]@.contains(e) && adj_raw[v]@.contains(f);
                    assert(edge_nodes(N as nat, f).contains(v) && edge_nodes(N as nat, e).contains(v));
                } else if 0 <= f < edge_total(N as nat) && !edge_nodes(N as nat, f).disjoint(
                    edge_nodes(N as nat, e),
                ) {
                    let v = choose|v: int|
                        #[trigger] edge_nodes(N as nat, f).contains(v) && edge_nodes(N as nat, e).contains(v);
                    lemma_edge_nodes_range(N as nat, e);
                    assert(adj_raw[v]@.contains(e) && adj_raw[v]@.contains(f));
                }
            }
        }
        part_overlaps_raw
    }

    /// For each node, the hyperedges that contain it.
    pub fn adj() -> (r: Vec<Self>)
        requires
            2 <= N <= 5,
        ensures
            is_adj(r@),
    {
        Self::get_adj_const_bitmasks()
    }

    /// For each hyperedge, the hyperedges whose nodes all lie in it.
    pub fn full_overlaps() -> (r: Vec<Self>)
        requires
            2 <= N <= 5,
        ensures
            is_full_overlaps(r@),
    {
        Self::get_full_overlaps_const_bitmasks()
    }

    /// For each hyperedge, the hyperedges that share a node with it.
    pub fn part_overlaps() -> (r: Vec<Self>)
        requires
            2 <= N <= 5,
        ensures
            is_part_overlaps(r@),
    {
        Self::get_part_overlaps_const_bitmasks()
    }

    /// For each hyperedge, its nodes.
    pub fn node_map() -> (r: Vec<CompressedNodeSet>)
        requires
            2 <= N <= 5,
        ensures
            is_node_map(N as nat, r@),
    {
        Self::get_node_map_const_bitmasks()
    }
}

/// The four tables of order 4: adjacency, full overlaps, partial overlaps, node map.
pub fn generate_bitmask4() -> (r: (
    Vec<CompactMotif<4>>,
    Vec<CompactMotif<4>>,
    Vec<CompactMotif<4>>,
    Vec<CompressedNodeSet>,
))
    ensures
        is_adj(r.0@),
        is_full_overlaps(r.1@),
        is_part_overlaps(r.2@),
        is_node_map(4, r.3@),
{
    (
        CompactMotif::<4>::get_adj_const_bitmasks(),
        CompactMotif::<4>::get_full_overlaps_const_bitmasks(),
        CompactMotif::<4>::get_part_overlaps_const_bitmasks(),
        CompactMotif::<4>::get_node_map_const_bitmasks(),
    )
}

/// The four tables of order 5: adjacency, full overlaps, partial overlaps, node map.
pub fn generate_bitmask5() -> (r: (
    Vec<CompactMotif<5>>,
    Vec<CompactMotif<5>>,
    Vec<CompactMotif<5>>,
    Vec<CompressedNodeSet>,
))
    ensures
        is_adj(r.0@),
        is_full_overlaps(r.1@),
        is_part_overlaps(r.2@),
        is_node_map(5, r.3@),
{
    (
        CompactMotif::<5>::get_adj_const_bitmasks(),
        CompactMotif::<5>::get_full_overlaps_const_bitmasks(),
        CompactMotif::<5>::get_part_overlaps_const_bitmasks(),
        CompactMotif::<5>::get_node_map_const_bitmasks(),
    )
}

/// The hyperedges of sizes `2..m` number `binom(n, 2) + ... + binom(n, m - 1)`.
pub proof fn lemma_edges_upto_len(n: nat, m: nat)
    ensures
        edges_upto(n, m).len() == crate::util::binom_sum(n, 2, m - 1),
    decreases m,
{
    if m > 2 {
        lemma_edges_upto_len(n, (m - 1) as nat);
        lemma_combos_len(0, n as int, (m - 1) as nat);
    }
}

/// The number of hyperedges of order `n` is the count of sizes `2..=n` that
/// `max_hyperedge_count(n, 2, n)` computes.
pub proof fn lemma_edge_total_count(n: nat)
    ensures
        edge_total(n) == crate::util::binom_sum(n, 2, n as int),
{
    lemma_edges_upto_len(n, n + 1);
}

} // verus!
