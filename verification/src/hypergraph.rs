//! Hypergraphs as lists of node lists: sorting, connectivity of a selection of
//! edges, decoding and relabeling.

use vstd::prelude::*;

verus! {

use vstd::relations::{sorted_by, total_ordering};
use crate::lex::{
    hyperedge_lt,
    hyperedge_lt_order,
    hyperedge_le_order,
    hyperedge_less,
    lemma_hyperedge_orders,
    node_le_order,
    nodes_le_order,
    nodes_order,
    nodes_lt,
    edges_view,
    nodes_less,
    lemma_orders_total,
    lemma_orders_strict_total,
    strict_total,
};
use crate::util::lemma_swap_multiset;
use crate::bits::{set32, set8, lemma_clear_lowest, lemma_set8_or_shl, lemma_set32_finite};
use crate::node_set::{CompressedNodeSet, lemma_set8_range};
use crate::collections::{NodeMapping, node_mapping_contents, node_mapping_get};
use vstd::set_lib::set_int_range;
use vstd::multiset::Multiset;

/// Inserting into a sequence adds one copy to its multiset.
pub proof fn lemma_insert_multiset<A>(s: Seq<A>, i: int, x: A)
    requires
        0 <= i <= s.len(),
    ensures
        s.insert(i, x).to_multiset() =~= s.to_multiset().insert(x),
{
    broadcast use vstd::seq_lib::group_to_multiset_ensures;
    broadcast use vstd::multiset::group_multiset_axioms;
    let t = s.insert(i, x);
    assert(t.remove(i) =~= s);
    vstd::seq_lib::to_multiset_remove(t, i);
    assert(t[i] == x);
    assert(t.to_multiset().count(x) > 0);
    assert forall|y: A| #[trigger] t.to_multiset().count(y) == s.to_multiset().insert(x).count(y) by {
        assert(t.to_multiset().remove(x).count(y) == s.to_multiset().count(y));
    }
}

/// `s` is in increasing order.
pub open spec fn nodes_sorted(s: Seq<usize>) -> bool {
    sorted_by(s, node_le_order())
}

/// `s` is in lexicographic order.
pub open spec fn edges_sorted(s: Seq<Seq<usize>>) -> bool {
    sorted_by(s, nodes_le_order())
}

/// Sorts a node list in increasing order (by insertion).
pub fn sort_nodes(v: &mut Vec<usize>)
    ensures
        nodes_sorted(final(v)@),
        final(v)@.to_multiset() == old(v)@.to_multiset(),
{
    let ghost v0 = v@;
    let n = v.len();
    let mut i: usize = 1;
    if n < 2 {
        return;
    }
    while i < n
        invariant
            1 <= i <= n,
            n == v.len(),
            forall|a: int, b: int| 0 <= a < b < i ==> v@[a] <= v@[b],
            v@.to_multiset() == v0.to_multiset(),
        decreases n - i,
    {
        let mut j = i;
        while j > 0 && v[j - 1] > v[j]
            invariant
                0 <= j <= i < n,
                n == v.len(),
                forall|a: int, b: int| 0 <= a < b < j ==> v@[a] <= v@[b],
                forall|a: int, b: int| j <= a < b <= i ==> v@[a] <= v@[b],
                forall|a: int, b: int| 0 <= a < j && j < b <= i ==> v@[a] <= v@[b],
                v@.to_multiset() == v0.to_multiset(),
            decreases j,
        {
            let ghost s = v@;
            let t = v[j - 1];
            let u = v[j];
            v.set(j - 1, u);
            v.set(j, t);
            proof {
                lemma_swap_multiset(s, j - 1, j as int);
                assert(v@ =~= s.update(j - 1, s[j as int]).update(j as int, s[j - 1]));
            }
            j -= 1;
        }
        i += 1;
    }
}

/// Sorts a list of node lists in lexicographic order (by insertion).
pub fn sort_edges(v: Vec<Vec<usize>>) -> (r: Vec<Vec<usize>>)
    ensures
        edges_sorted(edges_view(r@)),
        edges_view(r@).to_multiset() == edges_view(v@).to_multiset(),
{
    proof {
        lemma_orders_total();
        lemma_orders_strict_total();
    }
    let ghost v0 = edges_view(v@);
    let mut v = v;
    let mut r: Vec<Vec<usize>> = Vec::new();
    proof {
        broadcast use vstd::multiset::group_multiset_axioms;
        broadcast use vstd::seq_lib::group_to_multiset_ensures;
        assert(edges_view(r@) =~= Seq::<Seq<usize>>::empty());
        assert(edges_view(r@).to_multiset() =~= Multiset::<Seq<usize>>::empty());
        assert(edges_view(r@).to_multiset().add(edges_view(v@).to_multiset()) =~= v0.to_multiset());
    }
    while v.len() > 0
        invariant
            total_ordering(nodes_le_order()),
            strict_total(nodes_order()),
            edges_sorted(edges_view(r@)),
            edges_view(r@).to_multiset().add(edges_view(v@).to_multiset()) == v0.to_multiset(),
        decreases v.len(),
    {
        let ghost vs = v@;
        let x = v.pop().unwrap();
        let mut pos: usize = 0;
        while pos < r.len() && nodes_less(&r[pos], &x)
            invariant
                pos <= r.len(),
                forall|j: int| 0 <= j < pos ==> nodes_lt(#[trigger] r@[j]@, x@),
            decreases r.len() - pos,
        {
            pos += 1;
        }
        let ghost rs = edges_view(r@);
        r.insert(pos, x);
        proof {
            broadcast use vstd::seq_lib::group_to_multiset_ensures;
            broadcast use vstd::multiset::group_multiset_axioms;
            let nr = edges_view(r@);
            let le = nodes_le_order();
            let lt = nodes_order();
            assert(nr =~= rs.insert(pos as int, x@));
            lemma_insert_multiset(rs, pos as int, x@);
            assert(vs =~= v@.push(x));
            assert(edges_view(vs) =~= edges_view(v@).push(x@));
            assert(nr.to_multiset().add(edges_view(v@).to_multiset()) =~= v0.to_multiset());
            if pos < rs.len() {
                assert(!nodes_lt(rs[pos as int], x@));
                assert(le(x@, rs[pos as int])) by {
                    if x@ != rs[pos as int] {
                        assert(lt(x@, rs[pos as int]) || lt(rs[pos as int], x@));
                    }
                }
            }
            assert forall|a: int, b: int| 0 <= a < b < nr.len() implies #[trigger] le(nr[a], nr[b]) by {
                if b < pos {
                    assert(le(rs[a], rs[b]));
                } else if b == pos {
                    assert(nodes_lt(r@[a]@, x@));
                } else if a < pos {
                    assert(le(rs[a], rs[b - 1]));
                    assert(nodes_lt(rs[a], x@));
                    assert(le(x@, rs[pos as int]));
                    if pos < b - 1 {
                        assert(le(rs[pos as int], rs[b - 1]));
                    }
                } else if a == pos {
                    assert(le(x@, rs[pos as int]));
                    if pos < b - 1 {
                        assert(le(rs[pos as int], rs[b - 1]));
                    }
                } else {
                    assert(le(rs[a - 1], rs[b - 1]));
                }
            }
        }
    }
    proof {
        broadcast use vstd::multiset::group_multiset_axioms;
        broadcast use vstd::seq_lib::group_to_multiset_ensures;
        assert(edges_view(v@) =~= Seq::<Seq<usize>>::empty());
        assert(edges_view(v@).to_multiset() =~= Multiset::<Seq<usize>>::empty());
        assert(edges_view(r@).to_multiset() =~= v0.to_multiset());
    }
    r
}


/// Sorts a list of hyperedges by `hyperedge_lt`: fewer nodes first, then
/// lexicographically (by insertion).
pub fn sort_hyperedges(v: Vec<Vec<usize>>) -> (r: Vec<Vec<usize>>)
    ensures
        sorted_by(edges_view(r@), hyperedge_le_order()),
        edges_view(r@).to_multiset() == edges_view(v@).to_multiset(),
{
    proof {
        lemma_hyperedge_orders();
    }
    let ghost v0 = edges_view(v@);
    let mut v = v;
    let mut r: Vec<Vec<usize>> = Vec::new();
    proof {
        broadcast use vstd::multiset::group_multiset_axioms;
        broadcast use vstd::seq_lib::group_to_multiset_ensures;
        assert(edges_view(r@) =~= Seq::<Seq<usize>>::empty());
        assert(edges_view(r@).to_multiset() =~= Multiset::<Seq<usize>>::empty());
        assert(edges_view(r@).to_multiset().add(edges_view(v@).to_multiset()) =~= v0.to_multiset());
    }
    while v.len() > 0
        invariant
            total_ordering(hyperedge_le_order()),
            strict_total(hyperedge_lt_order()),
            sorted_by(edges_view(r@), hyperedge_le_order()),
            edges_view(r@).to_multiset().add(edges_view(v@).to_multiset()) == v0.to_multiset(),
        decreases v.len(),
    {
        let ghost vs = v@;
        let x = v.pop().unwrap();
        let mut pos: usize = 0;
        while pos < r.len() && hyperedge_less(&r[pos], &x)
            invariant
                pos <= r.len(),
                forall|j: int| 0 <= j < pos ==> hyperedge_lt(#[trigger] r@[j]@, x@),
            decreases r.len() - pos,
        {
            pos += 1;
        }
        let ghost rs = edges_view(r@);
        r.insert(pos, x);
        proof {
            broadcast use vstd::seq_lib::group_to_multiset_ensures;
            broadcast use vstd::multiset::group_multiset_axioms;
            let nr = edges_view(r@);
            let le = hyperedge_le_order();
            let lt = hyperedge_lt_order();
            assert(nr =~= rs.insert(pos as int, x@));
            lemma_insert_multiset(rs, pos as int, x@);
            assert(vs =~= v@.push(x));
            assert(edges_view(vs) =~= edges_view(v@).push(x@));
            assert(nr.to_multiset().add(edges_view(v@).to_multiset()) =~= v0.to_multiset());
            if pos < rs.len() {
                assert(!hyperedge_lt(rs[pos as int], x@));
                assert(le(x@, rs[pos as int])) by {
                    if x@ != rs[pos as int] {
                        assert(lt(x@, rs[pos as int]) || lt(rs[pos as int], x@));
                    }
                }
            }
            assert forall|a: int, b: int| 0 <= a < b < nr.len() implies #[trigger] le(nr[a], nr[b]) by {
                if b < pos {
                    assert(le(rs[a], rs[b]));
                } else if b == pos {
                    assert(hyperedge_lt(r@[a]@, x@));
                } else if a < pos {
                    assert(le(rs[a], rs[b - 1]));
                    assert(hyperedge_lt(rs[a], x@));
                    assert(le(x@, rs[pos as int]));
                    if pos < b - 1 {
                        assert(le(rs[pos as int], rs[b - 1]));
                    }
                } else if a == pos {
                    assert(le(x@, rs[pos as int]));
                    if pos < b - 1 {
                        assert(le(rs[pos as int], rs[b - 1]));
                    }
                } else {
                    assert(le(rs[a - 1], rs[b - 1]));
                }
            }
        }
    }
    proof {
        broadcast use vstd::multiset::group_multiset_axioms;
        broadcast use vstd::seq_lib::group_to_multiset_ensures;
        assert(edges_view(v@) =~= Seq::<Seq<usize>>::empty());
        assert(edges_view(v@).to_multiset() =~= Multiset::<Seq<usize>>::empty());
        assert(edges_view(r@).to_multiset() =~= v0.to_multiset());
    }
    r
}


/// The nodes of the edges of `e` numbered in `s`.
pub open spec fn covered_nodes(e: Seq<Seq<usize>>, s: Set<int>) -> Set<int> {
    Set::new(
        |v: int|
            exists|i: int, p: int|
                #![trigger s.contains(i), e[i][p]]
                s.contains(i) && 0 <= i < e.len() && 0 <= p < e[i].len() && e[i][p] == v,
    )
}

/// An edge of `e` numbered in `s` with a node in `r` has all its nodes in `r`.
pub open spec fn closed_under(e: Seq<Seq<usize>>, s: Set<int>, r: Set<int>) -> bool {
    forall|i: int, p: int, q: int|
        #![trigger r.contains(e[i][p] as int), e[i][q]]
        s.contains(i) && 0 <= i < e.len() && 0 <= p < e[i].len() && 0 <= q < e[i].len() && r.contains(
            e[i][p] as int,
        ) ==> r.contains(e[i][q] as int)
}

/// Node `v` is reached from node 1 through the edges of `e` numbered in `s`:
/// it lies in every set that holds node 1 and is closed under those edges.
pub open spec fn reached_from_one(e: Seq<Seq<usize>>, s: Set<int>, v: int) -> bool {
    forall|r: Set<int>| #[trigger] closed_under(e, s, r) && r.contains(1) ==> r.contains(v)
}

/// The edges of `e` numbered by the bits of `mask` cover exactly `n` nodes,
/// and join nodes `1..=n` through node 1.
pub open spec fn mask_connected(mask: u32, e: Seq<Seq<usize>>, n: nat) -> bool {
    &&& covered_nodes(e, set32(mask)).len() == n
    &&& forall|v: int| 1 <= v <= n ==> reached_from_one(e, set32(mask), v)
}

/// Two distinct places `p`, `q` of one edge of `e` numbered in `s` hold `u` and `v`.
pub open spec fn adjacent(e: Seq<Seq<usize>>, s: Set<int>, u: int, v: int) -> bool {
    exists|i: int, p: int, q: int|
        #![trigger s.contains(i), e[i][p], e[i][q]]
        s.contains(i) && 0 <= i < e.len() && 0 <= p < e[i].len() && 0 <= q < e[i].len() && p != q
            && e[i][p] == u && e[i][q] == v
}

/// The nodes of the edges of `mask` are numbered `1..=5`.
pub open spec fn small_nodes(mask: u32, e: Seq<Seq<usize>>) -> bool {
    forall|i: int|
        #[trigger] set32(mask).contains(i) ==> 0 <= i < e.len() && forall|p: int|
            0 <= p < e[i].len() ==> 1 <= #[trigger] e[i][p] <= 5
}

/// Whether the edges numbered by the bits of `mask` span exactly `n` nodes
/// and connect nodes `1..=n`, with a search from node 1.
pub fn is_mask_connected(mask: u32, edges: &Vec<Vec<usize>>, n: usize) -> (r: bool)
    requires
        small_nodes(mask, edges_view(edges@)),
    ensures
        r == mask_connected(mask, edges_view(edges@), n as nat),
{
    let ghost e = edges_view(edges@);
    let ghost s = set32(mask);
    proof {
        lemma_set32_finite(mask);
    }
    // 1. the nodes the edges cover, node `v` as bit `v - 1`
    let mut node_seen: u8 = 0;
    let mut temp = mask;
    proof {
        lemma_set8_range(0);
        crate::bits::lemma_set32_empty(0u32);
        assert(set8(0) =~= Set::<int>::empty());
        assert(s.difference(set32(temp)) =~= Set::<int>::empty());
        assert(set8(node_seen) =~= covered_nodes(e, s.difference(set32(temp))).map(|v: int| v - 1));
    }
    while temp != 0
        invariant
            small_nodes(mask, e),
            e == edges_view(edges@),
            s == set32(mask),
            set32(temp).subset_of(s),
            set8(node_seen) == covered_nodes(e, s.difference(set32(temp))).map(|v: int| v - 1),
        decreases temp,
    {
        let ghost t0 = set32(temp);
        proof {
            lemma_clear_lowest(temp);
        }
        let idx = temp.trailing_zeros() as usize;
        temp = temp & (temp - 1);
        let ghost done = s.difference(t0);
        let ghost ii = idx as int;
        proof {
            assert(s.contains(ii));
        }
        let edge = &edges[idx];
        let mut j: usize = 0;
        while j < edge.len()
            invariant
                j <= edge.len(),
                edge@ == e[ii],
                0 <= ii < e.len(),
                forall|p: int| 0 <= p < e[ii].len() ==> 1 <= #[trigger] e[ii][p] <= 5,
                set8(node_seen) == covered_nodes(e, done).map(|v: int| v - 1).union(
                    Set::new(|b: int| exists|p: int| 0 <= p < j && #[trigger] e[ii][p] == b + 1),
                ),
            decreases edge.len() - j,
        {
            let node = edge[j];
            let ghost old_seen = node_seen;
            node_seen = node_seen | (1u8 << ((node - 1) as u8));
            proof {
                lemma_set8_or_shl(old_seen, (node - 1) as u8);
                assert(set8(node_seen) =~= covered_nodes(e, done).map(|v: int| v - 1).union(
                    Set::new(|b: int| exists|p: int| 0 <= p < j + 1 && #[trigger] e[ii][p] == b + 1),
                )) by {
                    assert forall|b: int| #[trigger] set8(node_seen).contains(b) == covered_nodes(e, done).map(|v: int| v - 1).union(
                        Set::new(|b: int| exists|p: int| 0 <= p < j + 1 && #[trigger] e[ii][p] == b + 1),
                    ).contains(b) by {
                        if b == node - 1 {
                            assert(e[ii][j as int] == b + 1);
                        }
                        if exists|p: int| 0 <= p < j + 1 && #[trigger] e[ii][p] == b + 1 {
                            let p = choose|p: int| 0 <= p < j + 1 && #[trigger] e[ii][p] == b + 1;
                            if p < j {
                            } else {
                                assert(b == node - 1);
                            }
                        }
                    }
                }
            }
            j += 1;
        }
        proof {
            let nd = s.difference(set32(temp));
            assert(nd =~= done.insert(ii));
            assert(set8(node_seen) =~= covered_nodes(e, nd).map(|v: int| v - 1)) by {
                assert forall|b: int| #[trigger] set8(node_seen).contains(b) == covered_nodes(e, nd).map(|v: int| v - 1).contains(b) by {
                    if set8(node_seen).contains(b) {
                        if covered_nodes(e, done).map(|v: int| v - 1).contains(b) {
                            let v = choose|v: int| covered_nodes(e, done).contains(v) && v - 1 == b;
                            let (i, p) = choose|i: int, p: int| #![trigger done.contains(i), e[i][p]] done.contains(i) && 0 <= i < e.len() && 0 <= p < e[i].len() && e[i][p] == v;
                            assert(nd.contains(i));
                            assert(covered_nodes(e, nd).contains(v));
                        } else {
                            let p = choose|p: int| 0 <= p < edge@.len() && #[trigger] e[ii][p] == b + 1;
                            assert(nd.contains(ii));
                            assert(covered_nodes(e, nd).contains(b + 1));
                            assert((b + 1) - 1 == b);
                        }
                    }
                    if covered_nodes(e, nd).map(|v: int| v - 1).contains(b) {
                        let v = choose|v: int| covered_nodes(e, nd).contains(v) && v - 1 == b;
                        let (i, p) = choose|i: int, p: int| #![trigger nd.contains(i), e[i][p]] nd.contains(i) && 0 <= i < e.len() && 0 <= p < e[i].len() && e[i][p] == v;
                        if i == ii {
                            assert(e[ii][p] == b + 1);
                        } else {
                            assert(done.contains(i));
                            assert(covered_nodes(e, done).contains(v));
                        }
                    }
                }
            }
        }
    }
    proof {
        lemma_set32_finite(0);
        crate::bits::lemma_set32_empty(temp);
        assert(s.difference(set32(temp)) =~= s);
    }
    let count = CompressedNodeSet::new(node_seen).len() as usize;
    proof {
        lemma_covered_count(e, s, node_seen);
    }
    if count != n {
        return false;
    }
    proof {
        assert forall|v: int| #[trigger] covered_nodes(e, s).contains(v) implies 1 <= v <= 5 by {
            let (i, p) = choose|i: int, p: int| #![trigger s.contains(i), e[i][p]] s.contains(i) && 0 <= i < e.len() && 0 <= p < e[i].len() && e[i][p] == v;
        }
        vstd::set_lib::lemma_int_range(1, 6);
        assert(covered_nodes(e, s).subset_of(set_int_range(1, 6)));
        vstd::set_lib::lemma_len_subset(covered_nodes(e, s), set_int_range(1, 6));
    }
    // 2. which nodes share an edge
    let mut adj = [0u8; 6];
    let mut temp = mask;
    proof {
        crate::bits::lemma_set32_empty(0u32);
        assert(set8(0) =~= Set::<int>::empty());
        assert(s.difference(set32(temp)) =~= Set::<int>::empty());
    }
    while temp != 0
        invariant
            small_nodes(mask, e),
            e == edges_view(edges@),
            s == set32(mask),
            set32(temp).subset_of(s),
            forall|u: int, v: int| 0 <= u < 6 && #[trigger] set8(adj@[u]).contains(v) ==> adjacent(e, s, u, v),
            forall|i: int, p: int, q: int|
                #![trigger s.difference(set32(temp)).contains(i), e[i][p], e[i][q]]
                s.difference(set32(temp)).contains(i) && 0 <= p < e[i].len() && 0 <= q < e[i].len() && p != q
                    ==> set8(adj@[e[i][p] as int]).contains(e[i][q] as int),
        decreases temp,
    {
        let ghost t0 = set32(temp);
        proof {
            lemma_clear_lowest(temp);
        }
        let idx = temp.trailing_zeros() as usize;
        temp = temp & (temp - 1);
        let ghost ii = idx as int;
        proof {
            assert(s.contains(ii));
        }
        let edge = &edges[idx];
        let len = edge.len();
        let mut i: usize = 0;
        while i < len
            invariant
                small_nodes(mask, e),
                s == set32(mask),
                len == edge@.len(),
                i <= len,
                edge@ == e[ii],
                0 <= ii < e.len(),
                s.contains(ii),
                forall|p: int| 0 <= p < e[ii].len() ==> 1 <= #[trigger] e[ii][p] <= 5,
                forall|u: int, v: int| 0 <= u < 6 && #[trigger] set8(adj@[u]).contains(v) ==> adjacent(e, s, u, v),
                forall|i: int, p: int, q: int|
                    #![trigger s.difference(t0).contains(i), e[i][p], e[i][q]]
                    s.difference(t0).contains(i) && 0 <= p < e[i].len() && 0 <= q < e[i].len() && p != q
                        ==> set8(adj@[e[i][p] as int]).contains(e[i][q] as int),
                forall|p: int, q: int|
                    #![trigger e[ii][p], e[ii][q]]
                    0 <= p < len && 0 <= q < len && p != q && (p < i || q < i)
                        ==> set8(adj@[e[ii][p] as int]).contains(e[ii][q] as int),
            decreases len - i,
        {
            let mut j: usize = i + 1;
            while j < len
                invariant
                    small_nodes(mask, e),
                    s == set32(mask),
                    len == edge@.len(),
                    i < len,
                    i + 1 <= j <= len,
                    edge@ == e[ii],
                    0 <= ii < e.len(),
                    s.contains(ii),
                    forall|p: int| 0 <= p < e[ii].len() ==> 1 <= #[trigger] e[ii][p] <= 5,
                    forall|u: int, v: int| 0 <= u < 6 && #[trigger] set8(adj@[u]).contains(v) ==> adjacent(e, s, u, v),
                    forall|i: int, p: int, q: int|
                        #![trigger s.difference(t0).contains(i), e[i][p], e[i][q]]
                        s.difference(t0).contains(i) && 0 <= p < e[i].len() && 0 <= q < e[i].len() && p != q
                            ==> set8(adj@[e[i][p] as int]).contains(e[i][q] as int),
                    forall|p: int, q: int|
                        #![trigger e[ii][p], e[ii][q]]
                        0 <= p < len && 0 <= q < len && p != q && (p < i || q < i || (p == i && q < j) || (q == i && p < j))
                            ==> set8(adj@[e[ii][p] as int]).contains(e[ii][q] as int),
                decreases len - j,
            {
                let a = edge[i];
                let b = edge[j];
                let ghost adj0 = adj@;
                let na = adj[a] | (1u8 << (b as u8));
                adj[a] = na;
                let ghost adj1 = adj@;
                let nb = adj[b] | (1u8 << (a as u8));
                adj[b] = nb;
                proof {
                    lemma_set8_or_shl(adj0[a as int], b as u8);
                    lemma_set8_or_shl(adj1[b as int], a as u8);
                    assert(adjacent(e, s, a as int, b as int)) by {
                        assert(e[ii][i as int] == a && e[ii][j as int] == b);
                    }
                    assert(adjacent(e, s, b as int, a as int)) by {
                        assert(e[ii][j as int] == b && e[ii][i as int] == a);
                    }
                    assert forall|x: int| 0 <= x < 6 implies #[trigger] set8(adj0[x]).subset_of(set8(adj@[x])) by {
                        if x == b {
                        } else if x == a {
                        }
                    }
                    assert forall|u: int, v: int| 0 <= u < 6 && #[trigger] set8(adj@[u]).contains(v) implies adjacent(e, s, u, v) by {
                        if u == a && v == b {
                        } else if u == b && v == a {
                        } else {
                            assert(set8(adj0[u]).contains(v));
                        }
                    }
                    assert forall|i2: int, p: int, q: int|
                        #![trigger s.difference(t0).contains(i2), e[i2][p], e[i2][q]]
                        s.difference(t0).contains(i2) && 0 <= p < e[i2].len() && 0 <= q < e[i2].len() && p != q
                        implies set8(adj@[e[i2][p] as int]).contains(e[i2][q] as int) by {
                        assert(small_nodes(mask, e));
                        assert(set32(mask).contains(i2));
                        assert(1 <= e[i2][p] <= 5);
                        assert(set8(adj0[e[i2][p] as int]).contains(e[i2][q] as int));
                        assert(set8(adj0[e[i2][p] as int]).subset_of(set8(adj@[e[i2][p] as int])));
                    }
                    assert forall|p: int, q: int|
                        #![trigger e[ii][p], e[ii][q]]
                        0 <= p < len && 0 <= q < len && p != q && (p < i || q < i || (p == i && q < j + 1) || (q == i && p < j + 1))
                        implies set8(adj@[e[ii][p] as int]).contains(e[ii][q] as int) by {
                        if (p == i && q == j) || (q == i && p == j) {
                        } else {
                            assert(set8(adj0[e[ii][p] as int]).contains(e[ii][q] as int));
                            assert(set8(adj0[e[ii][p] as int]).subset_of(set8(adj@[e[ii][p] as int])));
                        }
                    }
                }
                j += 1;
            }
            i += 1;
        }
        proof {
            let nd = s.difference(set32(temp));
            assert(nd =~= s.difference(t0).insert(ii));
            assert forall|i2: int, p: int, q: int|
                #![trigger nd.contains(i2), e[i2][p], e[i2][q]]
                nd.contains(i2) && 0 <= p < e[i2].len() && 0 <= q < e[i2].len() && p != q
                implies set8(adj@[e[i2][p] as int]).contains(e[i2][q] as int) by {
                if i2 != ii {
                    assert(s.difference(t0).contains(i2));
                }
            }
        }
    }
    proof {
        crate::bits::lemma_set32_empty(temp);
        assert(s.difference(set32(temp)) =~= s);
    }
    // 3. search from node 1
    let mut visited: u8 = 1u8 << 1u8;
    let mut queue: Vec<usize> = Vec::new();
    queue.push(1);
    let mut head: usize = 0;
    proof {
        lemma_set8_or_shl(0u8, 1u8);
        assert(set8(visited) =~= set![1int]) by {
            crate::bits::lemma_set32_empty(0u32);
            assert((0u8 | (1u8 << 1u8)) == (1u8 << 1u8)) by (bit_vector);
        }
        assert forall|v: int| #[trigger] set8(visited).contains(v) implies reached_from_one(e, s, v) by {}
        assert(queue@ =~= seq![1usize]);
        assert(queue@[0] == 1usize);
        assert(queue@.contains(1usize));
        assert forall|v: int| #[trigger] set8(visited).contains(v) <==> (0 <= v < 8 && queue@.contains(v as usize)) by {
            if 0 <= v < 8 && queue@.contains(v as usize) {
                let k = choose|k: int| 0 <= k < queue@.len() && queue@[k] == v as usize;
                assert(k == 0);
                assert(v == 1);
            }
            if set8(visited).contains(v) {
                assert(v == 1);
            }
        }
    }
    while head < queue.len()
        invariant
            small_nodes(mask, e),
            e == edges_view(edges@),
            s == set32(mask),
            forall|u: int, v: int| 0 <= u < 6 && #[trigger] set8(adj@[u]).contains(v) ==> adjacent(e, s, u, v),
            forall|i: int, p: int, q: int|
                #![trigger s.contains(i), e[i][p], e[i][q]]
                s.contains(i) && 0 <= p < e[i].len() && 0 <= q < e[i].len() && p != q
                    ==> set8(adj@[e[i][p] as int]).contains(e[i][q] as int),
            head <= queue@.len(),
            queue@.len() > 0,
            queue@[0] == 1,
            queue@.no_duplicates(),
            forall|k: int| 0 <= k < queue@.len() ==> 1 <= #[trigger] queue@[k] <= 5,
            forall|v: int| #[trigger] set8(visited).contains(v) <==> (0 <= v < 8 && queue@.contains(v as usize)),
            forall|v: int| #[trigger] set8(visited).contains(v) ==> reached_from_one(e, s, v),
            forall|k: int, w: int| 0 <= k < head && #[trigger] set8(adj@[queue@[k] as int]).contains(w) ==> set8(visited).contains(w),
        decreases 8 - head,
    {
        proof {
            lemma_queue_bound(queue@, visited);
        }
        let u = queue[head];
        let ghost uu = u as int;
        let mut it = CompressedNodeSet::new(adj[u]).iter();
        let ghost all = set8(adj@[uu]);
        proof {
            assert(set8(visited).contains(uu));
        }
        loop
            invariant
                small_nodes(mask, e),
                e == edges_view(edges@),
                s == set32(mask),
                forall|u: int, v: int| 0 <= u < 6 && #[trigger] set8(adj@[u]).contains(v) ==> adjacent(e, s, u, v),
                forall|i: int, p: int, q: int|
                    #![trigger s.contains(i), e[i][p], e[i][q]]
                    s.contains(i) && 0 <= p < e[i].len() && 0 <= q < e[i].len() && p != q
                        ==> set8(adj@[e[i][p] as int]).contains(e[i][q] as int),
                head < queue@.len(),
                queue@[0] == 1,
                queue@[head as int] == u,
                uu == u as int,
                1 <= u <= 5,
                all == set8(adj@[uu]),
                it.remaining().subset_of(all),
                queue@.no_duplicates(),
                forall|k: int| 0 <= k < queue@.len() ==> 1 <= #[trigger] queue@[k] <= 5,
                forall|v: int| #[trigger] set8(visited).contains(v) <==> (0 <= v < 8 && queue@.contains(v as usize)),
                forall|v: int| #[trigger] set8(visited).contains(v) ==> reached_from_one(e, s, v),
                forall|k: int, w: int| 0 <= k < head && #[trigger] set8(adj@[queue@[k] as int]).contains(w) ==> set8(visited).contains(w),
                forall|w: int| #[trigger] all.contains(w) && !it.remaining().contains(w) ==> set8(visited).contains(w),
            ensures
                forall|k: int, w: int| 0 <= k <= head && #[trigger] set8(adj@[queue@[k] as int]).contains(w) ==> set8(visited).contains(w),
                head < queue@.len(),
                queue@[0] == 1,
                queue@.no_duplicates(),
                forall|k: int| 0 <= k < queue@.len() ==> 1 <= #[trigger] queue@[k] <= 5,
                forall|v: int| #[trigger] set8(visited).contains(v) <==> (0 <= v < 8 && queue@.contains(v as usize)),
                forall|v: int| #[trigger] set8(visited).contains(v) ==> reached_from_one(e, s, v),
            decreases it.remaining().len(),
        {
            let ghost before = it.remaining();
            proof {
                lemma_set8_range(adj@[uu]);
                vstd::set_lib::lemma_len_subset(before, all);
            }
            match it.next() {
                None => {
                    proof {
                        assert forall|k: int, w: int| 0 <= k <= head && #[trigger] set8(adj@[queue@[k] as int]).contains(w) implies set8(visited).contains(w) by {
                            if k == head {
                                assert(queue@[k] as int == uu);
                                assert(set8(adj@[uu]).contains(w));
                                assert(all.contains(w));
                            }
                        }
                    }
                    break;
                },
                Some(v) => {
                    proof {
                        assert(all.contains(v as int));
                        assert(set8(adj@[uu]).contains(v as int));
                        assert(adjacent(e, s, uu, v as int));
                        let (i, p, q) = choose|i: int, p: int, q: int|
                            #![trigger s.contains(i), e[i][p], e[i][q]]
                            s.contains(i) && 0 <= i < e.len() && 0 <= p < e[i].len() && 0 <= q < e[i].len() && p != q
                                && e[i][p] == uu && e[i][q] == v as int;
                        assert(1 <= e[i][q] <= 5);
                        assert forall|r: Set<int>| #[trigger] closed_under(e, s, r) && r.contains(1) implies r.contains(v as int) by {
                            assert(queue@[head as int] == u);
                            assert(queue@.contains(uu as usize));
                            assert(set8(visited).contains(uu));
                            assert(reached_from_one(e, s, uu));
                            assert(r.contains(uu));
                            assert(r.contains(e[i][p] as int));
                        }
                        lemma_set8_range(visited);
                        vstd::set_lib::lemma_len_subset(it.remaining(), before);
                    }
                    if !CompressedNodeSet::new(visited).contains(v) {
                        let ghost old_v = visited;
                        let ghost q0 = queue@;
                        visited = visited | (1u8 << (v as u8));
                        queue.push(v);
                        proof {
                            lemma_set8_or_shl(old_v, v as u8);
                            assert(!q0.contains(v));
                            assert(queue@ == q0.push(v));
                            assert forall|x: int| #[trigger] set8(visited).contains(x) <==> (0 <= x < 8 && queue@.contains(x as usize)) by {
                                lemma_set8_range(visited);
                                lemma_set8_range(old_v);
                                if x == v as int {
                                    assert(queue@[q0.len() as int] == v);
                                } else {
                                    if 0 <= x < 8 && queue@.contains(x as usize) {
                                        let k = choose|k: int| 0 <= k < queue@.len() && queue@[k] == x as usize;
                                        assert(k < q0.len());
                                        assert(q0[k] == x as usize);
                                        assert(q0.contains(x as usize));
                                        assert(set8(old_v).contains(x));
                                    }
                                    if set8(visited).contains(x) {
                                        assert(set8(old_v).contains(x));
                                        let k = choose|k: int| 0 <= k < q0.len() && q0[k] == x as usize;
                                        assert(queue@[k] == x as usize);
                                    }
                                }
                            }
                            assert(queue@.no_duplicates()) by {
                                assert forall|a: int, b: int| 0 <= a < queue@.len() && 0 <= b < queue@.len() && a != b implies queue@[a] != queue@[b] by {
                                    if a == q0.len() as int {
                                        assert(queue@[a] == v);
                                        assert(queue@[b] == q0[b]);
                                    } else if b == q0.len() as int {
                                        assert(q0[a] == queue@[a]);
                                        assert(queue@[b] == v);
                                    } else {
                                        assert(q0[a] == queue@[a]);
                                        assert(q0[b] == queue@[b]);
                                    }
                                }
                            }
                            assert forall|k: int, w: int| 0 <= k < head && #[trigger] set8(adj@[queue@[k] as int]).contains(w) implies set8(visited).contains(w) by {
                                assert(queue@[k] == q0[k]);
                                assert(set8(old_v).contains(w));
                            }
                        }
                    }
                },
            }
        }
        head += 1;
    }
    // every node reached lies among the visited ones
    proof {
        let r = set8(visited);
        assert forall|i: int, p: int, q: int|
            #![trigger r.contains(e[i][p] as int), e[i][q]]
            s.contains(i) && 0 <= i < e.len() && 0 <= p < e[i].len() && 0 <= q < e[i].len() && r.contains(e[i][p] as int)
            implies r.contains(e[i][q] as int) by {
            if p != q {
                assert(set8(adj@[e[i][p] as int]).contains(e[i][q] as int));
                let x = e[i][p] as int;
                assert(queue@.contains(x as usize));
                let k = choose|k: int| 0 <= k < queue@.len() && queue@[k] == x as usize;
                assert(set8(adj@[queue@[k] as int]).contains(e[i][q] as int));
            }
        }
        assert(closed_under(e, s, r));
        assert(queue@.contains(1usize));
        assert(r.contains(1));
    }
    proof {
        assert(n <= 5);
        let m = (n + 1) as u8;
        assert(m <= 6 ==> (1u8 << m) >= 1u8) by (bit_vector);
    }
    let target: u8 = ((1u8 << ((n + 1) as u8)) - 1) & !1u8;
    let res = (visited & target) == target;
    proof {
        lemma_target_bits(visited, target, n);
        if res {
            assert forall|v: int| 1 <= v <= n implies reached_from_one(e, s, v) by {
                assert(set8(visited).contains(v));
            }
        } else {
            let v = choose|v: int| 1 <= v <= n && !set8(visited).contains(v);
            assert(closed_under(e, s, set8(visited)));
            assert(!reached_from_one(e, s, v));
        }
    }
    res
}

/// A queue without repeats whose members are visited holds at most 8 of them.
proof fn lemma_queue_bound(q: Seq<usize>, visited: u8)
    requires
        q.no_duplicates(),
        forall|k: int| 0 <= k < q.len() ==> #[trigger] q[k] < 8,
        forall|v: int| #[trigger] set8(visited).contains(v) <==> (0 <= v < 8 && q.contains(v as usize)),
    ensures
        q.len() <= 8,
{
    lemma_set8_range(visited);
    let qi = q.map_values(|x: usize| x as int);
    assert(qi.no_duplicates()) by {
        assert forall|a: int, b: int| 0 <= a < qi.len() && 0 <= b < qi.len() && a != b implies qi[a] != qi[b] by {
            assert(q[a] != q[b]);
        }
    }
    assert forall|k: int| 0 <= k < qi.len() implies set8(visited).contains(#[trigger] qi[k]) by {
        assert(q.contains(q[k]));
        assert(qi[k] as usize == q[k]);
    }
    crate::cross_edges::lemma_unique_seq_in_set(qi, set8(visited));
}

/// The bits of the target `{1..=n}` all lie in `visited` exactly when
/// `visited & target == target`.
proof fn lemma_target_bits(visited: u8, target: u8, n: usize)
    requires
        n <= 5,
        target == (((1u8 << ((n + 1) as u8)) - 1) as u8) & !1u8,
    ensures
        ((visited & target) == target) <==> (forall|v: int| 1 <= v <= n ==> #[trigger] set8(visited).contains(v)),
{
    let m = (n + 1) as u8;
    assert forall|v: int| 0 <= v < 8 implies (#[trigger] set8(target).contains(v) <==> 1 <= v <= n) by {
        let k = v as u32;
        assert(m <= 6 ==> k < 8 ==> (((((((1u8 << m) - 1) as u8) & !1u8) as u32) >> k) & 1u32 == 1u32 <==> (1 <= k && k < m as u32))) by (bit_vector);
    }
    assert forall|v: int| !(0 <= v < 8) implies !#[trigger] set8(target).contains(v) by {
        lemma_set8_range(target);
    }
    crate::bits::lemma_bit32_and(visited as u32, target as u32);
    assert(((visited & target) as u32) == ((visited as u32) & (target as u32))) by (bit_vector);
    if forall|v: int| 1 <= v <= n ==> #[trigger] set8(visited).contains(v) {
        assert forall|v: int| #[trigger] set8(visited & target).contains(v) == set8(target).contains(v) by {
            if set8(target).contains(v) {
                assert(0 <= v < 8) by {
                    lemma_set8_range(target);
                }
                assert(set8(visited).contains(v));
            }
        }
        assert(set8(visited & target) =~= set8(target));
        crate::bits::lemma_set32_ext((visited & target) as u32, target as u32);
    }
    if (visited & target) == target {
        assert forall|v: int| 1 <= v <= n implies #[trigger] set8(visited).contains(v) by {
            assert(set8(target).contains(v));
        }
    }
}

/// The covered nodes number as many as the bits of their shifted set.
proof fn lemma_covered_count(e: Seq<Seq<usize>>, s: Set<int>, node_seen: u8)
    requires
        set8(node_seen) == covered_nodes(e, s).map(|v: int| v - 1),
    ensures
        covered_nodes(e, s).finite(),
        covered_nodes(e, s).len() == set8(node_seen).len(),
{
    lemma_set8_range(node_seen);
    let c = covered_nodes(e, s);
    let back = set8(node_seen).map(|b: int| b + 1);
    assert(back =~= c) by {
        assert forall|v: int| #[trigger] back.contains(v) == c.contains(v) by {
            if c.contains(v) {
                assert(set8(node_seen).contains(v - 1));
                assert(v == (v - 1) + 1);
            }
        }
    }
    let f = |b: int| b + 1;
    assert(vstd::relations::injective_on(f, set8(node_seen)));
    vstd::set_lib::lemma_map_size(set8(node_seen), c, f);
}


/// Each node list of `g`, put in increasing order.
pub open spec fn sorted_edge_lists(g: Seq<Seq<usize>>) -> Seq<Seq<usize>> {
    g.map_values(|e: Seq<usize>| e.sort_by(node_le_order()))
}

/// The edges of `e` numbered below `lo` and in `s`, by number.
pub open spec fn selected_edges(e: Seq<Seq<usize>>, s: Set<int>, lo: int) -> Seq<Seq<usize>>
    decreases lo,
{
    if lo <= 0 {
        Seq::empty()
    } else {
        selected_edges(e, s, lo - 1) + if s.contains(lo - 1) {
            seq![e[lo - 1]]
        } else {
            Seq::empty()
        }
    }
}

/// The hypergraph of the edges of `e` numbered by the bits of `mask`, the
/// edges in lexicographic order.
pub open spec fn decoded(mask: u32, e: Seq<Seq<usize>>) -> Seq<Seq<usize>> {
    selected_edges(e, set32(mask), e.len() as int).sort_by(nodes_le_order())
}

/// Each node of `g` renamed by `m`, each edge then sorted, the edges then sorted.
pub open spec fn relabeled(g: Seq<Seq<usize>>, m: Map<usize, usize>) -> Seq<Seq<usize>> {
    sorted_edge_lists(g.map_values(|e: Seq<usize>| e.map_values(|v: usize| m[v]))).sort_by(nodes_le_order())
}

/// No member of `s` in `a..b` leaves the selection unchanged.
pub proof fn lemma_selected_gap(e: Seq<Seq<usize>>, s: Set<int>, a: int, b: int)
    requires
        0 <= a <= b,
        forall|x: int| a <= x < b ==> !s.contains(x),
    ensures
        selected_edges(e, s, a) == selected_edges(e, s, b),
    decreases b - a,
{
    if a < b {
        lemma_selected_gap(e, s, a, b - 1);
        assert(selected_edges(e, s, b) =~= selected_edges(e, s, b - 1));
    }
}

/// A copy of a node list.
pub fn copy_nodes(v: &Vec<usize>) -> (r: Vec<usize>)
    ensures
        r@ == v@,
{
    let mut r: Vec<usize> = Vec::new();
    let mut i: usize = 0;
    while i < v.len()
        invariant
            i <= v.len(),
            r@ == v@.subrange(0, i as int),
        decreases v.len() - i,
    {
        r.push(v[i]);
        proof {
            assert(r@ =~= v@.subrange(0, i + 1));
        }
        i += 1;
    }
    proof {
        assert(v@.subrange(0, v.len() as int) =~= v@);
    }
    r
}

/// The edges of `edges` numbered by the bits of `mask`, in lexicographic order.
pub fn decode_mask(mask: u32, edges: &Vec<Vec<usize>>) -> (r: Vec<Vec<usize>>)
    requires
        forall|i: int| #[trigger] set32(mask).contains(i) ==> 0 <= i < edges.len(),
    ensures
        edges_view(r@) == decoded(mask, edges_view(edges@)),
{
    let ghost e = edges_view(edges@);
    let ghost s = set32(mask);
    let mut hg: Vec<Vec<usize>> = Vec::new();
    let mut m = mask;
    let ghost mut lo: int = 0;
    proof {
        assert(set32(m) =~= s.intersect(set_int_range(lo, 32)));
        assert(edges_view(hg@) =~= selected_edges(e, s, 0));
    }
    while m != 0
        invariant
            e == edges_view(edges@),
            s == set32(mask),
            forall|i: int| #[trigger] s.contains(i) ==> 0 <= i < e.len(),
            0 <= lo <= e.len(),
            set32(m) == s.intersect(set_int_range(lo, 32)),
            edges_view(hg@) == selected_edges(e, s, lo),
        decreases m,
    {
        let ghost m0 = m;
        proof {
            lemma_clear_lowest(m);
        }
        let idx = m.trailing_zeros() as usize;
        m = m & (m - 1);
        let ghost ii = idx as int;
        proof {
            assert(set32(m0).contains(ii));
            assert(s.contains(ii));
            assert forall|x: int| lo <= x < ii implies !s.contains(x) by {
                if s.contains(x) {
                    assert(set32(m0).contains(x));
                }
            }
            lemma_selected_gap(e, s, lo, ii);
        }
        let c = copy_nodes(&edges[idx]);
        let ghost h0 = edges_view(hg@);
        hg.push(c);
        proof {
            assert(edges_view(hg@) =~= h0.push(e[ii]));
            assert(selected_edges(e, s, ii + 1) =~= selected_edges(e, s, ii).push(e[ii]));
            lo = ii + 1;
            assert(set32(m) =~= s.intersect(set_int_range(lo, 32)));
        }
    }
    proof {
        crate::bits::lemma_set32_empty(m);
        assert forall|x: int| lo <= x < e.len() implies !s.contains(x) by {
            if s.contains(x) {
                assert(s.intersect(set_int_range(lo, 32)).contains(x));
            }
        }
        lemma_selected_gap(e, s, lo, e.len() as int);
    }
    let r = sort_edges(hg);
    proof {
        let sel = selected_edges(e, s, e.len() as int);
        lemma_orders_total();
        sel.lemma_sort_by_ensures(nodes_le_order());
        vstd::seq_lib::lemma_sorted_unique(edges_view(r@), sel.sort_by(nodes_le_order()), nodes_le_order());
    }
    r
}

/// The hypergraph `hg` with each node renamed by `mapping`, each edge sorted
/// and the edges sorted.
pub(crate) fn relabel_unweighted(hg: &Vec<Vec<usize>>, mapping: &NodeMapping) -> (r: Vec<Vec<usize>>)
    requires
        forall|i: int, p: int|
            0 <= i < hg.len() && 0 <= p < hg@[i].len() ==> node_mapping_contents(*mapping).contains_key(
                #[trigger] hg@[i]@[p],
            ),
    ensures
        edges_view(r@) == relabeled(edges_view(hg@), node_mapping_contents(*mapping)),
{
    let ghost g = edges_view(hg@);
    let ghost m = node_mapping_contents(*mapping);
    let ghost mapped = g.map_values(|e: Seq<usize>| e.map_values(|v: usize| m[v]));
    let mut res: Vec<Vec<usize>> = Vec::new();
    let mut i: usize = 0;
    while i < hg.len()
        invariant
            i <= hg.len(),
            g == edges_view(hg@),
            m == node_mapping_contents(*mapping),
            mapped == g.map_values(|e: Seq<usize>| e.map_values(|v: usize| m[v])),
            forall|i: int, p: int|
                0 <= i < hg.len() && 0 <= p < hg@[i].len() ==> m.contains_key(#[trigger] hg@[i]@[p]),
            edges_view(res@) == sorted_edge_lists(mapped.subrange(0, i as int)),
        decreases hg.len() - i,
    {
        let edge = &hg[i];
        let mut nn: Vec<usize> = Vec::new();
        let mut j: usize = 0;
        while j < edge.len()
            invariant
                j <= edge.len(),
                edge@ == g[i as int],
                edge@ == hg@[i as int]@,
                i < hg.len(),
                m == node_mapping_contents(*mapping),
                forall|i: int, p: int|
                    0 <= i < hg.len() && 0 <= p < hg@[i].len() ==> m.contains_key(#[trigger] hg@[i]@[p]),
                nn@ == edge@.subrange(0, j as int).map_values(|v: usize| m[v]),
            decreases edge.len() - j,
        {
            proof {
                assert(hg@[i as int]@[j as int] == edge@[j as int]);
            }
            let x = node_mapping_get(mapping, edge[j]);
            nn.push(x);
            proof {
                assert(nn@ =~= edge@.subrange(0, j + 1).map_values(|v: usize| m[v]));
            }
            j += 1;
        }
        let ghost n0 = nn@;
        sort_nodes(&mut nn);
        let ghost r0 = edges_view(res@);
        proof {
            assert(edge@.subrange(0, edge@.len() as int) =~= edge@);
            assert(n0 == mapped[i as int]);
            lemma_orders_total();
            n0.lemma_sort_by_ensures(node_le_order());
            vstd::seq_lib::lemma_sorted_unique(nn@, n0.sort_by(node_le_order()), node_le_order());
        }
        res.push(nn);
        proof {
            assert(edges_view(res@) =~= r0.push(mapped[i as int].sort_by(node_le_order())));
            assert(sorted_edge_lists(mapped.subrange(0, i + 1)) =~= sorted_edge_lists(mapped.subrange(0, i as int)).push(mapped[i as int].sort_by(node_le_order())));
        }
        i += 1;
    }
    let r = sort_edges(res);
    proof {
        assert(mapped.subrange(0, hg.len() as int) =~= mapped);
        let sl = sorted_edge_lists(mapped);
        lemma_orders_total();
        sl.lemma_sort_by_ensures(nodes_le_order());
        vstd::seq_lib::lemma_sorted_unique(edges_view(r@), sl.sort_by(nodes_le_order()), nodes_le_order());
    }
    r
}

} // verus!
