//! Fingerprints do not change when the nodes of a motif are renamed.

use vstd::prelude::*;

verus! {

use vstd::relations::{sorted_by, total_ordering};
use vstd::std_specs::cmp::PartialEqSpec;
use crate::util::is_perm;
use crate::tables::{edge_nodes, edge_total, lemma_edge_totals, lemma_edge_nodes_range};
use crate::motif_ops::edge_range;
use crate::fingerprint::{
    edge_size,
    lemma_edge_size,
    node_weight,
    size_weight,
    weights_u32,
    containing_count,
    inclusion,
    is_sorted_of,
    is_hist_sorted_of,
    Fingerprint4,
    is_fingerprint4_of,
};
use crate::sorting_network::sorted_between;
use vstd::arithmetic::power2::pow2;
use vstd::set_lib::set_int_range;
use crate::subsets::{subsets_of_size, lemma_subsets_of_size_len};
use crate::cross_edges::{
    is_cross,
    inner_offset,
    group_value,
    groups_with_value,
    block_counts,
    preimage,
    lemma_group_value_bound,
    lemma_unique_seq_count,
};
use crate::fingerprint5::{
    is_block_of,
    sorted_block,
    cross_infos,
    conn_entry,
    conn_entries,
    lemma_sorted_block_unique,
    Fingerprint5,
    is_fingerprint5_of,
};
use crate::relabel::{
    image,
    edge_image,
    edge_map,
    relabel_motif,
    is_bijection,
    sum_below,
    lemma_image,
    lemma_image_pair,
    lemma_edge_image,
    lemma_edge_image_injective,
    lemma_edge_map_bijection,
    lemma_sum_ext,
    lemma_sum_perm,
};

/// How often `x` occurs among the entries of `s`, as a sum of ones.
pub open spec fn count_terms<A>(s: Seq<A>, x: A) -> spec_fn(int) -> nat {
    |i: int| if s[i] == x { 1nat } else { 0nat }
}

/// The count of a value in a sequence is the number of places that hold it.
pub proof fn lemma_count_as_sum<A>(s: Seq<A>, x: A)
    ensures
        s.to_multiset().count(x) == sum_below(count_terms(s, x), s.len() as int),
    decreases s.len(),
{
    broadcast use vstd::seq_lib::group_to_multiset_ensures;
    broadcast use vstd::multiset::group_multiset_axioms;
    if s.len() == 0 {
        assert(s.to_multiset().count(x) == 0) by {
            if s.to_multiset().count(x) > 0 {
                assert(s.contains(x));
            }
        }
    } else {
        let t = s.drop_last();
        lemma_count_as_sum(t, x);
        assert(s =~= t.push(s.last()));
        assert forall|i: int| 0 <= i < t.len() implies #[trigger] count_terms(t, x)(i) == count_terms(s, x)(i) by {
            assert(t[i] == s[i]);
        }
        lemma_sum_ext(count_terms(t, x), count_terms(s, x), t.len() as int);
    }
}

/// Sequences whose entries are moved around by a one-to-one map of the
/// places hold the same values as often.
pub proof fn lemma_moved_multiset<A>(s1: Seq<A>, s2: Seq<A>, sigma: spec_fn(int) -> int)
    requires
        s1.len() == s2.len(),
        is_bijection(sigma, s1.len() as int),
        forall|i: int| 0 <= i < s1.len() ==> #[trigger] s2[sigma(i)] == s1[i],
    ensures
        s1.to_multiset() == s2.to_multiset(),
{
    assert forall|x: A| #[trigger] s1.to_multiset().count(x) == s2.to_multiset().count(x) by {
        lemma_count_as_sum(s1, x);
        lemma_count_as_sum(s2, x);
        assert forall|i: int| 0 <= i < s1.len() implies #[trigger] count_terms(s2, x)(sigma(i)) == count_terms(s1, x)(i) by {}
        lemma_sum_perm(count_terms(s1, x), count_terms(s2, x), sigma, s1.len() as int);
    }
    assert(s1.to_multiset() =~= s2.to_multiset());
}

/// Two sorted lists of words with the same values as often are equal.
pub proof fn lemma_sorted_words_eq(a: Seq<u32>, b: Seq<u32>)
    requires
        sorted_between(a, 0, a.len() as int),
        sorted_between(b, 0, b.len() as int),
        a.to_multiset() == b.to_multiset(),
    ensures
        a == b,
{
    let leq = |x: u32, y: u32| x <= y;
    assert(sorted_by(a, leq));
    assert(sorted_by(b, leq));
    assert(total_ordering(leq));
    vstd::seq_lib::lemma_sorted_unique(a, b, leq);
}

/// A renamed motif keeps exactly the renamed edges.
pub proof fn lemma_relabel_member(n: nat, p: Seq<int>, m: Set<int>, f: int)
    requires
        is_perm(p, n),
        m.subset_of(edge_range(n)),
        0 <= f < edge_total(n),
    ensures
        relabel_motif(n, p, m).contains(edge_image(n, p, f)) <==> m.contains(f),
        relabel_motif(n, p, m).subset_of(edge_range(n)),
{
    if relabel_motif(n, p, m).contains(edge_image(n, p, f)) {
        let g = choose|g: int| m.contains(g) && edge_image(n, p, g) == edge_image(n, p, f);
        lemma_edge_image_injective(n, p, f, g);
    }
    assert forall|g: int| relabel_motif(n, p, m).contains(g) implies edge_range(n).contains(g) by {
        let f2 = choose|f2: int| m.contains(f2) && edge_image(n, p, f2) == g;
        lemma_edge_image(n, p, f2);
    }
}

/// The terms of a node's histogram.
pub open spec fn weight_terms(n: nat, bits: nat, m: Set<int>, v: int) -> spec_fn(int) -> nat {
    |f: int| if m.contains(f) && edge_nodes(n, f).contains(v) {
        size_weight(bits, edge_size(n, f))
    } else {
        0nat
    }
}

/// A node's histogram is the sum of its terms.
pub proof fn lemma_node_weight_sum(n: nat, bits: nat, m: Set<int>, v: int, lo: int)
    ensures
        node_weight(n, bits, m, v, lo) == sum_below(weight_terms(n, bits, m, v), lo),
    decreases lo,
{
    if lo > 0 {
        lemma_node_weight_sum(n, bits, m, v, lo - 1);
    }
}

/// Renaming the nodes moves the histograms with them.
pub proof fn lemma_node_weight_relabel(n: nat, bits: nat, m: Set<int>, p: Seq<int>, v: int)
    requires
        is_perm(p, n),
        m.subset_of(edge_range(n)),
        0 <= v < n,
    ensures
        node_weight(n, bits, relabel_motif(n, p, m), p[v], edge_total(n) as int) == node_weight(
            n,
            bits,
            m,
            v,
            edge_total(n) as int,
        ),
{
    let m2 = relabel_motif(n, p, m);
    let e = edge_total(n) as int;
    let sigma = edge_map(n, p);
    lemma_edge_map_bijection(n, p);
    lemma_node_weight_sum(n, bits, m, v, e);
    lemma_node_weight_sum(n, bits, m2, p[v], e);
    assert forall|f: int| 0 <= f < e implies #[trigger] weight_terms(n, bits, m2, p[v])(sigma(f)) == weight_terms(n, bits, m, v)(f) by {
        lemma_edge_image(n, p, f);
        lemma_relabel_member(n, p, m, f);
        lemma_edge_size(n, f);
        lemma_edge_nodes_range(n, f);
        lemma_image(p, n, edge_nodes(n, f));
    }
    lemma_sum_perm(weight_terms(n, bits, m, v), weight_terms(n, bits, m2, p[v]), sigma, e);
}

/// Renaming the nodes keeps the sorted histograms.
pub proof fn lemma_sorted_weights_relabel(n: nat, bits: u32, d: u32, m: Set<int>, p: Seq<int>, a: Seq<u32>, b: Seq<u32>)
    requires
        is_perm(p, n),
        m.subset_of(edge_range(n)),
        is_hist_sorted_of(a, weights_u32(n, bits as nat, m), bits, d),
        is_hist_sorted_of(b, weights_u32(n, bits as nat, relabel_motif(n, p, m)), bits, d),
    ensures
        a == b,
{
    let w1 = weights_u32(n, bits as nat, m);
    let w2 = weights_u32(n, bits as nat, relabel_motif(n, p, m));
    let sigma = |v: int| p[v];
    assert(is_bijection(sigma, n as int));
    assert forall|v: int| 0 <= v < w1.len() implies #[trigger] w2[sigma(v)] == w1[v] by {
        lemma_node_weight_relabel(n, bits as nat, m, p, v);
    }
    lemma_moved_multiset(w1, w2, sigma);
    crate::histogram::lemma_hist_total(bits, d);
    vstd::seq_lib::lemma_sorted_unique(a, b, crate::histogram::hist_le_order(bits, d));
}

/// The terms of the number of edges of `m` that hold edge `f`.
pub open spec fn containing_terms(n: nat, m: Set<int>, f: int) -> spec_fn(int) -> nat {
    |g: int| if m.contains(g) && edge_nodes(n, f).subset_of(edge_nodes(n, g)) {
        1nat
    } else {
        0nat
    }
}

/// The number of edges that hold an edge is the sum of its terms.
pub proof fn lemma_containing_sum(n: nat, m: Set<int>, f: int, lo: int)
    ensures
        containing_count(n, m, f, lo) == sum_below(containing_terms(n, m, f), lo),
    decreases lo,
{
    if lo > 0 {
        lemma_containing_sum(n, m, f, lo - 1);
    }
}

/// Renaming the nodes keeps how many edges hold each edge.
pub proof fn lemma_inclusion_relabel(n: nat, m: Set<int>, p: Seq<int>, f: int)
    requires
        is_perm(p, n),
        m.subset_of(edge_range(n)),
        0 <= f < edge_total(n),
    ensures
        inclusion(n, relabel_motif(n, p, m), edge_image(n, p, f)) == inclusion(n, m, f),
{
    let m2 = relabel_motif(n, p, m);
    let e = edge_total(n) as int;
    let sigma = edge_map(n, p);
    let f2 = edge_image(n, p, f);
    lemma_edge_map_bijection(n, p);
    lemma_relabel_member(n, p, m, f);
    lemma_containing_sum(n, m, f, e);
    lemma_containing_sum(n, m2, f2, e);
    lemma_edge_image(n, p, f);
    lemma_edge_size(n, f);
    lemma_edge_nodes_range(n, f);
    assert forall|g: int| 0 <= g < e implies #[trigger] containing_terms(n, m2, f2)(sigma(g)) == containing_terms(n, m, f)(g) by {
        lemma_edge_image(n, p, g);
        lemma_relabel_member(n, p, m, g);
        lemma_edge_size(n, g);
        lemma_edge_nodes_range(n, g);
        lemma_image_pair(p, n, edge_nodes(n, f), edge_nodes(n, g));
    }
    lemma_sum_perm(containing_terms(n, m, f), containing_terms(n, m2, f2), sigma, e);
}

/// Renaming the nodes of a motif of order 4 by a permutation keeps its
/// fingerprint: isomorphic motifs of order 4 have equal fingerprints.
pub proof fn lemma_fingerprint4_relabel(m: Set<int>, p: Seq<int>, a: Fingerprint4, b: Fingerprint4)
    requires
        m.subset_of(edge_range(4)),
        is_perm(p, 4),
        is_fingerprint4_of(a, m),
        is_fingerprint4_of(b, relabel_motif(4, p, m)),
    ensures
        a.eq_spec(&b),
{
    lemma_edge_totals();
    lemma_sorted_weights_relabel(4, 2, 3, m, p, a.order_view(), b.order_view());
    let sigma = edge_map(4, p);
    lemma_edge_map_bijection(4, p);
    assert forall|f: int| 0 <= f < 11 implies #[trigger] b.inclusions_view()[sigma(f)] == a.inclusions_view()[f] by {
        lemma_edge_image(4, p, f);
        lemma_inclusion_relabel(4, m, p, f);
    }
    lemma_moved_multiset(a.inclusions_view(), b.inclusions_view(), sigma);
}


/// The terms of the counter of group `g` around edge `e`.
pub open spec fn group_terms(cm: Set<int>, e: int, g: Set<int>) -> spec_fn(int) -> nat {
    |f: int| if is_cross(cm, e, f) && edge_size(5, f) < 5 && edge_nodes(5, f).intersect(edge_nodes(5, e)) == g {
        pow2(inner_offset(edge_size(5, e), g.len(), edge_size(5, f)))
    } else {
        0nat
    }
}

/// A group's counter is the sum of its terms.
pub proof fn lemma_group_value_sum(cm: Set<int>, e: int, g: Set<int>, lo: int)
    ensures
        group_value(cm, e, g, lo) == sum_below(group_terms(cm, e, g), lo),
    decreases lo,
{
    if lo > 0 {
        lemma_group_value_sum(cm, e, g, lo - 1);
    }
}

/// Renaming the nodes moves the groups around each edge with their counters.
pub proof fn lemma_group_value_relabel(m: Set<int>, p: Seq<int>, e: int, g: Set<int>)
    requires
        is_perm(p, 5),
        m.subset_of(edge_range(5)),
        0 <= e < 26,
        g.subset_of(edge_nodes(5, e)),
    ensures
        group_value(relabel_motif(5, p, m), edge_image(5, p, e), image(p, g), 26) == group_value(m, e, g, 26),
{
    lemma_edge_totals();
    let m2 = relabel_motif(5, p, m);
    let e2 = edge_image(5, p, e);
    let g2 = image(p, g);
    let sigma = edge_map(5, p);
    lemma_edge_map_bijection(5, p);
    lemma_edge_image(5, p, e);
    lemma_edge_size(5, e);
    lemma_edge_nodes_range(5, e);
    vstd::set_lib::lemma_len_subset(g, edge_nodes(5, e));
    assert(g.subset_of(set_int_range(0, 5)));
    lemma_image(p, 5, g);
    lemma_group_value_sum(m, e, g, 26);
    lemma_group_value_sum(m2, e2, g2, 26);
    assert forall|f: int| 0 <= f < 26 implies #[trigger] group_terms(m2, e2, g2)(sigma(f)) == group_terms(m, e, g)(f) by {
        lemma_edge_image(5, p, f);
        lemma_relabel_member(5, p, m, f);
        lemma_edge_size(5, f);
        lemma_edge_nodes_range(5, f);
        let a = edge_nodes(5, f);
        let b = edge_nodes(5, e);
        lemma_image_pair(p, 5, a, b);
        assert(a.intersect(b).subset_of(set_int_range(0, 5)));
        lemma_image_pair(p, 5, a.intersect(b), g);
        assert(is_cross(m2, e2, sigma(f)) == is_cross(m, e, f));
    }
    lemma_sum_perm(group_terms(m, e, g), group_terms(m2, e2, g2), sigma, 26);
}

/// Renaming the nodes keeps how many groups of each size have each counter.
pub proof fn lemma_groups_relabel(m: Set<int>, p: Seq<int>, e: int, s: nat, v: u32)
    requires
        is_perm(p, 5),
        m.subset_of(edge_range(5)),
        0 <= e < 26,
    ensures
        groups_with_value(relabel_motif(5, p, m), edge_image(5, p, e), s, v).len() == groups_with_value(m, e, s, v).len(),
{
    lemma_edge_totals();
    let m2 = relabel_motif(5, p, m);
    let e2 = edge_image(5, p, e);
    let t = edge_nodes(5, e);
    let g1 = groups_with_value(m, e, s, v);
    let g2 = groups_with_value(m2, e2, s, v);
    let img = |g: Set<int>| image(p, g);
    lemma_edge_image(5, p, e);
    lemma_edge_size(5, e);
    lemma_edge_nodes_range(5, e);
    assert(t.subset_of(set_int_range(0, 5)));
    lemma_image(p, 5, t);
    lemma_subsets_of_size_len(t, s);
    assert(g1.subset_of(subsets_of_size(t, s)));
    vstd::set_lib::lemma_len_subset(g1, subsets_of_size(t, s));
    assert(g1.map(img) =~= g2) by {
        assert forall|h: Set<int>| g1.map(img).contains(h) implies g2.contains(h) by {
            let g = choose|g: Set<int>| g1.contains(g) && img(g) == h;
            assert(g.subset_of(set_int_range(0, 5)));
            lemma_image(p, 5, g);
            lemma_image_pair(p, 5, g, t);
            lemma_group_value_relabel(m, p, e, g);
            assert(subsets_of_size(edge_nodes(5, e2), s).contains(h));
        }
        assert forall|h: Set<int>| g2.contains(h) implies g1.map(img).contains(h) by {
            let g = t.filter(|x: int| h.contains(p[x]));
            assert(g.subset_of(t));
            vstd::set_lib::lemma_len_subset(g, t);
            assert(g.subset_of(set_int_range(0, 5)));
            lemma_image(p, 5, g);
            assert(image(p, g) =~= h) by {
                assert forall|y: int| #[trigger] h.contains(y) implies image(p, g).contains(y) by {
                    assert(image(p, t).contains(y));
                    let x = choose|x: int| t.contains(x) && p[x] == y;
                    assert(g.contains(x));
                }
            }
            lemma_group_value_relabel(m, p, e, g);
            assert(g1.contains(g));
            assert(img(g) == h);
        }
    }
    assert(vstd::relations::injective_on(img, g1)) by {
        assert forall|x1: Set<int>, x2: Set<int>| g1.contains(x1) && g1.contains(x2) && #[trigger] img(x1) == #[trigger] img(x2) implies x1 == x2 by {
            assert(x1.subset_of(set_int_range(0, 5)));
            assert(x2.subset_of(set_int_range(0, 5)));
            vstd::set_lib::lemma_len_subset(x1, t);
            vstd::set_lib::lemma_len_subset(x2, t);
            lemma_image_pair(p, 5, x1, x2);
        }
    }
    vstd::set_lib::lemma_map_size(g1, g2, img);
}

/// A set's listing has no repeats.
pub proof fn lemma_to_seq_unique<A>(s: Set<A>)
    requires
        s.finite(),
    ensures
        s.to_seq().no_duplicates(),
        s.to_seq().to_set() == s,
    decreases s.len(),
{
    s.lemma_to_seq_to_set_id();
    if s.len() > 0 {
        let x = s.choose();
        let r = s.remove(x);
        lemma_to_seq_unique(r);
        let q = Seq::<A>::empty().push(x) + r.to_seq();
        assert(s.to_seq() == q);
        assert(q.no_duplicates()) by {
            assert forall|i: int, j: int| 0 <= i < q.len() && 0 <= j < q.len() && i != j implies q[i] != q[j] by {
                if i == 0 || j == 0 {
                    let k = if i == 0 { j } else { i };
                    assert(q[k] == r.to_seq()[k - 1]);
                    assert(r.to_seq().to_set().contains(q[k]));
                } else {
                    assert(q[i] == r.to_seq()[i - 1]);
                    assert(q[j] == r.to_seq()[j - 1]);
                }
            }
        }
    }
}

/// Every group block has a sorted listing.
pub proof fn lemma_block_exists(m: Set<int>, e: int, s: nat)
    requires
        0 <= e < 26,
    ensures
        is_block_of(sorted_block(m, e, s), m, e, s),
{
    lemma_edge_totals();
    lemma_edge_size(5, e);
    let t = edge_nodes(5, e);
    lemma_subsets_of_size_len(t, s);
    let subs = subsets_of_size(t, s);
    lemma_to_seq_unique(subs);
    let q = subs.to_seq();
    let f = |x: Set<int>| group_value(m, e, x, 26) as u32;
    let raw = q.map_values(f);
    let leq = |x: u32, y: u32| x <= y;
    assert(total_ordering(leq));
    raw.lemma_sort_by_ensures(leq);
    let b = raw.sort_by(leq);
    assert(block_counts(b, m, e, s)) by {
        assert forall|v: u32| #[trigger] b.to_multiset().count(v) == groups_with_value(m, e, s, v).len() by {
            lemma_unique_seq_count(q, f, v);
            assert(preimage(subs, f, v) =~= groups_with_value(m, e, s, v)) by {
                assert forall|x: Set<int>| #[trigger] preimage(subs, f, v).contains(x) == groups_with_value(m, e, s, v).contains(x) by {
                    if subs.contains(x) {
                        lemma_group_value_bound(m, e, x, 26);
                    }
                }
            }
        }
    }
    assert forall|i: int, j: int| 0 <= i < j < b.len() implies b[i] <= b[j] by {
        assert(leq(b[i], b[j]));
    }
    assert(sorted_between(b, 0, b.len() as int));
    assert(is_block_of(b, m, e, s));
}

/// Renaming the nodes keeps each sorted group block of each edge.
pub proof fn lemma_sorted_block_relabel(m: Set<int>, p: Seq<int>, e: int, s: nat)
    requires
        is_perm(p, 5),
        m.subset_of(edge_range(5)),
        0 <= e < 26,
    ensures
        sorted_block(relabel_motif(5, p, m), edge_image(5, p, e), s) == sorted_block(m, e, s),
{
    lemma_edge_totals();
    let m2 = relabel_motif(5, p, m);
    let e2 = edge_image(5, p, e);
    lemma_edge_image(5, p, e);
    lemma_block_exists(m, e, s);
    let b1 = sorted_block(m, e, s);
    assert forall|v: u32| #[trigger] groups_with_value(m2, e2, s, v).len() == groups_with_value(m, e, s, v).len() by {
        lemma_groups_relabel(m, p, e, s, v);
    }
    assert(is_block_of(b1, m2, e2, s));
    let b2 = sorted_block(m2, e2, s);
    assert(is_block_of(b2, m2, e2, s));
    assert(b2.to_multiset() =~= b1.to_multiset()) by {
        assert forall|v: u32| #[trigger] b2.to_multiset().count(v) == b1.to_multiset().count(v) by {
            assert(block_counts(b1, m, e, s));
            assert(block_counts(b2, m2, e2, s));
        }
    }
    lemma_sorted_block_unique(b1, b2, m, e, s);
}


/// Renaming the nodes keeps the connection entry of each edge.
pub proof fn lemma_conn_entry_relabel(m: Set<int>, p: Seq<int>, e: int)
    requires
        is_perm(p, 5),
        m.subset_of(edge_range(5)),
        0 <= e < 26,
    ensures
        conn_entry(relabel_motif(5, p, m), edge_image(5, p, e)) == conn_entry(m, e),
{
    lemma_edge_totals();
    lemma_edge_image(5, p, e);
    lemma_sorted_block_relabel(m, p, e, 1);
    lemma_sorted_block_relabel(m, p, e, 2);
    lemma_sorted_block_relabel(m, p, e, 3);
    lemma_sorted_block_relabel(m, p, e, 4);
    assert(cross_infos(relabel_motif(5, p, m), edge_image(5, p, e)) == cross_infos(m, e));
}

/// The terms of how often entry `x` occurs among the edges of size `k`.
pub open spec fn entry_terms(m: Set<int>, k: nat, x: u32) -> spec_fn(int) -> nat {
    |f: int| if m.contains(f) && edge_size(5, f) == k && conn_entry(m, f) == x {
        1nat
    } else {
        0nat
    }
}

/// How often an entry occurs is the sum of its terms.
pub proof fn lemma_conn_entries_count(m: Set<int>, k: nat, lo: int, x: u32)
    ensures
        conn_entries(m, k, lo).to_multiset().count(x) == sum_below(entry_terms(m, k, x), lo),
    decreases lo,
{
    broadcast use vstd::seq_lib::group_to_multiset_ensures;
    broadcast use vstd::multiset::group_multiset_axioms;
    if lo <= 0 {
        assert(conn_entries(m, k, lo).to_multiset().count(x) == 0) by {
            if conn_entries(m, k, lo).to_multiset().count(x) > 0 {
                assert(conn_entries(m, k, lo).contains(x));
            }
        }
    } else {
        lemma_conn_entries_count(m, k, lo - 1, x);
        let prev = conn_entries(m, k, lo - 1);
        if m.contains(lo - 1) && edge_size(5, lo - 1) == k {
            assert(conn_entries(m, k, lo) =~= prev.push(conn_entry(m, lo - 1)));
        } else {
            assert(conn_entries(m, k, lo) =~= prev);
        }
    }
}

/// Renaming the nodes keeps how often each entry occurs.
pub proof fn lemma_conn_entries_relabel(m: Set<int>, p: Seq<int>, k: nat)
    requires
        is_perm(p, 5),
        m.subset_of(edge_range(5)),
    ensures
        conn_entries(relabel_motif(5, p, m), k, 26).to_multiset() == conn_entries(m, k, 26).to_multiset(),
{
    lemma_edge_totals();
    let m2 = relabel_motif(5, p, m);
    let sigma = edge_map(5, p);
    lemma_edge_map_bijection(5, p);
    assert forall|x: u32| #[trigger] conn_entries(m2, k, 26).to_multiset().count(x) == conn_entries(m, k, 26).to_multiset().count(x) by {
        lemma_conn_entries_count(m, k, 26, x);
        lemma_conn_entries_count(m2, k, 26, x);
        assert forall|f: int| 0 <= f < 26 implies #[trigger] entry_terms(m2, k, x)(sigma(f)) == entry_terms(m, k, x)(f) by {
            lemma_edge_image(5, p, f);
            lemma_relabel_member(5, p, m, f);
            lemma_conn_entry_relabel(m, p, f);
        }
        lemma_sum_perm(entry_terms(m, k, x), entry_terms(m2, k, x), sigma, 26);
    }
    assert(conn_entries(m2, k, 26).to_multiset() =~= conn_entries(m, k, 26).to_multiset());
}

/// Renaming the nodes of a motif of order 5 by a permutation keeps its
/// fingerprint: isomorphic motifs of order 5 have equal fingerprints.
pub proof fn lemma_fingerprint5_relabel(m: Set<int>, p: Seq<int>, a: Fingerprint5, b: Fingerprint5)
    requires
        m.subset_of(edge_range(5)),
        is_perm(p, 5),
        is_fingerprint5_of(a, m),
        is_fingerprint5_of(b, relabel_motif(5, p, m)),
    ensures
        a.eq_spec(&b),
{
    lemma_edge_totals();
    lemma_sorted_weights_relabel(5, 3, 4, m, p, a.order_view(), b.order_view());
    lemma_conn_entries_relabel(m, p, 2);
    lemma_conn_entries_relabel(m, p, 3);
    lemma_conn_entries_relabel(m, p, 4);
    lemma_sorted_words_eq(a.conn_view(2), b.conn_view(2));
    lemma_sorted_words_eq(a.conn_view(3), b.conn_view(3));
    lemma_sorted_words_eq(a.conn_view(4), b.conn_view(4));
}

} // verus!
