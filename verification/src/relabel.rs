//! How a renaming of nodes renames the numbered hyperedges of an order, and the
//! combinations behind the numbering.

use vstd::prelude::*;

verus! {

use vstd::set_lib::set_int_range;
use vstd::relations::injective_on;
use crate::util::is_perm;
use crate::fingerprint::{edge_size, lemma_edge_size};
use crate::tables::lemma_edge_nodes_range;
use crate::tables::{
    combos,
    prepend_all,
    edges_upto,
    order_edges,
    edge_nodes,
    edge_total,
    lemma_combos_elems,
    lemma_edges_upto_step,
    lemma_edges_upto_elems,
};

/// An increasing sequence has no repeats, and as many members as entries.
pub proof fn lemma_increasing_set(c: Seq<int>)
    requires
        forall|j1: int, j2: int| 0 <= j1 < j2 < c.len() ==> c[j1] < c[j2],
    ensures
        c.no_duplicates(),
        c.to_set().finite(),
        c.to_set().len() == c.len(),
{
    assert forall|i: int, j: int| 0 <= i < c.len() && 0 <= j < c.len() && i != j implies c[i] != c[j] by {
        if i < j {
            assert(c[i] < c[j]);
        } else {
            assert(c[j] < c[i]);
        }
    }
    c.unique_seq_to_set();
    vstd::seq_lib::seq_to_set_is_finite(c);
}

/// Every `k`-element subset of `start..n` is the set of some combination.
pub proof fn lemma_combos_cover(start: int, n: int, k: nat, s: Set<int>)
    requires
        s.finite(),
        s.len() == k,
        s.subset_of(set_int_range(start, n)),
    ensures
        exists|i: int| 0 <= i < combos(start, n, k).len() && (#[trigger] combos(start, n, k)[i]).to_set() == s,
    decreases n - start,
{
    if k == 0 {
        s.lemma_len0_is_empty();
        assert(combos(start, n, k)[0].to_set() =~= s);
    } else if start >= n {
        assert(s.len() > 0);
        let x = s.choose();
        assert(s.contains(x));
    } else {
        let a = prepend_all(start, combos(start + 1, n, (k - 1) as nat));
        let b = combos(start + 1, n, k);
        assert(combos(start, n, k) == a + b);
        if s.contains(start) {
            let t = s.remove(start);
            assert(t.subset_of(set_int_range(start + 1, n)));
            lemma_combos_cover(start + 1, n, (k - 1) as nat, t);
            let i = choose|i: int| 0 <= i < combos(start + 1, n, (k - 1) as nat).len() && (#[trigger] combos(start + 1, n, (k - 1) as nat)[i]).to_set() == t;
            let c = combos(start + 1, n, (k - 1) as nat)[i];
            assert(a[i] == seq![start] + c);
            assert((seq![start] + c).to_set() =~= s) by {
                assert forall|x: int| #[trigger] (seq![start] + c).to_set().contains(x) == s.contains(x) by {
                    if s.contains(x) && x != start {
                        assert(c.to_set().contains(x));
                        let j = choose|j: int| 0 <= j < c.len() && c[j] == x;
                        assert((seq![start] + c)[j + 1] == x);
                    }
                    if x == start {
                        assert((seq![start] + c)[0] == x);
                    }
                    if (seq![start] + c).to_set().contains(x) {
                        let j = choose|j: int| 0 <= j < (seq![start] + c).len() && (seq![start] + c)[j] == x;
                        if j > 0 {
                            assert(c[j - 1] == x);
                            assert(c.to_set().contains(x));
                        }
                    }
                }
            }
            assert((a + b)[i].to_set() == s);
        } else {
            assert(s.subset_of(set_int_range(start + 1, n)));
            lemma_combos_cover(start + 1, n, k, s);
            let i = choose|i: int| 0 <= i < b.len() && (#[trigger] b[i]).to_set() == s;
            assert((a + b)[a.len() + i] == b[i]);
        }
    }
}

/// Different combinations have different sets.
pub proof fn lemma_combos_distinct(start: int, n: int, k: nat)
    ensures
        forall|i: int, j: int|
            0 <= i < combos(start, n, k).len() && 0 <= j < combos(start, n, k).len() && i != j
                ==> (#[trigger] combos(start, n, k)[i]).to_set() != (#[trigger] combos(start, n, k)[j]).to_set(),
    decreases n - start,
{
    if k > 0 && start < n {
        lemma_combos_distinct(start + 1, n, (k - 1) as nat);
        lemma_combos_distinct(start + 1, n, k);
        lemma_combos_elems(start + 1, n, (k - 1) as nat);
        lemma_combos_elems(start + 1, n, k);
        let c1 = combos(start + 1, n, (k - 1) as nat);
        let a = prepend_all(start, c1);
        let b = combos(start + 1, n, k);
        let all = combos(start, n, k);
        assert(all == a + b);
        assert forall|i: int, j: int| 0 <= i < all.len() && 0 <= j < all.len() && i != j implies (#[trigger] all[i]).to_set() != (#[trigger] all[j]).to_set() by {
            if i < a.len() && j < a.len() {
                let x = c1[i];
                let y = c1[j];
                assert(all[i] == seq![start] + x);
                assert(all[j] == seq![start] + y);
                assert(x.to_set() != y.to_set());
                if all[i].to_set() == all[j].to_set() {
                    assert(x.to_set() =~= y.to_set()) by {
                        assert forall|v: int| #[trigger] x.to_set().contains(v) implies y.to_set().contains(v) by {
                            let t = choose|t: int| 0 <= t < x.len() && x[t] == v;
                            assert(all[i][t + 1] == v);
                            assert(all[i].to_set().contains(v));
                            assert(all[j].to_set().contains(v));
                            let u = choose|u: int| 0 <= u < all[j].len() && all[j][u] == v;
                            assert(v >= start + 1);
                            assert(u > 0);
                            assert(y[u - 1] == v);
                        }
                        assert forall|v: int| #[trigger] y.to_set().contains(v) implies x.to_set().contains(v) by {
                            let t = choose|t: int| 0 <= t < y.len() && y[t] == v;
                            assert(all[j][t + 1] == v);
                            assert(all[j].to_set().contains(v));
                            assert(all[i].to_set().contains(v));
                            let u = choose|u: int| 0 <= u < all[i].len() && all[i][u] == v;
                            assert(v >= start + 1);
                            assert(u > 0);
                            assert(x[u - 1] == v);
                        }
                    }
                }
            } else if i >= a.len() && j >= a.len() {
                assert(all[i] == b[i - a.len()]);
                assert(all[j] == b[j - a.len()]);
            } else {
                let (p, q) = if i < a.len() { (i, j) } else { (j, i) };
                assert(all[p] == seq![start] + c1[p]);
                assert(all[p][0] == start);
                assert(all[p].to_set().contains(start));
                assert(all[q] == b[q - a.len()]);
                if all[q].to_set().contains(start) {
                    let u = choose|u: int| 0 <= u < all[q].len() && all[q][u] == start;
                    assert(b[q - a.len()][u] >= start + 1);
                }
            }
        }
    }
}


/// Every set of at least 2 and fewer than `m` nodes of `0..n` is the set of some
/// hyperedge of sizes `2..m`.
pub proof fn lemma_edges_upto_cover(n: nat, m: nat, s: Set<int>)
    requires
        s.finite(),
        2 <= s.len() < m,
        s.subset_of(set_int_range(0, n as int)),
    ensures
        exists|f: int| 0 <= f < edges_upto(n, m).len() && (#[trigger] edges_upto(n, m)[f]).to_set() == s,
    decreases m,
{
    if m > 2 {
        lemma_edges_upto_step(n, (m - 1) as nat);
        let a = edges_upto(n, (m - 1) as nat);
        let b = combos(0, n as int, (m - 1) as nat);
        assert(edges_upto(n, m) == a + b);
        if s.len() < m - 1 {
            lemma_edges_upto_cover(n, (m - 1) as nat, s);
            let f = choose|f: int| 0 <= f < a.len() && (#[trigger] a[f]).to_set() == s;
            assert((a + b)[f] == a[f]);
        } else {
            lemma_combos_cover(0, n as int, (m - 1) as nat, s);
            let i = choose|i: int| 0 <= i < b.len() && (#[trigger] b[i]).to_set() == s;
            assert((a + b)[a.len() + i] == b[i]);
        }
    }
}

/// Different hyperedges of sizes `2..m` have different node sets.
pub proof fn lemma_edges_upto_distinct(n: nat, m: nat)
    ensures
        forall|f: int, g: int|
            0 <= f < edges_upto(n, m).len() && 0 <= g < edges_upto(n, m).len() && f != g
                ==> (#[trigger] edges_upto(n, m)[f]).to_set() != (#[trigger] edges_upto(n, m)[g]).to_set(),
    decreases m,
{
    if m > 2 {
        lemma_edges_upto_distinct(n, (m - 1) as nat);
        lemma_edges_upto_step(n, (m - 1) as nat);
        lemma_combos_distinct(0, n as int, (m - 1) as nat);
        lemma_combos_elems(0, n as int, (m - 1) as nat);
        lemma_edges_upto_elems(n, (m - 1) as nat);
        let a = edges_upto(n, (m - 1) as nat);
        let b = combos(0, n as int, (m - 1) as nat);
        let all = edges_upto(n, m);
        assert(all == a + b);
        assert forall|f: int, g: int| 0 <= f < all.len() && 0 <= g < all.len() && f != g implies (#[trigger] all[f]).to_set() != (#[trigger] all[g]).to_set() by {
            if f < a.len() && g < a.len() {
                assert(all[f] == a[f] && all[g] == a[g]);
            } else if f >= a.len() && g >= a.len() {
                assert(all[f] == b[f - a.len()] && all[g] == b[g - a.len()]);
            } else {
                let (x, y) = if f < a.len() { (f, g) } else { (g, f) };
                assert(all[x] == a[x]);
                assert(all[y] == b[y - a.len()]);
                lemma_increasing_set(a[x]);
                lemma_increasing_set(b[y - a.len()]);
                assert(a[x].len() < m - 1);
                assert(b[y - a.len()].len() == m - 1);
            }
        }
    }
}

/// The numbering of hyperedges of order `n` meets every set of at least two
/// of the nodes `0..n` exactly once.
pub proof fn lemma_edge_numbering(n: nat)
    ensures
        forall|s: Set<int>|
            s.finite() && 2 <= s.len() && s.subset_of(set_int_range(0, n as int)) ==> exists|f: int|
                0 <= f < edge_total(n) && #[trigger] edge_nodes(n, f) == s,
        forall|f: int, g: int|
            0 <= f < edge_total(n) && 0 <= g < edge_total(n) && #[trigger] edge_nodes(n, f) == #[trigger] edge_nodes(n, g)
                ==> f == g,
{
    assert forall|s: Set<int>| s.finite() && 2 <= s.len() && s.subset_of(set_int_range(0, n as int)) implies exists|f: int|
        0 <= f < edge_total(n) && #[trigger] edge_nodes(n, f) == s by {
        vstd::set_lib::lemma_int_range(0, n as int);
        vstd::set_lib::lemma_len_subset(s, set_int_range(0, n as int));
        lemma_edges_upto_cover(n, n + 1, s);
        let f = choose|f: int| 0 <= f < edges_upto(n, n + 1).len() && (#[trigger] edges_upto(n, n + 1)[f]).to_set() == s;
        assert(edge_nodes(n, f) == s);
    }
    lemma_edges_upto_distinct(n, n + 1);
}


/// The image of node set `s` when node `v` is renamed `p[v]`.
pub open spec fn image(p: Seq<int>, s: Set<int>) -> Set<int> {
    s.map(|v: int| p[v])
}

/// The number of the hyperedge that hyperedge `f` of order `n` becomes when
/// node `v` is renamed `p[v]`.
pub open spec fn edge_image(n: nat, p: Seq<int>, f: int) -> int {
    choose|g: int| 0 <= g < edge_total(n) && edge_nodes(n, g) == image(p, edge_nodes(n, f))
}

/// Motif `m` of order `n` with node `v` renamed `p[v]`.
pub open spec fn relabel_motif(n: nat, p: Seq<int>, m: Set<int>) -> Set<int> {
    m.map(|f: int| edge_image(n, p, f))
}

/// Renaming by a permutation keeps the size of a node set and tells its
/// members apart.
pub proof fn lemma_image(p: Seq<int>, n: nat, s: Set<int>)
    requires
        is_perm(p, n),
        s.finite(),
        s.subset_of(set_int_range(0, n as int)),
    ensures
        image(p, s).finite(),
        image(p, s).len() == s.len(),
        image(p, s).subset_of(set_int_range(0, n as int)),
        forall|v: int| 0 <= v < n ==> (#[trigger] image(p, s).contains(p[v]) <==> s.contains(v)),
{
    let f = |v: int| p[v];
    assert(injective_on(f, s));
    vstd::set_lib::lemma_map_size(s, image(p, s), f);
    assert forall|v: int| 0 <= v < n implies (#[trigger] image(p, s).contains(p[v]) <==> s.contains(v)) by {
        if image(p, s).contains(p[v]) {
            let u = choose|u: int| s.contains(u) && f(u) == p[v];
            assert(0 <= u < n);
        }
        if s.contains(v) {
            assert(f(v) == p[v]);
        }
    }
}

/// Renaming two node sets by a permutation keeps their intersection, their
/// inclusion and their equality.
pub proof fn lemma_image_pair(p: Seq<int>, n: nat, a: Set<int>, b: Set<int>)
    requires
        is_perm(p, n),
        a.finite(),
        b.finite(),
        a.subset_of(set_int_range(0, n as int)),
        b.subset_of(set_int_range(0, n as int)),
    ensures
        image(p, a.intersect(b)) == image(p, a).intersect(image(p, b)),
        image(p, a).subset_of(image(p, b)) <==> a.subset_of(b),
        image(p, a) == image(p, b) <==> a == b,
        image(p, a).disjoint(image(p, b)) <==> a.disjoint(b),
{
    lemma_image(p, n, a);
    lemma_image(p, n, b);
    lemma_image(p, n, a.intersect(b));
    assert(image(p, a.intersect(b)) =~= image(p, a).intersect(image(p, b))) by {
        assert forall|x: int| #[trigger] image(p, a).intersect(image(p, b)).contains(x) implies image(p, a.intersect(b)).contains(x) by {
            let u = choose|u: int| a.contains(u) && p[u] == x;
            assert(image(p, b).contains(p[u]));
            assert(b.contains(u));
        }
    }
    if image(p, a).subset_of(image(p, b)) {
        assert forall|v: int| a.contains(v) implies b.contains(v) by {
            assert(image(p, a).contains(p[v]));
        }
    }
    if a.subset_of(b) {
        assert forall|x: int| image(p, a).contains(x) implies image(p, b).contains(x) by {
            let u = choose|u: int| a.contains(u) && p[u] == x;
            assert(image(p, b).contains(p[u]));
        }
    }
    if image(p, a) == image(p, b) {
        assert(a =~= b) by {
            assert forall|v: int| a.contains(v) <==> b.contains(v) by {
                if a.contains(v) || b.contains(v) {
                    assert(0 <= v < n);
                    assert(image(p, a).contains(p[v]) == image(p, b).contains(p[v]));
                }
            }
        }
    }
    if image(p, a).disjoint(image(p, b)) {
        assert forall|v: int| a.contains(v) implies !b.contains(v) by {
            assert(image(p, a).contains(p[v]));
        }
    }
    if a.disjoint(b) {
        assert forall|x: int| image(p, a).contains(x) implies !image(p, b).contains(x) by {
            let u = choose|u: int| a.contains(u) && p[u] == x;
            assert(!b.contains(u));
        }
    }
}

/// What a hyperedge becomes under a renaming by a permutation.
pub proof fn lemma_edge_image(n: nat, p: Seq<int>, f: int)
    requires
        is_perm(p, n),
        0 <= f < edge_total(n),
    ensures
        0 <= edge_image(n, p, f) < edge_total(n),
        edge_nodes(n, edge_image(n, p, f)) == image(p, edge_nodes(n, f)),
        edge_size(n, edge_image(n, p, f)) == edge_size(n, f),
{
    lemma_edge_size(n, f);
    lemma_edge_nodes_range(n, f);
    lemma_image(p, n, edge_nodes(n, f));
    lemma_edge_numbering(n);
    let s = image(p, edge_nodes(n, f));
    assert(s.finite() && 2 <= s.len() && s.subset_of(set_int_range(0, n as int)));
    let g = choose|g: int| 0 <= g < edge_total(n) && #[trigger] edge_nodes(n, g) == s;
}

/// Different hyperedges become different hyperedges.
pub proof fn lemma_edge_image_injective(n: nat, p: Seq<int>, f: int, g: int)
    requires
        is_perm(p, n),
        0 <= f < edge_total(n),
        0 <= g < edge_total(n),
        edge_image(n, p, f) == edge_image(n, p, g),
    ensures
        f == g,
{
    lemma_edge_image(n, p, f);
    lemma_edge_image(n, p, g);
    lemma_edge_size(n, f);
    lemma_edge_size(n, g);
    lemma_edge_nodes_range(n, f);
    lemma_edge_nodes_range(n, g);
    lemma_image_pair(p, n, edge_nodes(n, f), edge_nodes(n, g));
    lemma_edge_numbering(n);
}

/// `sigma` sends `0..len` into itself without merging two numbers.
pub open spec fn is_bijection(sigma: spec_fn(int) -> int, len: int) -> bool {
    &&& forall|f: int| 0 <= f < len ==> 0 <= #[trigger] sigma(f) < len
    &&& forall|f: int, g: int| 0 <= f < len && 0 <= g < len && #[trigger] sigma(f) == #[trigger] sigma(g) ==> f == g
}

/// The renaming of hyperedges of order `n` that a permutation of the nodes induces.
pub open spec fn edge_map(n: nat, p: Seq<int>) -> spec_fn(int) -> int {
    |f: int| edge_image(n, p, f)
}

/// A permutation of the nodes renames the hyperedges one to one.
pub proof fn lemma_edge_map_bijection(n: nat, p: Seq<int>)
    requires
        is_perm(p, n),
    ensures
        is_bijection(edge_map(n, p), edge_total(n) as int),
{
    let sigma = edge_map(n, p);
    assert forall|f: int| 0 <= f < edge_total(n) implies 0 <= #[trigger] sigma(f) < edge_total(n) by {
        lemma_edge_image(n, p, f);
    }
    assert forall|f: int, g: int| 0 <= f < edge_total(n) && 0 <= g < edge_total(n) && #[trigger] sigma(f) == #[trigger] sigma(g) implies f == g by {
        lemma_edge_image_injective(n, p, f, g);
    }
}

/// A one-to-one map of `0..len` into itself reaches every number.
pub proof fn lemma_bijection_onto(sigma: spec_fn(int) -> int, len: int, y: int)
    requires
        is_bijection(sigma, len),
        0 <= y < len,
    ensures
        exists|x: int| 0 <= x < len && #[trigger] sigma(x) == y,
{
    let dom = set_int_range(0, len);
    vstd::set_lib::lemma_int_range(0, len);
    assert(injective_on(sigma, dom));
    vstd::set_lib::lemma_map_size(dom, dom.map(sigma), sigma);
    assert(dom.map(sigma).subset_of(dom));
    vstd::set_lib::lemma_subset_equality(dom.map(sigma), dom);
    assert(dom.map(sigma).contains(y));
}

/// `w(0) + ... + w(lo - 1)`.
pub open spec fn sum_below(w: spec_fn(int) -> nat, lo: int) -> nat
    decreases lo,
{
    if lo <= 0 {
        0
    } else {
        sum_below(w, lo - 1) + w(lo - 1)
    }
}

/// Sums of terms that agree below `lo` agree.
pub proof fn lemma_sum_ext(w1: spec_fn(int) -> nat, w2: spec_fn(int) -> nat, lo: int)
    requires
        forall|f: int| 0 <= f < lo ==> #[trigger] w1(f) == w2(f),
    ensures
        sum_below(w1, lo) == sum_below(w2, lo),
    decreases lo,
{
    if lo > 0 {
        lemma_sum_ext(w1, w2, lo - 1);
    }
}

/// Changing one term below `lo` changes the sum by the difference.
pub proof fn lemma_sum_update(w1: spec_fn(int) -> nat, w2: spec_fn(int) -> nat, lo: int, j: int)
    requires
        0 <= j < lo,
        forall|f: int| 0 <= f < lo && f != j ==> #[trigger] w1(f) == w2(f),
    ensures
        sum_below(w2, lo) + w1(j) == sum_below(w1, lo) + w2(j),
    decreases lo,
{
    if lo - 1 == j {
        lemma_sum_ext(w1, w2, lo - 1);
    } else {
        lemma_sum_update(w1, w2, lo - 1, j);
    }
}

/// Reordering the terms by a one-to-one map keeps the sum.
pub proof fn lemma_sum_perm(w1: spec_fn(int) -> nat, w2: spec_fn(int) -> nat, sigma: spec_fn(int) -> int, len: int)
    requires
        0 <= len,
        is_bijection(sigma, len),
        forall|f: int| 0 <= f < len ==> #[trigger] w2(sigma(f)) == w1(f),
    ensures
        sum_below(w2, len) == sum_below(w1, len),
    decreases len,
{
    if len > 0 {
        let last = len - 1;
        lemma_bijection_onto(sigma, len, last);
        let j = choose|x: int| 0 <= x < len && #[trigger] sigma(x) == last;
        let s2 = |f: int| if f == j { sigma(last) } else { sigma(f) };
        let v1 = |f: int| if f == j { w1(last) } else { w1(f) };
        assert(is_bijection(s2, last)) by {
            assert forall|f: int| 0 <= f < last implies 0 <= #[trigger] s2(f) < last by {
                if f == j {
                    assert(sigma(last) != sigma(j));
                } else {
                    assert(sigma(f) != sigma(j));
                }
            }
            assert forall|f: int, g: int| 0 <= f < last && 0 <= g < last && #[trigger] s2(f) == #[trigger] s2(g) implies f == g by {
                if f == j && g != j {
                    assert(sigma(last) == sigma(g));
                } else if g == j && f != j {
                    assert(sigma(last) == sigma(f));
                }
            }
        }
        assert forall|f: int| 0 <= f < last implies #[trigger] w2(s2(f)) == v1(f) by {}
        lemma_sum_perm(v1, w2, s2, last);
        if j == last {
            lemma_sum_ext(v1, w1, last);
        } else {
            lemma_sum_update(w1, v1, last, j);
        }
    }
}

} // verus!
