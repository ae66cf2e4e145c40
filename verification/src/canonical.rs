//! Canonical forms of hypergraphs: relabeling a hypergraph does not change its
//! least relabeling.

use vstd::prelude::*;

verus! {

use vstd::relations::total_ordering;
use crate::lex::{node_le_order, nodes_le_order, lemma_orders_total, lemma_sorted_eq};
use crate::hypergraph::relabeled;
use crate::collections::is_arrangement;
use crate::motifs::{
    one_to,
    perm_mapping,
    nodes_within,
    isomorphisms,
    is_least_relabeling,
    canonical_form,
    lemma_canonical_unique,
    lists_arrangements,
};
use crate::lex::{edges_le, edges_le_order};
use crate::collections::permutations_of;

/// Lists with the same members still have the same members after each
/// member is mapped by `f`.
pub proof fn lemma_map_multiset<A, B>(a: Seq<A>, b: Seq<A>, f: spec_fn(A) -> B)
    requires
        a.to_multiset() == b.to_multiset(),
    ensures
        a.map_values(f).to_multiset() == b.map_values(f).to_multiset(),
    decreases a.len(),
{
    broadcast use vstd::seq_lib::group_to_multiset_ensures;
    broadcast use vstd::multiset::group_multiset_axioms;

    if a.len() == 0 {
        assert(b.len() == b.to_multiset().len());
        assert(a.map_values(f) =~= Seq::<B>::empty());
        assert(b.map_values(f) =~= Seq::<B>::empty());
    } else {
        let x = a.last();
        let a0 = a.drop_last();
        assert(a =~= a0.push(x));
        assert(a.to_multiset().count(x) > 0);
        assert(b.contains(x));
        let j = choose|j: int| 0 <= j < b.len() && b[j] == x;
        let b0 = b.remove(j);
        assert(a0.to_multiset() =~= b0.to_multiset());
        lemma_map_multiset(a0, b0, f);
        let fa = a.map_values(f);
        let fb = b.map_values(f);
        assert(fa =~= a0.map_values(f).push(f(x)));
        assert(b0.map_values(f) =~= fb.remove(j));
        assert(fb[j] == f(x));
        assert(fb.to_multiset().count(f(x)) > 0) by {
            assert(fb.contains(f(x)));
        }
        assert(fb.to_multiset() =~= fb.remove(j).to_multiset().insert(f(x)));
    }
}

/// Two lists with the same members sort to the same list.
pub proof fn lemma_sort_by_members<A>(a: Seq<A>, b: Seq<A>, leq: spec_fn(A, A) -> bool)
    requires
        total_ordering(leq),
        a.to_multiset() == b.to_multiset(),
    ensures
        a.sort_by(leq) == b.sort_by(leq),
{
    a.lemma_sort_by_ensures(leq);
    b.lemma_sort_by_ensures(leq);
    lemma_sorted_eq(a.sort_by(leq), b.sort_by(leq), leq);
}

/// The arrangement `q` of `1..=n` followed by the arrangement `p`: node `v`
/// goes to `p[q[v - 1] - 1]`.
pub open spec fn compose(q: Seq<usize>, p: Seq<usize>) -> Seq<usize> {
    q.map_values(|v: usize| p[v - 1])
}

/// An arrangement of `1..=n` holds each of `1..=n`, and nothing else.
pub proof fn lemma_arrangement_values(q: Seq<usize>, n: nat)
    requires
        n <= usize::MAX,
        is_arrangement(q, one_to(n)),
    ensures
        q.len() == n,
        forall|i: int| 0 <= i < n ==> 1 <= #[trigger] q[i] <= n,
        forall|v: usize| 1 <= v <= n ==> #[trigger] q.contains(v),
{
    crate::motifs::lemma_one_to(n);
    assert forall|i: int| 0 <= i < n implies 1 <= #[trigger] q[i] <= n by {
        assert(q.to_set().contains(q[i]));
        assert(one_to(n).to_set().contains(q[i]));
        let k = choose|k: int| 0 <= k < n && one_to(n)[k] == q[i];
    }
    assert forall|v: usize| 1 <= v <= n implies #[trigger] q.contains(v) by {
        assert(one_to(n)[v - 1] == v);
        assert(one_to(n).to_set().contains(v));
        assert(q.to_set().contains(v));
    }
}

/// Renaming by `q` and then by `p` renames each node `v` of `1..=n` as
/// `compose(q, p)` does.
pub proof fn lemma_compose_mapping(q: Seq<usize>, p: Seq<usize>, n: nat, v: usize)
    requires
        n <= usize::MAX,
        is_arrangement(q, one_to(n)),
        is_arrangement(p, one_to(n)),
        1 <= v <= n,
    ensures
        1 <= perm_mapping(q)[v] <= n,
        perm_mapping(compose(q, p))[v] == perm_mapping(p)[perm_mapping(q)[v]],
{
    lemma_arrangement_values(q, n);
    assert(1 <= q[v - 1] <= n);
}

/// One edge renamed by `q`, sorted, renamed by `p` and sorted again, is the
/// edge renamed by `compose(q, p)` and sorted.
pub proof fn lemma_edge_compose(e: Seq<usize>, q: Seq<usize>, p: Seq<usize>, n: nat)
    requires
        n <= usize::MAX,
        is_arrangement(q, one_to(n)),
        is_arrangement(p, one_to(n)),
        forall|k: int| 0 <= k < e.len() ==> 1 <= #[trigger] e[k] <= n,
    ensures
        e.map_values(|v: usize| perm_mapping(q)[v]).sort_by(node_le_order()).map_values(
            |v: usize| perm_mapping(p)[v],
        ).sort_by(node_le_order()) == e.map_values(|v: usize| perm_mapping(compose(q, p))[v]).sort_by(
            node_le_order(),
        ),
{
    lemma_orders_total();
    let e1 = e.map_values(|v: usize| perm_mapping(q)[v]);
    let s1 = e1.sort_by(node_le_order());
    e1.lemma_sort_by_ensures(node_le_order());
    lemma_map_multiset(s1, e1, |v: usize| perm_mapping(p)[v]);
    let direct = e.map_values(|v: usize| perm_mapping(compose(q, p))[v]);
    let e2 = e1.map_values(|v: usize| perm_mapping(p)[v]);
    assert forall|k: int| 0 <= k < e.len() implies #[trigger] e2[k] == direct[k] by {
        lemma_compose_mapping(q, p, n, e[k]);
    }
    assert(e2 =~= direct);
    lemma_sort_by_members(s1.map_values(|v: usize| perm_mapping(p)[v]), direct, node_le_order());
}

/// One edge renamed by `m` and sorted.
pub open spec fn edge_renamed(e: Seq<usize>, m: Map<usize, usize>) -> Seq<usize> {
    e.map_values(|v: usize| m[v]).sort_by(node_le_order())
}

/// `relabeled` renames and sorts each edge, then sorts the edges.
pub proof fn lemma_relabeled_edges(g: Seq<Seq<usize>>, m: Map<usize, usize>)
    ensures
        relabeled(g, m) == g.map_values(|e: Seq<usize>| edge_renamed(e, m)).sort_by(nodes_le_order()),
{
    let a = crate::hypergraph::sorted_edge_lists(g.map_values(|e: Seq<usize>| e.map_values(|v: usize| m[v])));
    let b = g.map_values(|e: Seq<usize>| edge_renamed(e, m));
    assert forall|i: int| 0 <= i < g.len() implies #[trigger] a[i] == b[i] by {
        assert(g.map_values(|e: Seq<usize>| e.map_values(|v: usize| m[v]))[i] == g[i].map_values(|v: usize| m[v]));
    }
    assert(a =~= b);
}

/// Relabeling by `q` and then by `p` is relabeling by `compose(q, p)`.
pub proof fn lemma_relabeled_compose(g: Seq<Seq<usize>>, q: Seq<usize>, p: Seq<usize>, n: nat)
    requires
        n <= usize::MAX,
        nodes_within(g, n),
        is_arrangement(q, one_to(n)),
        is_arrangement(p, one_to(n)),
    ensures
        relabeled(relabeled(g, perm_mapping(q)), perm_mapping(p)) == relabeled(g, perm_mapping(compose(q, p))),
{
    lemma_orders_total();
    let mq = perm_mapping(q);
    let mp = perm_mapping(p);
    let mc = perm_mapping(compose(q, p));
    let a = g.map_values(|e: Seq<usize>| edge_renamed(e, mq));
    let h = relabeled(g, mq);
    lemma_relabeled_edges(g, mq);
    lemma_relabeled_edges(h, mp);
    lemma_relabeled_edges(g, mc);
    a.lemma_sort_by_ensures(nodes_le_order());
    lemma_map_multiset(h, a, |e: Seq<usize>| edge_renamed(e, mp));
    let twice = a.map_values(|e: Seq<usize>| edge_renamed(e, mp));
    let direct = g.map_values(|e: Seq<usize>| edge_renamed(e, mc));
    assert forall|i: int| 0 <= i < g.len() implies #[trigger] twice[i] == direct[i] by {
        assert forall|k: int| 0 <= k < g[i].len() implies 1 <= #[trigger] g[i][k] <= n by {}
        lemma_edge_compose(g[i], q, p, n);
    }
    assert(twice =~= direct);
    lemma_sort_by_members(h.map_values(|e: Seq<usize>| edge_renamed(e, mp)), direct, nodes_le_order());
}

/// Following one arrangement of `1..=n` by another gives an arrangement.
pub proof fn lemma_compose_arrangement(q: Seq<usize>, p: Seq<usize>, n: nat)
    requires
        n <= usize::MAX,
        is_arrangement(q, one_to(n)),
        is_arrangement(p, one_to(n)),
    ensures
        is_arrangement(compose(q, p), one_to(n)),
{
    lemma_arrangement_values(q, n);
    lemma_arrangement_values(p, n);
    let c = compose(q, p);
    assert forall|i: int, j: int| 0 <= i < c.len() && 0 <= j < c.len() && i != j implies c[i] != c[j] by {
        assert(q[i] != q[j]);
    }
    assert forall|v: usize| c.to_set().contains(v) implies one_to(n).to_set().contains(v) by {
        let i = choose|i: int| 0 <= i < c.len() && c[i] == v;
        assert(p.to_set().contains(p[q[i] - 1]));
    }
    assert forall|v: usize| one_to(n).to_set().contains(v) implies c.to_set().contains(v) by {
        assert(p.to_set().contains(v));
        let j = choose|j: int| 0 <= j < p.len() && p[j] == v;
        assert(one_to(n)[j] == j + 1);
        assert(q.contains((j + 1) as usize));
        let i = choose|i: int| 0 <= i < q.len() && q[i] == (j + 1) as usize;
        assert(c[i] == v);
    }
    assert(c.to_set() =~= one_to(n).to_set());
}

/// The position of `v` in `q`.
pub open spec fn position(q: Seq<usize>, v: usize) -> int {
    choose|i: int| 0 <= i < q.len() && q[i] == v
}

/// Every arrangement `c` of `1..=n` is `q` followed by some arrangement.
pub proof fn lemma_factor_arrangement(q: Seq<usize>, c: Seq<usize>, n: nat)
    requires
        n <= usize::MAX,
        is_arrangement(q, one_to(n)),
        is_arrangement(c, one_to(n)),
    ensures
        exists|p: Seq<usize>| is_arrangement(p, one_to(n)) && compose(q, p) == c,
{
    lemma_arrangement_values(q, n);
    lemma_arrangement_values(c, n);
    crate::motifs::lemma_one_to(n);
    let p = Seq::new(n, |j: int| c[position(q, (j + 1) as usize)]);
    assert forall|j: int| 0 <= j < n implies 0 <= #[trigger] position(q, (j + 1) as usize) < n && q[position(
        q,
        (j + 1) as usize,
    )] == j + 1 by {
        assert(q.contains((j + 1) as usize));
    }
    assert forall|i: int| 0 <= i < n implies #[trigger] position(q, q[i]) == i by {
        assert(q.contains(q[i]));
    }
    assert forall|i: int, j: int| 0 <= i < p.len() && 0 <= j < p.len() && i != j implies p[i] != p[j] by {
        assert(q[position(q, (i + 1) as usize)] == i + 1);
        assert(q[position(q, (j + 1) as usize)] == j + 1);
    }
    assert forall|v: usize| p.to_set().contains(v) implies one_to(n).to_set().contains(v) by {
        let j = choose|j: int| 0 <= j < p.len() && p[j] == v;
        assert(c.to_set().contains(c[position(q, (j + 1) as usize)]));
    }
    assert forall|v: usize| one_to(n).to_set().contains(v) implies p.to_set().contains(v) by {
        assert(c.to_set().contains(v));
        let i = choose|i: int| 0 <= i < c.len() && c[i] == v;
        assert(p[q[i] - 1] == c[position(q, q[i])]);
        assert(p.contains(v));
    }
    assert(p.to_set() =~= one_to(n).to_set());
    assert forall|i: int| 0 <= i < n implies #[trigger] compose(q, p)[i] == c[i] by {
        assert(p[q[i] - 1] == c[position(q, q[i])]);
    }
    assert(compose(q, p) =~= c);
}

/// A relabeling of `g` by an arrangement of `1..=n` has the same relabelings as `g`.
pub proof fn lemma_isomorphisms_relabel(g: Seq<Seq<usize>>, q: Seq<usize>, n: nat)
    requires
        n <= usize::MAX,
        nodes_within(g, n),
        is_arrangement(q, one_to(n)),
        lists_arrangements(n),
    ensures
        forall|x: Seq<Seq<usize>>|
            #[trigger] isomorphisms(relabeled(g, perm_mapping(q)), n).contains(x) <==> isomorphisms(g, n).contains(x),
{
    let h = relabeled(g, perm_mapping(q));
    let ps = permutations_of(one_to(n), n);
    assert forall|x: Seq<Seq<usize>>| #[trigger] isomorphisms(h, n).contains(x) implies isomorphisms(g, n).contains(x) by {
        let i = choose|i: int| 0 <= i < isomorphisms(h, n).len() && isomorphisms(h, n)[i] == x;
        let p = ps[i];
        assert(ps.contains(p));
        lemma_compose_arrangement(q, p, n);
        lemma_relabeled_compose(g, q, p, n);
        let c = compose(q, p);
        assert(ps.contains(c));
        let j = choose|j: int| 0 <= j < ps.len() && ps[j] == c;
        assert(isomorphisms(g, n)[j] == x);
    }
    assert forall|x: Seq<Seq<usize>>| #[trigger] isomorphisms(g, n).contains(x) implies isomorphisms(h, n).contains(x) by {
        let j = choose|j: int| 0 <= j < isomorphisms(g, n).len() && isomorphisms(g, n)[j] == x;
        let c = ps[j];
        assert(ps.contains(c));
        lemma_factor_arrangement(q, c, n);
        let p = choose|p: Seq<usize>| is_arrangement(p, one_to(n)) && compose(q, p) == c;
        lemma_relabeled_compose(g, q, p, n);
        assert(ps.contains(p));
        let i = choose|i: int| 0 <= i < ps.len() && ps[i] == p;
        assert(isomorphisms(h, n)[i] == x);
    }
}

/// A least relabeling of `g` is a least relabeling of every relabeling of `g`
/// by an arrangement of `1..=n`, and the other way round.
pub proof fn lemma_least_relabeling_relabel(r: Seq<Seq<usize>>, g: Seq<Seq<usize>>, q: Seq<usize>, n: nat)
    requires
        n <= usize::MAX,
        nodes_within(g, n),
        is_arrangement(q, one_to(n)),
        lists_arrangements(n),
    ensures
        is_least_relabeling(r, relabeled(g, perm_mapping(q)), n) <==> is_least_relabeling(r, g, n),
{
    let h = relabeled(g, perm_mapping(q));
    let ih = isomorphisms(h, n);
    let ig = isomorphisms(g, n);
    lemma_isomorphisms_relabel(g, q, n);
    if is_least_relabeling(r, h, n) {
        assert forall|i: int| 0 <= i < ig.len() implies edges_le(r, #[trigger] ig[i]) by {
            assert(ig.contains(ig[i]));
            assert(ih.contains(ig[i]));
        }
    }
    if is_least_relabeling(r, g, n) {
        assert forall|i: int| 0 <= i < ih.len() implies edges_le(r, #[trigger] ih[i]) by {
            assert(ih.contains(ih[i]));
            assert(ig.contains(ih[i]));
        }
    }
}

/// A nonempty list has a least member under a total order.
pub proof fn lemma_least_member<A>(s: Seq<A>, leq: spec_fn(A, A) -> bool)
    requires
        total_ordering(leq),
        s.len() > 0,
    ensures
        exists|x: A| s.contains(x) && forall|i: int| 0 <= i < s.len() ==> #[trigger] leq(x, s[i]),
    decreases s.len(),
{
    if s.len() == 1 {
        assert(s.contains(s[0]));
        assert(leq(s[0], s[0]));
    } else {
        let t = s.drop_last();
        lemma_least_member(t, leq);
        let y = choose|y: A| t.contains(y) && forall|i: int| 0 <= i < t.len() ==> #[trigger] leq(y, t[i]);
        let z = s.last();
        if leq(y, z) {
            assert(s.contains(y));
            assert forall|i: int| 0 <= i < s.len() implies #[trigger] leq(y, s[i]) by {
                if i < t.len() {
                    assert(t[i] == s[i]);
                }
            }
        } else {
            assert(leq(z, y));
            assert(s.contains(z));
            assert forall|i: int| 0 <= i < s.len() implies #[trigger] leq(z, s[i]) by {
                if i < t.len() {
                    assert(t[i] == s[i]);
                    assert(leq(y, t[i]));
                } else {
                    assert(leq(z, z));
                }
            }
        }
    }
}

/// Every hypergraph has a least relabeling.
pub proof fn lemma_least_relabeling_exists(g: Seq<Seq<usize>>, n: nat)
    requires
        n <= usize::MAX,
        lists_arrangements(n),
    ensures
        is_least_relabeling(canonical_form(g, n), g, n),
{
    crate::motifs::lemma_one_to(n);
    lemma_orders_total();
    let ps = permutations_of(one_to(n), n);
    assert(ps.contains(one_to(n)));
    let isos = isomorphisms(g, n);
    assert(isos.len() == ps.len());
    lemma_least_member(isos, edges_le_order());
    let x = choose|x: Seq<Seq<usize>>| isos.contains(x) && forall|i: int| 0 <= i < isos.len() ==> #[trigger] edges_le_order()(x, isos[i]);
    assert forall|i: int| 0 <= i < isos.len() implies edges_le(x, #[trigger] isos[i]) by {
        assert(edges_le_order()(x, isos[i]));
    }
    assert(is_least_relabeling(x, g, n));
}

/// Isomorphic hypergraphs have the same canonical form: relabeling `g` by any
/// arrangement of `1..=n` leaves its least relabeling unchanged.
pub proof fn lemma_canonical_relabel(g: Seq<Seq<usize>>, q: Seq<usize>, n: nat)
    requires
        n <= usize::MAX,
        nodes_within(g, n),
        is_arrangement(q, one_to(n)),
        lists_arrangements(n),
    ensures
        canonical_form(relabeled(g, perm_mapping(q)), n) == canonical_form(g, n),
{
    let c = canonical_form(g, n);
    lemma_least_relabeling_exists(g, n);
    lemma_least_relabeling_relabel(c, g, q, n);
    lemma_canonical_unique(c, relabeled(g, perm_mapping(q)), n);
}

} // verus!
