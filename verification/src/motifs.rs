//! Hyperedges and motifs as sorted node lists, their order, canonical
//! representatives and the motif classes of an order.

use vstd::prelude::*;

verus! {

use vstd::relations::sorted_by;
use std::cmp::Ordering;
use vstd::std_specs::cmp::PartialEqSpec;
use crate::lex::{
    node_le_order,
    nodes_le_order,
    edges_view,
    nodes_equal,
    nodes_less,
    nodes_lt,
    lemma_orders_total,
};
use crate::hypergraph::{sort_nodes, sort_edges, sort_hyperedges, sorted_edge_lists, relabeled, relabel_unweighted};
use crate::lex::{hyperedge_le_order, lemma_hyperedge_orders, edges_le, edges_lt, edges_le_order, edges_order, edges_less, lemma_orders_strict_total};
use crate::collections::{
    permutations,
    permutations_of,
    is_arrangement,
    ordered_arrangements,
    node_mapping_from_perm,
    node_mapping_contents,
    node_set_new,
    node_set_extend,
    node_set_len,
    node_set_contents,
};
use vstd::relations::total_ordering;
use vstd::arithmetic::power2::pow2;
use crate::bits::set32;
use crate::tables::{combos, lemma_combos_elems, lemma_combos_len};
use crate::util::{binom, binom_sum};
use crate::hypergraph::{decoded, selected_edges, mask_connected, small_nodes, is_mask_connected, decode_mask};
use crate::collections::{
    combinations,
    HypergraphSet,
    hypergraph_set_new,
    hypergraph_set_insert,
    hypergraph_set_into_vec,
    hypergraph_set_contents,
    MotifClasses,
    motif_classes_new,
    motif_classes_insert,
    motif_classes_member_count,
    motif_classes_get,
    motif_classes_keys,
    motif_classes_contents,
};

/// A hyperedge: its nodes, in increasing order.
#[derive(Hash, Clone)]
pub struct Hyperedge {
    nodes: Vec<usize>,
}

impl View for Hyperedge {
    type V = Seq<usize>;

    closed spec fn view(&self) -> Seq<usize> {
        self.nodes@
    }
}

/// The node lists of a list of hyperedges.
pub open spec fn hyperedges_view(v: Seq<Hyperedge>) -> Seq<Seq<usize>> {
    v.map_values(|h: Hyperedge| h@)
}

impl Hyperedge {
    /// The hyperedge on `nodes`, which are put in increasing order.
    pub fn new(nodes: Vec<usize>) -> (r: Self)
        ensures
            r@ == nodes@.sort_by(node_le_order()),
    {
        let ghost n0 = nodes@;
        let mut nodes = nodes;
        sort_nodes(&mut nodes);
        proof {
            lemma_orders_total();
            n0.lemma_sort_by_ensures(node_le_order());
            vstd::seq_lib::lemma_sorted_unique(nodes@, n0.sort_by(node_le_order()), node_le_order());
        }
        Self { nodes }
    }
}

impl PartialEq for Hyperedge {
    fn eq(&self, other: &Self) -> (r: bool) {
        nodes_equal(&self.nodes, &other.nodes)
    }
}

impl vstd::std_specs::cmp::PartialEqSpecImpl for Hyperedge {
    open spec fn obeys_eq_spec() -> bool {
        true
    }

    open spec fn eq_spec(&self, other: &Self) -> bool {
        self@ == other@
    }
}

impl Eq for Hyperedge {}

/// How two hyperedges compare: the one with fewer nodes first, then by
/// their node lists, lexicographically.
pub open spec fn hyperedge_order(a: Seq<usize>, b: Seq<usize>) -> Ordering {
    if a.len() < b.len() {
        Ordering::Less
    } else if b.len() < a.len() {
        Ordering::Greater
    } else if a == b {
        Ordering::Equal
    } else if nodes_lt(a, b) {
        Ordering::Less
    } else {
        Ordering::Greater
    }
}

impl PartialOrd for Hyperedge {
    fn partial_cmp(&self, other: &Self) -> (r: Option<Ordering>) {
        if self.nodes.len() < other.nodes.len() {
            return Some(Ordering::Less);
        } else if other.nodes.len() < self.nodes.len() {
            return Some(Ordering::Greater);
        }
        if nodes_equal(&self.nodes, &other.nodes) {
            Some(Ordering::Equal)
        } else if nodes_less(&self.nodes, &other.nodes) {
            Some(Ordering::Less)
        } else {
            Some(Ordering::Greater)
        }
    }
}

impl vstd::std_specs::cmp::PartialOrdSpecImpl for Hyperedge {
    open spec fn obeys_partial_cmp_spec() -> bool {
        true
    }

    open spec fn partial_cmp_spec(&self, other: &Self) -> Option<Ordering> {
        Some(hyperedge_order(self@, other@))
    }
}

/// A motif: its hyperedges, fewer nodes first, then in lexicographic order
/// of their node lists.
#[derive(Hash, Clone)]
pub struct Motif {
    edges: Vec<Hyperedge>,
}

impl View for Motif {
    type V = Seq<Seq<usize>>;

    closed spec fn view(&self) -> Seq<Seq<usize>> {
        hyperedges_view(self.edges@)
    }
}

/// The edge lists of a list of motifs.
pub open spec fn motifs_view(v: Seq<Motif>) -> Seq<Seq<Seq<usize>>> {
    v.map_values(|m: Motif| m@)
}

impl Motif {
    /// The motif with hyperedges `edges`, put in the order of hyperedges:
    /// fewer nodes first, then lexicographically.
    pub fn new(edges: Vec<Hyperedge>) -> (r: Self)
        ensures
            r@ == hyperedges_view(edges@).sort_by(hyperedge_le_order()),
    {
        let ghost h0 = hyperedges_view(edges@);
        let mut edges = edges;
        let mut raw: Vec<Vec<usize>> = Vec::new();
        proof {
            broadcast use vstd::seq_lib::group_to_multiset_ensures;
            broadcast use vstd::multiset::group_multiset_axioms;
            assert(hyperedges_view(edges@) =~= h0.subrange(0, edges@.len() as int));
            assert(edges_view(raw@) =~= Seq::<Seq<usize>>::empty());
            assert(edges_view(raw@).to_multiset() =~= vstd::multiset::Multiset::<Seq<usize>>::empty());
            assert(h0.subrange(edges@.len() as int, h0.len() as int) =~= Seq::<Seq<usize>>::empty());
        }
        while edges.len() > 0
            invariant
                edges@.len() <= h0.len(),
                hyperedges_view(edges@) == h0.subrange(0, edges@.len() as int),
                edges_view(raw@).to_multiset() == h0.subrange(edges@.len() as int, h0.len() as int).to_multiset(),
            decreases edges.len(),
        {
            let ghost k = edges@.len();
            let ghost es = edges@;
            let h = edges.pop().unwrap();
            let ghost rs = edges_view(raw@);
            raw.push(h.nodes);
            proof {
                broadcast use vstd::seq_lib::group_to_multiset_ensures;
                assert(hyperedges_view(edges@) =~= h0.subrange(0, edges@.len() as int));
                assert(hyperedges_view(es)[k - 1] == h0.subrange(0, k as int)[k - 1]);
                assert(h0[k - 1] == h@);
                assert(edges_view(raw@) =~= rs.push(h@));
                assert(h0.subrange(k - 1, h0.len() as int) =~= h0.subrange(k as int, h0.len() as int).insert(0, h@));
                crate::hypergraph::lemma_insert_multiset(h0.subrange(k as int, h0.len() as int), 0, h@);
            }
        }
        let sorted = sort_hyperedges(raw);
        let ghost sv = edges_view(sorted@);
        let mut out: Vec<Hyperedge> = Vec::new();
        let mut sorted = sorted;
        let mut rest: Vec<Vec<usize>> = Vec::new();
        // move the sorted lists into hyperedges, last first
        while sorted.len() > 0
            invariant
                sorted@.len() <= sv.len(),
                edges_view(sorted@) == sv.subrange(0, sorted@.len() as int),
                edges_view(rest@) == sv.subrange(sorted@.len() as int, sv.len() as int).reverse(),
            decreases sorted.len(),
        {
            let ghost k = sorted@.len();
            let ghost ss = sorted@;
            let x = sorted.pop().unwrap();
            let ghost r0 = edges_view(rest@);
            rest.push(x);
            proof {
                assert(edges_view(ss)[k - 1] == sv.subrange(0, k as int)[k - 1]);
                assert(x@ == sv[k - 1]);
                assert(edges_view(sorted@) =~= sv.subrange(0, sorted@.len() as int));
                assert(edges_view(rest@) =~= r0.push(x@));
                assert(sv.subrange(k - 1, sv.len() as int).reverse() =~= sv.subrange(k as int, sv.len() as int).reverse().push(sv[k - 1]));
            }
        }
        proof {
            assert(sv.subrange(0, sv.len() as int) =~= sv);
        }
        while rest.len() > 0
            invariant
                rest@.len() <= sv.len(),
                edges_view(rest@) == sv.subrange(out@.len() as int, sv.len() as int).reverse(),
                hyperedges_view(out@) == sv.subrange(0, out@.len() as int),
                out@.len() + rest@.len() == sv.len(),
            decreases rest.len(),
        {
            let ghost k = out@.len();
            let ghost rs = rest@;
            let x = rest.pop().unwrap();
            let ghost o0 = hyperedges_view(out@);
            out.push(Hyperedge { nodes: x });
            proof {
                let n = rs.len();
                assert(edges_view(rs)[n - 1] == sv.subrange(k as int, sv.len() as int).reverse()[n - 1]);
                assert(sv.subrange(k as int, sv.len() as int).reverse()[n - 1] == sv[k as int]);
                assert(x@ == sv[k as int]);
                assert(edges_view(rest@) =~= edges_view(rs).drop_last());
                assert(edges_view(rest@) =~= sv.subrange(k + 1 as int, sv.len() as int).reverse());
                assert(hyperedges_view(out@) =~= o0.push(sv[k as int]));
                assert(sv.subrange(0, k + 1 as int) =~= sv.subrange(0, k as int).push(sv[k as int]));
            }
        }
        proof {
            assert(hyperedges_view(out@) =~= sv);
            assert(h0.subrange(0, h0.len() as int) =~= h0);
            lemma_hyperedge_orders();
            h0.lemma_sort_by_ensures(hyperedge_le_order());
            vstd::seq_lib::lemma_sorted_unique(sv, h0.sort_by(hyperedge_le_order()), hyperedge_le_order());
        }
        Self { edges: out }
    }

    /// The motif on the edges `edges`, each put in increasing order, the
    /// edges then in the order of hyperedges (fewer nodes first, then
    /// lexicographically).
    pub fn from_vec(edges: Vec<Vec<usize>>) -> (r: Self)
        ensures
            r@ == sorted_edge_lists(edges_view(edges@)).sort_by(hyperedge_le_order()),
    {
        let ghost e0 = edges_view(edges@);
        let mut edges = edges;
        let mut hs: Vec<Hyperedge> = Vec::new();
        proof {
            assert(edges_view(edges@) =~= e0.subrange(0, edges@.len() as int));
        }
        // the hyperedges, from the last list to the first
        while edges.len() > 0
            invariant
                edges@.len() <= e0.len(),
                edges_view(edges@) == e0.subrange(0, edges@.len() as int),
                hyperedges_view(hs@) == sorted_edge_lists(e0.subrange(edges@.len() as int, e0.len() as int)).reverse(),
            decreases edges.len(),
        {
            let ghost k = edges@.len();
            let ghost es = edges@;
            let x = edges.pop().unwrap();
            let ghost h0 = hyperedges_view(hs@);
            hs.push(Hyperedge::new(x));
            proof {
                assert(edges_view(es)[k - 1] == e0.subrange(0, k as int)[k - 1]);
                assert(x@ == e0[k - 1]);
                assert(edges_view(edges@) =~= e0.subrange(0, edges@.len() as int));
                assert(hyperedges_view(hs@) =~= h0.push(x@.sort_by(node_le_order())));
                assert(sorted_edge_lists(e0.subrange(k - 1, e0.len() as int)).reverse() =~= sorted_edge_lists(e0.subrange(k as int, e0.len() as int)).reverse().push(e0[k - 1].sort_by(node_le_order())));
            }
        }
        let r = Self::new(hs);
        proof {
            let a = sorted_edge_lists(e0);
            assert(e0.subrange(0, e0.len() as int) =~= e0);
            let b = a.reverse();
            assert(hyperedges_view(hs@) =~= b);
            a.lemma_reverse_to_multiset();
            lemma_hyperedge_orders();
            a.lemma_sort_by_ensures(hyperedge_le_order());
            b.lemma_sort_by_ensures(hyperedge_le_order());
            vstd::seq_lib::lemma_sorted_unique(
                a.sort_by(hyperedge_le_order()),
                b.sort_by(hyperedge_le_order()),
                hyperedge_le_order(),
            );
        }
        r
    }
}

impl PartialEq for Motif {
    fn eq(&self, other: &Self) -> (r: bool) {
        if self.edges.len() != other.edges.len() {
            proof {
                assert(self@.len() != other@.len());
            }
            return false;
        }
        let mut i: usize = 0;
        while i < self.edges.len()
            invariant
                i <= self.edges.len(),
                self.edges.len() == other.edges.len(),
                forall|j: int| 0 <= j < i ==> self@[j] == other@[j],
            decreases self.edges.len() - i,
        {
            if !nodes_equal(&self.edges[i].nodes, &other.edges[i].nodes) {
                proof {
                    assert(self@[i as int] != other@[i as int]);
                }
                return false;
            }
            i += 1;
        }
        proof {
            assert(self@ =~= other@);
        }
        true
    }
}

impl vstd::std_specs::cmp::PartialEqSpecImpl for Motif {
    open spec fn obeys_eq_spec() -> bool {
        true
    }

    open spec fn eq_spec(&self, other: &Self) -> bool {
        self@ == other@
    }
}

impl Eq for Motif {}

/// How two motifs compare: their hyperedges, one by one, by
/// `hyperedge_order`; a motif that runs out first comes first.
pub open spec fn motif_order(a: Seq<Seq<usize>>, b: Seq<Seq<usize>>) -> Ordering
    decreases a.len(),
{
    if a.len() == 0 {
        if b.len() == 0 {
            Ordering::Equal
        } else {
            Ordering::Less
        }
    } else if b.len() == 0 {
        Ordering::Greater
    } else if hyperedge_order(a[0], b[0]) != Ordering::Equal {
        hyperedge_order(a[0], b[0])
    } else {
        motif_order(a.drop_first(), b.drop_first())
    }
}

impl PartialOrd for Motif {
    fn partial_cmp(&self, other: &Self) -> (r: Option<Ordering>) {
        let ghost a = self@;
        let ghost b = other@;
        let mut i: usize = 0;
        let ghost mut gi: int = 0;
        proof {
            assert(a.skip(0) =~= a);
            assert(b.skip(0) =~= b);
        }
        while i < self.edges.len() && i < other.edges.len()
            invariant
                gi == i,
                i <= self.edges.len(),
                i <= other.edges.len(),
                a == self@,
                b == other@,
                motif_order(a, b) == motif_order(a.skip(gi), b.skip(gi)),
            decreases self.edges.len() - i,
        {
            let c = self.edges[i].partial_cmp(&other.edges[i]);
            proof {
                assert(a.skip(gi)[0] == self.edges@[gi]@);
                assert(b.skip(gi)[0] == other.edges@[gi]@);
            }
            match c {
                Some(Ordering::Equal) => {},
                Some(o) => {
                    return Some(o);
                },
                None => {},
            }
            proof {
                assert(a.skip(gi).drop_first() =~= a.skip(gi + 1));
                assert(b.skip(gi).drop_first() =~= b.skip(gi + 1));
                gi = gi + 1;
            }
            i += 1;
        }
        if i < other.edges.len() {
            Some(Ordering::Less)
        } else if i < self.edges.len() {
            Some(Ordering::Greater)
        } else {
            Some(Ordering::Equal)
        }
    }
}

impl vstd::std_specs::cmp::PartialOrdSpecImpl for Motif {
    open spec fn obeys_partial_cmp_spec() -> bool {
        true
    }

    open spec fn partial_cmp_spec(&self, other: &Self) -> Option<Ordering> {
        Some(motif_order(self@, other@))
    }
}


/// The edge lists of a list of hypergraphs.
pub open spec fn hypergraphs_view(v: Seq<Vec<Vec<usize>>>) -> Seq<Seq<Seq<usize>>> {
    v.map_values(|x: Vec<Vec<usize>>| edges_view(x@))
}

/// The nodes of the edges of `g`.
pub open spec fn all_nodes(g: Seq<Seq<usize>>) -> Set<usize> {
    Set::new(
        |v: usize|
            exists|i: int, p: int| #![trigger g[i][p]] 0 <= i < g.len() && 0 <= p < g[i].len() && g[i][p] == v,
    )
}

/// The nodes `1..=n`, in order.
pub open spec fn one_to(n: nat) -> Seq<usize> {
    Seq::new(n, |i: int| (i + 1) as usize)
}

/// The renaming of node `i` to `p[i - 1]`, for `i` in `1..=p.len()`.
pub open spec fn perm_mapping(p: Seq<usize>) -> Map<usize, usize> {
    Map::new(|i: usize| 1 <= i <= p.len(), |i: usize| p[i - 1])
}

/// The relabelings of `g` by the arrangements of `1..=n`, in the order in
/// which `Itertools::permutations` yields the arrangements.
pub open spec fn isomorphisms(g: Seq<Seq<usize>>, n: nat) -> Seq<Seq<Seq<usize>>> {
    permutations_of(one_to(n), n).map_values(|p: Seq<usize>| relabeled(g, perm_mapping(p)))
}

/// The arrangements that `permutations_of` yields for `1..=n` are exactly
/// the arrangements of `1..=n`.
pub open spec fn lists_arrangements(n: nat) -> bool {
    forall|p: Seq<usize>| #[trigger] permutations_of(one_to(n), n).contains(p) <==> is_arrangement(p, one_to(n))
}

/// How many nodes are renamed: `n` when given, else the number of distinct
/// nodes of `g`.
pub open spec fn node_count(g: Seq<Seq<usize>>, n: Option<usize>) -> nat {
    match n {
        Some(k) => k as nat,
        None => all_nodes(g).len(),
    }
}

/// The nodes of `g` lie in `1..=n`.
pub open spec fn nodes_within(g: Seq<Seq<usize>>, n: nat) -> bool {
    forall|i: int, p: int| 0 <= i < g.len() && 0 <= p < g[i].len() ==> 1 <= #[trigger] g[i][p] <= n
}

/// `r` is the least relabeling of `g` (lexicographically).
pub open spec fn is_least_relabeling(r: Seq<Seq<usize>>, g: Seq<Seq<usize>>, n: nat) -> bool {
    &&& isomorphisms(g, n).contains(r)
    &&& forall|i: int| 0 <= i < isomorphisms(g, n).len() ==> edges_le(r, #[trigger] isomorphisms(g, n)[i])
}

/// The least relabeling of `g`.
pub open spec fn canonical_form(g: Seq<Seq<usize>>, n: nat) -> Seq<Seq<usize>> {
    choose|r: Seq<Seq<usize>>| is_least_relabeling(r, g, n)
}

/// There is one least relabeling.
pub proof fn lemma_canonical_unique(r: Seq<Seq<usize>>, g: Seq<Seq<usize>>, n: nat)
    requires
        is_least_relabeling(r, g, n),
    ensures
        canonical_form(g, n) == r,
{
    let c = canonical_form(g, n);
    assert(is_least_relabeling(c, g, n));
    let isos = isomorphisms(g, n);
    let i = choose|i: int| 0 <= i < isos.len() && isos[i] == c;
    let j = choose|j: int| 0 <= j < isos.len() && isos[j] == r;
    assert(edges_le(r, isos[i]));
    assert(edges_le(c, isos[j]));
    crate::lex::lemma_orders_total();
    assert(edges_le_order()(r, c) && edges_le_order()(c, r));
}

/// The identity is an arrangement of `1..=n`, which has no repeats.
pub proof fn lemma_one_to(n: nat)
    requires
        n <= usize::MAX,
    ensures
        one_to(n).no_duplicates(),
        is_arrangement(one_to(n), one_to(n)),
        one_to(n).len() == n,
        forall|i: int| 0 <= i < n ==> #[trigger] one_to(n)[i] == i + 1,
{
    assert forall|i: int, j: int| 0 <= i < n && 0 <= j < n && i != j implies one_to(n)[i] != one_to(n)[j] by {
        assert(one_to(n)[i] == i + 1);
        assert(one_to(n)[j] == j + 1);
    }
}

/// The number of nodes to rename (see `node_count`).
fn resolve_node_count(hg: &Vec<Vec<usize>>, n: Option<usize>) -> (r: usize)
    ensures
        r == node_count(edges_view(hg@), n),
{
    match n {
        Some(k) => k,
        None => {
            let ghost g = edges_view(hg@);
            let mut distinct = node_set_new();
            let mut i: usize = 0;
            proof {
                assert(all_nodes(g.subrange(0, 0)) =~= Set::<usize>::empty());
            }
            while i < hg.len()
                invariant
                    i <= hg.len(),
                    g == edges_view(hg@),
                    node_set_contents(distinct) == all_nodes(g.subrange(0, i as int)),
                decreases hg.len() - i,
            {
                let ghost before = node_set_contents(distinct);
                node_set_extend(&mut distinct, &hg[i]);
                proof {
                    let a = g.subrange(0, i + 1);
                    let b = g.subrange(0, i as int);
                    assert(all_nodes(a) =~= all_nodes(b).union(hg@[i as int]@.to_set())) by {
                        assert forall|v: usize| #[trigger] all_nodes(a).contains(v) == all_nodes(b).union(hg@[i as int]@.to_set()).contains(v) by {
                            if all_nodes(a).contains(v) {
                                let (x, p) = choose|x: int, p: int| #![trigger a[x][p]] 0 <= x < a.len() && 0 <= p < a[x].len() && a[x][p] == v;
                                if x < i {
                                    assert(b[x][p] == v);
                                } else {
                                    assert(hg@[i as int]@[p] == v);
                                    assert(hg@[i as int]@.contains(v));
                                }
                            }
                            if all_nodes(b).contains(v) {
                                let (x, p) = choose|x: int, p: int| #![trigger b[x][p]] 0 <= x < b.len() && 0 <= p < b[x].len() && b[x][p] == v;
                                assert(a[x][p] == v);
                            }
                            if hg@[i as int]@.to_set().contains(v) {
                                let p = choose|p: int| 0 <= p < hg@[i as int]@.len() && hg@[i as int]@[p] == v;
                                assert(a[i as int][p] == v);
                            }
                        }
                    }
                }
                i += 1;
            }
            proof {
                assert(g.subrange(0, hg.len() as int) =~= g);
            }
            node_set_len(&distinct)
        },
    }
}

/// The list `1..=n`.
fn one_to_vec(n: usize) -> (r: Vec<usize>)
    ensures
        r@ == one_to(n as nat),
{
    let mut v: Vec<usize> = Vec::new();
    let mut i: usize = 0;
    while i < n
        invariant
            i <= n,
            v@ == one_to(i as nat),
        decreases n - i,
    {
        v.push(i + 1);
        proof {
            assert(v@ =~= one_to((i + 1) as nat));
        }
        i += 1;
    }
    v
}

/// All relabelings of `hg` by the arrangements of `1..=n` (`n` defaults to
/// the number of distinct nodes of `hg`), each sorted.
pub fn enum_isomorphisms(hg: &Vec<Vec<usize>>, n: Option<usize>) -> (r: Vec<Vec<Vec<usize>>>)
    requires
        nodes_within(edges_view(hg@), node_count(edges_view(hg@), n)),
    ensures
        hypergraphs_view(r@) == isomorphisms(edges_view(hg@), node_count(edges_view(hg@), n)),
        lists_arrangements(node_count(edges_view(hg@), n)),
        permutations_of(one_to(node_count(edges_view(hg@), n)), node_count(edges_view(hg@), n))
            == ordered_arrangements(one_to(node_count(edges_view(hg@), n))),
{
    let ghost g = edges_view(hg@);
    let k = resolve_node_count(hg, n);
    let base = one_to_vec(k);
    let perms = permutations(&base, k);
    let ghost ps = edges_view(perms@);
    let ghost isos = isomorphisms(g, k as nat);
    proof {
        lemma_one_to(k as nat);
    }
    let mut labelings: Vec<Vec<Vec<usize>>> = Vec::new();
    let mut i: usize = 0;
    while i < perms.len()
        invariant
            i <= perms.len(),
            g == edges_view(hg@),
            ps == edges_view(perms@),
            ps == permutations_of(one_to(k as nat), k as nat),
            isos == isomorphisms(g, k as nat),
            forall|j: int| 0 <= j < perms@.len() ==> (#[trigger] perms@[j])@.len() == k,
            nodes_within(g, k as nat),
            hypergraphs_view(labelings@) == isos.subrange(0, i as int),
        decreases perms.len() - i,
    {
        let mapping = node_mapping_from_perm(&perms[i]);
        proof {
            assert(node_mapping_contents(mapping) == perm_mapping(ps[i as int]));
            assert forall|x: int, p: int| 0 <= x < hg.len() && 0 <= p < hg@[x].len() implies node_mapping_contents(mapping).contains_key(#[trigger] hg@[x]@[p]) by {
                assert(g[x][p] == hg@[x]@[p]);
            }
        }
        let rel = relabel_unweighted(hg, &mapping);
        let ghost l0 = hypergraphs_view(labelings@);
        labelings.push(rel);
        proof {
            assert(hypergraphs_view(labelings@) =~= l0.push(edges_view(rel@)));
            assert(isos.subrange(0, i + 1) =~= isos.subrange(0, i as int).push(isos[i as int]));
        }
        i += 1;
    }
    proof {
        assert(isos.subrange(0, perms.len() as int) =~= isos);
    }
    labelings
}

/// The least relabeling of `hg` by the arrangements of `1..=n` (`n`
/// defaults to the number of distinct nodes of `hg`), in lexicographic order.
pub fn get_canonical_representative(hg: &Vec<Vec<usize>>, n: Option<usize>) -> (r: Vec<Vec<usize>>)
    requires
        nodes_within(edges_view(hg@), node_count(edges_view(hg@), n)),
    ensures
        is_least_relabeling(edges_view(r@), edges_view(hg@), node_count(edges_view(hg@), n)),
        edges_view(r@) == canonical_form(edges_view(hg@), node_count(edges_view(hg@), n)),
        lists_arrangements(node_count(edges_view(hg@), n)),
        node_count(edges_view(hg@), n) <= usize::MAX,
{
    let ghost g = edges_view(hg@);
    let k = resolve_node_count(hg, n);
    let base = one_to_vec(k);
    let perms = permutations(&base, k);
    let ghost ps = edges_view(perms@);
    let ghost isos = isomorphisms(g, k as nat);
    proof {
        lemma_one_to(k as nat);
        assert(edges_view(perms@).contains(one_to(k as nat)));
        crate::lex::lemma_orders_total();
        lemma_orders_strict_total();
    }
    let mut best: Option<Vec<Vec<usize>>> = None;
    let mut i: usize = 0;
    while i < perms.len()
        invariant
            i <= perms.len(),
            perms.len() > 0,
            g == edges_view(hg@),
            ps == edges_view(perms@),
            ps == permutations_of(one_to(k as nat), k as nat),
            isos == isomorphisms(g, k as nat),
            forall|j: int| 0 <= j < perms@.len() ==> (#[trigger] perms@[j])@.len() == k,
            nodes_within(g, k as nat),
            total_ordering(edges_le_order()),
            crate::lex::strict_total(edges_order()),
            i == 0 <==> best is None,
            best matches Some(b) ==> {
                &&& isos.subrange(0, i as int).contains(edges_view(b@))
                &&& forall|j: int| 0 <= j < i ==> edges_le(edges_view(b@), #[trigger] isos[j])
            },
        decreases perms.len() - i,
    {
        let mapping = node_mapping_from_perm(&perms[i]);
        proof {
            assert(node_mapping_contents(mapping) == perm_mapping(ps[i as int]));
            assert forall|x: int, p: int| 0 <= x < hg.len() && 0 <= p < hg@[x].len() implies node_mapping_contents(mapping).contains_key(#[trigger] hg@[x]@[p]) by {
                assert(g[x][p] == hg@[x]@[p]);
            }
        }
        let rel = relabel_unweighted(hg, &mapping);
        let ghost rv = edges_view(rel@);
        proof {
            assert(rv == isos[i as int]);
        }
        let ghost bopt = best;
        let take = match &best {
            None => true,
            Some(b) => edges_less(&rel, b),
        };
        if take {
            proof {
                if let Some(b) = bopt {
                    let bv = edges_view(b@);
                    assert forall|j: int| 0 <= j < i + 1 implies edges_le(rv, #[trigger] isos[j]) by {
                        if j < i {
                            assert(edges_le(bv, isos[j]));
                            if bv != isos[j] {
                                assert(edges_order()(rv, bv) && edges_order()(bv, isos[j]));
                            }
                        }
                    }
                }
                assert(isos.subrange(0, i + 1)[i as int] == rv);
            }
            best = Some(rel);
        } else {
            proof {
                if let Some(b) = bopt {
                    let bv = edges_view(b@);
                    assert(edges_le(bv, rv)) by {
                        if bv != rv {
                            assert(edges_order()(bv, rv) || edges_order()(rv, bv));
                        }
                    }
                    let x = choose|x: int| 0 <= x < i && isos.subrange(0, i as int)[x] == bv;
                    assert(isos.subrange(0, i + 1)[x] == bv);
                }
            }
        }
        i += 1;
    }
    proof {
        assert(isos.subrange(0, perms.len() as int) =~= isos);
    }
    match best {
        Some(b) => {
            proof {
                let bv = edges_view(b@);
                assert(is_least_relabeling(bv, g, k as nat));
                lemma_canonical_unique(bv, g, k as nat);
            }
            b
        },
        None => {
            proof {
                assert(false);
            }
            Vec::new()
        },
    }
}


/// The `r`-node combinations of `1..=n`, each in increasing order, in
/// lexicographic order.
pub open spec fn combos_of(n: nat, r: nat) -> Seq<Seq<usize>> {
    combos(0, n as int, r).map_values(|c: Seq<int>| c.map_values(|j: int| one_to(n)[j]))
}

/// The combinations of `1..=n` of sizes `r` down to 2.
pub open spec fn edges_from(n: nat, r: nat) -> Seq<Seq<usize>>
    decreases r,
{
    if r < 2 {
        Seq::empty()
    } else {
        combos_of(n, r) + edges_from(n, (r - 1) as nat)
    }
}

/// All the hyperedges on nodes `1..=n`, in lexicographic order.
pub open spec fn all_edges(n: nat) -> Seq<Seq<usize>> {
    edges_from(n, n).sort_by(nodes_le_order())
}

/// The least relabelings of the connected motifs numbered below `lo` (a motif
/// being numbered by the set of its edges in `all_edges(n)`).
pub open spec fn reps_below(n: nat, lo: int) -> Set<Seq<Seq<usize>>> {
    Set::new(
        |c: Seq<Seq<usize>>|
            exists|m: u32|
                #![trigger mask_connected(m, all_edges(n), n)]
                m < lo && mask_connected(m, all_edges(n), n) && c == canonical_form(decoded(m, all_edges(n)), n),
    )
}

/// The canonical representatives of the classes of connected motifs on `n` nodes.
pub open spec fn class_reps(n: nat) -> Set<Seq<Seq<usize>>> {
    reps_below(n, pow2(all_edges(n).len()) as int)
}

/// The motif of a hypergraph on `1..=n`: its nodes renumbered from 0, each
/// edge sorted, the edges in the order of hyperedges.
pub open spec fn motif_form(c: Seq<Seq<usize>>) -> Seq<Seq<usize>> {
    sorted_edge_lists(c.map_values(|e: Seq<usize>| e.map_values(|x: usize| (x - 1) as usize))).sort_by(
        hyperedge_le_order(),
    )
}

/// The motifs of the relabelings of `c`.
pub open spec fn class_motifs(c: Seq<Seq<usize>>, n: nat) -> Seq<Seq<Seq<usize>>> {
    isomorphisms(c, n).map_values(|g: Seq<Seq<usize>>| motif_form(g))
}

/// Sorting keeps the members.
pub proof fn lemma_sort_members<A>(s: Seq<A>, leq: spec_fn(A, A) -> bool, x: A)
    requires
        total_ordering(leq),
        s.sort_by(leq).contains(x),
    ensures
        s.contains(x),
{
    s.lemma_sort_by_ensures(leq);
}

/// The combinations of `1..=n` have their nodes in `1..=n`.
pub proof fn lemma_edges_from_nodes(n: nat, r: nat)
    requires
        n <= usize::MAX,
    ensures
        nodes_within(edges_from(n, r), n),
    decreases r,
{
    if r >= 2 {
        lemma_edges_from_nodes(n, (r - 1) as nat);
        lemma_combos_elems(0, n as int, r);
        let a = combos_of(n, r);
        let b = edges_from(n, (r - 1) as nat);
        assert forall|i: int, p: int| 0 <= i < a.len() + b.len() && 0 <= p < (a + b)[i].len() implies 1 <= #[trigger] (a + b)[i][p] <= n by {
            if i < a.len() {
                let c = combos(0, n as int, r)[i];
                assert(0 <= c[p] < n);
                assert(a[i][p] == one_to(n)[c[p]]);
            } else {
                assert((a + b)[i] == b[i - a.len()]);
            }
        }
    }
}

/// The number of combinations of sizes `r` down to 2.
pub proof fn lemma_edges_from_len(n: nat, r: nat)
    ensures
        edges_from(n, r).len() == binom_sum(n, 2, r as int),
    decreases r,
{
    if r >= 2 {
        lemma_edges_from_len(n, (r - 1) as nat);
        lemma_combos_len(0, n as int, r);
    } else {
        assert(binom_sum(n, 2, r as int) == 0);
    }
}

/// There are 1, 4, 11 and 26 hyperedges on 2, 3, 4 and 5 nodes.
pub proof fn lemma_all_edges_len(n: nat)
    requires
        2 <= n <= 5,
    ensures
        all_edges(n).len() == edges_from(n, n).len(),
        all_edges(n).len() <= 26,
{
    lemma_edges_from_len(n, n);
    crate::lex::lemma_orders_total();
    let a = edges_from(n, n);
    a.lemma_sort_by_ensures(nodes_le_order());
    assert(a.len() == a.to_multiset().len()) by {
        broadcast use vstd::seq_lib::group_to_multiset_ensures;
    }
    assert(a.sort_by(nodes_le_order()).len() == a.sort_by(nodes_le_order()).to_multiset().len()) by {
        broadcast use vstd::seq_lib::group_to_multiset_ensures;
    }
    reveal_with_fuel(binom, 7);
    assert(binom(2, 2) == 1);
    assert(binom(3, 2) == 3 && binom(3, 3) == 1);
    assert(binom(4, 2) == 6 && binom(4, 3) == 4 && binom(4, 4) == 1);
    assert(binom(5, 2) == 10 && binom(5, 3) == 10 && binom(5, 4) == 5 && binom(5, 5) == 1);
    assert(binom_sum(n, 2, 1) == 0);
    assert(binom_sum(n, 2, 2) == binom(n, 2));
    assert(binom_sum(n, 2, 3) == binom_sum(n, 2, 2) + binom(n, 3));
    assert(binom_sum(n, 2, 4) == binom_sum(n, 2, 3) + binom(n, 4));
    assert(binom_sum(n, 2, 5) == binom_sum(n, 2, 4) + binom(n, 5));
}

/// The edges of a relabeling by an arrangement of `1..=n` have their nodes in `1..=n`.
pub proof fn lemma_relabeled_within(g: Seq<Seq<usize>>, p: Seq<usize>, n: nat)
    requires
        nodes_within(g, n),
        is_arrangement(p, one_to(n)),
        n <= usize::MAX,
    ensures
        nodes_within(relabeled(g, perm_mapping(p)), n),
{
    let m = perm_mapping(p);
    let mapped = g.map_values(|e: Seq<usize>| e.map_values(|v: usize| m[v]));
    let sl = sorted_edge_lists(mapped);
    crate::lex::lemma_orders_total();
    lemma_one_to(n);
    assert forall|i: int, q: int| 0 <= i < sl.len() && 0 <= q < sl[i].len() implies 1 <= #[trigger] sl[i][q] <= n by {
        let e = mapped[i];
        e.lemma_sort_by_ensures(crate::lex::node_le_order());
        assert(sl[i] == e.sort_by(crate::lex::node_le_order()));
        let x = sl[i][q];
        assert(sl[i].contains(x));
        assert(e.contains(x));
        let t = choose|t: int| 0 <= t < e.len() && e[t] == x;
        let v = g[i][t];
        assert(1 <= v <= n);
        assert(x == p[v - 1]);
        assert(p.to_set().contains(x));
        assert(one_to(n).to_set().contains(x));
        let u = choose|u: int| 0 <= u < one_to(n).len() && one_to(n)[u] == x;
    }
    let r = sl.sort_by(nodes_le_order());
    sl.lemma_sort_by_ensures(nodes_le_order());
    assert forall|i: int, q: int| 0 <= i < r.len() && 0 <= q < r[i].len() implies 1 <= #[trigger] r[i][q] <= n by {
        assert(r.contains(r[i]));
        let j = choose|j: int| 0 <= j < sl.len() && sl[j] == r[i];
        assert(sl[j][q] == r[i][q]);
    }
}

/// A least relabeling of a hypergraph on `1..=n` has its nodes in `1..=n`.
pub proof fn lemma_canonical_within(g: Seq<Seq<usize>>, n: nat)
    requires
        nodes_within(g, n),
        n <= usize::MAX,
        exists|r: Seq<Seq<usize>>| is_least_relabeling(r, g, n),
        forall|p: Seq<usize>| #[trigger] permutations_of(one_to(n), n).contains(p) ==> is_arrangement(p, one_to(n)),
    ensures
        nodes_within(canonical_form(g, n), n),
{
    let c = canonical_form(g, n);
    let isos = isomorphisms(g, n);
    let i = choose|i: int| 0 <= i < isos.len() && isos[i] == c;
    let p = permutations_of(one_to(n), n)[i];
    assert(permutations_of(one_to(n), n).contains(p));
    lemma_relabeled_within(g, p, n);
}

/// The motif of hypergraph `g`, whose nodes are at least 1.
fn to_motif(g: &Vec<Vec<usize>>) -> (r: Motif)
    requires
        forall|i: int, p: int| 0 <= i < g@.len() && 0 <= p < g@[i]@.len() ==> 1 <= #[trigger] g@[i]@[p],
    ensures
        r@ == motif_form(edges_view(g@)),
{
    let ghost gv = edges_view(g@);
    let ghost shifted = gv.map_values(|e: Seq<usize>| e.map_values(|x: usize| (x - 1) as usize));
    let mut hs: Vec<Hyperedge> = Vec::new();
    let mut i: usize = 0;
    while i < g.len()
        invariant
            i <= g.len(),
            gv == edges_view(g@),
            shifted == gv.map_values(|e: Seq<usize>| e.map_values(|x: usize| (x - 1) as usize)),
            forall|i: int, p: int| 0 <= i < g@.len() && 0 <= p < g@[i]@.len() ==> 1 <= #[trigger] g@[i]@[p],
            hyperedges_view(hs@) == sorted_edge_lists(shifted.subrange(0, i as int)),
        decreases g.len() - i,
    {
        let edge = &g[i];
        let mut e: Vec<usize> = Vec::new();
        let mut j: usize = 0;
        while j < edge.len()
            invariant
                j <= edge.len(),
                i < g.len(),
                edge@ == g@[i as int]@,
                forall|i: int, p: int| 0 <= i < g@.len() && 0 <= p < g@[i]@.len() ==> 1 <= #[trigger] g@[i]@[p],
                e@ == edge@.subrange(0, j as int).map_values(|x: usize| (x - 1) as usize),
            decreases edge.len() - j,
        {
            proof {
                assert(g@[i as int]@[j as int] == edge@[j as int]);
            }
            e.push(edge[j] - 1);
            proof {
                assert(e@ =~= edge@.subrange(0, j + 1).map_values(|x: usize| (x - 1) as usize));
            }
            j += 1;
        }
        let ghost h0 = hyperedges_view(hs@);
        proof {
            assert(edge@.subrange(0, edge@.len() as int) =~= edge@);
            assert(e@ == shifted[i as int]);
        }
        let h = Hyperedge::new(e);
        hs.push(h);
        proof {
            assert(hyperedges_view(hs@) =~= h0.push(shifted[i as int].sort_by(node_le_order())));
            assert(sorted_edge_lists(shifted.subrange(0, i + 1)) =~= sorted_edge_lists(shifted.subrange(0, i as int)).push(shifted[i as int].sort_by(node_le_order())));
        }
        i += 1;
    }
    proof {
        assert(shifted.subrange(0, g.len() as int) =~= shifted);
    }
    Motif::new(hs)
}

/// All the connected motifs on `n` nodes, grouped into isomorphism classes:
/// each class maps its canonical representative (the least relabeling,
/// renumbered from 0) to the motifs of all its relabelings.
pub fn generate_motifs(n: usize) -> (r: MotifClasses)
    requires
        2 <= n <= 5,
    ensures
        forall|k: Seq<Seq<usize>>|
            #[trigger] motif_classes_contents(r).contains_key(k) <==> exists|c: Seq<Seq<usize>>|
                #[trigger] class_reps(n as nat).contains(c) && motif_form(c) == k,
        forall|k: Seq<Seq<usize>>|
            #[trigger] motif_classes_contents(r).contains_key(k) ==> exists|c: Seq<Seq<usize>>|
                #[trigger] class_reps(n as nat).contains(c) && motif_form(c) == k && motif_classes_contents(
                    r,
                )[k] == class_motifs(c, n as nat),
{
    let ghost nn = n as nat;
    let nodes = one_to_vec(n);
    // all the hyperedges, by size from n down to 2, then sorted
    let mut raw: Vec<Vec<usize>> = Vec::new();
    let mut size: usize = n;
    proof {
        assert(edges_view(raw@) =~= Seq::<Seq<usize>>::empty());
        assert(edges_from(nn, nn) =~= edges_view(raw@) + edges_from(nn, size as nat));
    }
    while size >= 2
        invariant
            size <= n,
            n <= 5,
            nn == n as nat,
            nodes@ == one_to(nn),
            edges_from(nn, nn) == edges_view(raw@) + edges_from(nn, size as nat),
        decreases size,
    {
        let mut part = combinations(&nodes, size);
        let ghost r0 = edges_view(raw@);
        let ghost pv = edges_view(part@);
        proof {
            assert(pv =~= combos_of(nn, size as nat));
        }
        raw.append(&mut part);
        proof {
            assert(edges_view(raw@) =~= r0 + pv);
            assert(edges_from(nn, size as nat) == combos_of(nn, size as nat) + edges_from(nn, (size - 1) as nat));
            assert(edges_from(nn, nn) =~= edges_view(raw@) + edges_from(nn, (size - 1) as nat));
        }
        size -= 1;
    }
    proof {
        assert(edges_from(nn, size as nat) =~= Seq::<Seq<usize>>::empty());
        assert(edges_view(raw@) =~= edges_from(nn, nn));
    }
    let all = sort_edges(raw);
    let ghost e = all_edges(nn);
    proof {
        crate::lex::lemma_orders_total();
        edges_from(nn, nn).lemma_sort_by_ensures(nodes_le_order());
        vstd::seq_lib::lemma_sorted_unique(edges_view(all@), e, nodes_le_order());
        lemma_all_edges_len(nn);
        lemma_edges_from_nodes(nn, nn);
        assert forall|i: int, p: int| 0 <= i < e.len() && 0 <= p < e[i].len() implies 1 <= #[trigger] e[i][p] <= nn by {
            assert(e.contains(e[i]));
            lemma_sort_members(edges_from(nn, nn), nodes_le_order(), e[i]);
            let j = choose|j: int| 0 <= j < edges_from(nn, nn).len() && edges_from(nn, nn)[j] == e[i];
            assert(edges_from(nn, nn)[j][p] == e[i][p]);
        }
    }
    let len = all.len();
    proof {
        vstd::bits::lemma_u32_pow2_no_overflow(len as nat);
        vstd::bits::lemma_u32_shl_is_mul(1, len as u32);
        vstd::arithmetic::power2::lemma2_to64();
    }
    let total: u32 = 1u32 << (len as u32);
    let mut canonical_rep = hypergraph_set_new();
    let mut mask: u32 = 0;
    proof {
        assert(hypergraph_set_contents(canonical_rep) =~= reps_below(nn, 0));
    }
    while mask < total
        invariant
            2 <= n <= 5,
            nn == n as nat,
            e == all_edges(nn),
            edges_view(all@) == e,
            len == e.len(),
            len <= 26,
            total as nat == pow2(len as nat),
            mask <= total,
            nodes_within(e, nn),
            hypergraph_set_contents(canonical_rep) == reps_below(nn, mask as int),
            forall|x: Seq<Seq<usize>>| #[trigger] hypergraph_set_contents(canonical_rep).contains(x) ==> nodes_within(x, nn),
        decreases total - mask,
    {
        proof {
            crate::bits::lemma_bit32_bound(mask, len as u32);
            vstd::bits::lemma_u32_shl_is_mul(1, len as u32);
            assert forall|i: int| #[trigger] set32(mask).contains(i) implies 0 <= i < len by {
                assert(set32(mask).subset_of(vstd::set_lib::set_int_range(0, len as int)));
            }
            assert(small_nodes(mask, e)) by {
                assert forall|i: int| #[trigger] set32(mask).contains(i) implies 0 <= i < e.len() && forall|p: int|
                    0 <= p < e[i].len() ==> 1 <= #[trigger] e[i][p] <= 5 by {
                    assert forall|p: int| 0 <= p < e[i].len() implies 1 <= #[trigger] e[i][p] <= 5 by {
                        assert(1 <= e[i][p] <= nn);
                    }
                }
            }
        }
        let ghost before = hypergraph_set_contents(canonical_rep);
        if is_mask_connected(mask, &all, n) {
            let g = decode_mask(mask, &all);
            proof {
                crate::lex::lemma_orders_total();
                let d = decoded(mask, e);
                let sel = selected_edges(e, set32(mask), e.len() as int);
                assert(nodes_within(d, nn)) by {
                    assert forall|i: int, p: int| 0 <= i < d.len() && 0 <= p < d[i].len() implies 1 <= #[trigger] d[i][p] <= nn by {
                        assert(d.contains(d[i]));
                        lemma_sort_members(sel, nodes_le_order(), d[i]);
                        lemma_selected_members(e, set32(mask), e.len() as int, d[i]);
                        let j = choose|j: int| 0 <= j < e.len() && e[j] == d[i];
                        assert(e[j][p] == d[i][p]);
                    }
                }
            }
            let c = get_canonical_representative(&g, Some(n));
            proof {
                lemma_canonical_within(decoded(mask, e), nn);
            }
            hypergraph_set_insert(&mut canonical_rep, c);
            proof {
                assert forall|x: Seq<Seq<usize>>| #[trigger] hypergraph_set_contents(canonical_rep).contains(x) implies nodes_within(x, nn) by {
                    if !before.contains(x) {
                        assert(x == edges_view(c@));
                    }
                }
                assert(hypergraph_set_contents(canonical_rep) =~= reps_below(nn, mask + 1)) by {
                    assert forall|x: Seq<Seq<usize>>| #[trigger] reps_below(nn, mask + 1).contains(x) implies hypergraph_set_contents(canonical_rep).contains(x) by {
                        let m = choose|m: u32| #![trigger mask_connected(m, all_edges(nn), nn)] m < mask + 1 && mask_connected(m, all_edges(nn), nn) && x == canonical_form(decoded(m, all_edges(nn)), nn);
                        if m < mask {
                            assert(reps_below(nn, mask as int).contains(x));
                        }
                    }
                    assert forall|x: Seq<Seq<usize>>| #[trigger] hypergraph_set_contents(canonical_rep).contains(x) implies reps_below(nn, mask + 1).contains(x) by {
                        if before.contains(x) {
                            let m = choose|m: u32| #![trigger mask_connected(m, all_edges(nn), nn)] m < mask && mask_connected(m, all_edges(nn), nn) && x == canonical_form(decoded(m, all_edges(nn)), nn);
                            assert(mask_connected(m, all_edges(nn), nn));
                        } else {
                            assert(mask_connected(mask, all_edges(nn), nn));
                        }
                    }
                }
            }
        } else {
            proof {
                assert(hypergraph_set_contents(canonical_rep) =~= reps_below(nn, mask + 1)) by {
                    assert forall|x: Seq<Seq<usize>>| #[trigger] reps_below(nn, mask + 1).contains(x) implies before.contains(x) by {
                        let m = choose|m: u32| #![trigger mask_connected(m, all_edges(nn), nn)] m < mask + 1 && mask_connected(m, all_edges(nn), nn) && x == canonical_form(decoded(m, all_edges(nn)), nn);
                        assert(m != mask);
                    }
                    assert forall|x: Seq<Seq<usize>>| #[trigger] before.contains(x) implies reps_below(nn, mask + 1).contains(x) by {
                        let m = choose|m: u32| #![trigger mask_connected(m, all_edges(nn), nn)] m < mask && mask_connected(m, all_edges(nn), nn) && x == canonical_form(decoded(m, all_edges(nn)), nn);
                        assert(mask_connected(m, all_edges(nn), nn));
                    }
                }
            }
        }
        mask += 1;
    }
    proof {
        assert(hypergraph_set_contents(canonical_rep) == class_reps(nn));
        assert forall|x: Seq<Seq<usize>>| #[trigger] class_reps(nn).contains(x) implies nodes_within(x, nn) by {
            assert(hypergraph_set_contents(canonical_rep).contains(x));
        }
    }
    let ghost reps = hypergraph_set_contents(canonical_rep);
    let list = hypergraph_set_into_vec(canonical_rep);
    let ghost lv = hypergraphs_view(list@);
    let mut rep_map = motif_classes_new();
    let mut i: usize = 0;
    proof {
        assert(lv =~= list@.map_values(|g: Vec<Vec<usize>>| edges_view(g@)));
    }
    while i < list.len()
        invariant
            2 <= n <= 5,
            nn == n as nat,
            i <= list.len(),
            lv == hypergraphs_view(list@),
            lv.to_set() == class_reps(nn),
            forall|x: Seq<Seq<usize>>| #[trigger] class_reps(nn).contains(x) ==> nodes_within(x, nn),
            forall|k: Seq<Seq<usize>>|
                #[trigger] motif_classes_contents(rep_map).contains_key(k) <==> exists|j: int|
                    0 <= j < i && motif_form(#[trigger] lv[j]) == k,
            forall|k: Seq<Seq<usize>>|
                #[trigger] motif_classes_contents(rep_map).contains_key(k) ==> exists|j: int|
                    0 <= j < i && motif_form(#[trigger] lv[j]) == k && motif_classes_contents(rep_map)[k]
                        == class_motifs(lv[j], nn),
        decreases list.len() - i,
    {
        let representative = &list[i];
        let ghost c = lv[i as int];
        proof {
            assert(lv.contains(c));
            assert(class_reps(nn).contains(c));
            assert(nodes_within(c, nn));
        }
        let isos = enum_isomorphisms(representative, Some(n));
        let mut v: Vec<Motif> = Vec::new();
        let mut j: usize = 0;
        while j < isos.len()
            invariant
                j <= isos.len(),
                nn == n as nat,
                n <= 5,
                hypergraphs_view(isos@) == isomorphisms(c, nn),
                forall|p: Seq<usize>| #[trigger] permutations_of(one_to(nn), nn).contains(p) ==> is_arrangement(p, one_to(nn)),
                nodes_within(c, nn),
                motifs_view(v@) == class_motifs(c, nn).subrange(0, j as int),
            decreases isos.len() - j,
        {
            proof {
                let isv = isomorphisms(c, nn);
                let p = permutations_of(one_to(nn), nn)[j as int];
                assert(permutations_of(one_to(nn), nn).contains(p));
                lemma_relabeled_within(c, p, nn);
                assert(edges_view(isos@[j as int]@) == isv[j as int]);
                assert forall|x: int, q: int| 0 <= x < isos@[j as int]@.len() && 0 <= q < isos@[j as int]@[x]@.len() implies 1 <= #[trigger] isos@[j as int]@[x]@[q] by {
                    assert(isv[j as int][x][q] == isos@[j as int]@[x]@[q]);
                }
            }
            let m = to_motif(&isos[j]);
            let ghost v0 = motifs_view(v@);
            v.push(m);
            proof {
                assert(motifs_view(v@) =~= v0.push(m@));
                assert(class_motifs(c, nn).subrange(0, j + 1) =~= class_motifs(c, nn).subrange(0, j as int).push(class_motifs(c, nn)[j as int]));
            }
            j += 1;
        }
        proof {
            assert(class_motifs(c, nn).subrange(0, isos.len() as int) =~= class_motifs(c, nn));
            assert forall|x: int, q: int| 0 <= x < representative@.len() && 0 <= q < representative@[x]@.len() implies 1 <= #[trigger] representative@[x]@[q] by {
                assert(c[x][q] == representative@[x]@[q]);
            }
        }
        let key = to_motif(representative);
        let ghost old_map = motif_classes_contents(rep_map);
        motif_classes_insert(&mut rep_map, key, v);
        proof {
            let nm = motif_classes_contents(rep_map);
            assert forall|k: Seq<Seq<usize>>| #[trigger] nm.contains_key(k) <==> exists|j: int| 0 <= j < i + 1 && motif_form(#[trigger] lv[j]) == k by {
                if nm.contains_key(k) && k != motif_form(c) {
                    assert(old_map.contains_key(k));
                }
                if k == motif_form(c) {
                    assert(motif_form(lv[i as int]) == k);
                }
                if exists|j: int| 0 <= j < i + 1 && motif_form(#[trigger] lv[j]) == k {
                    let j = choose|j: int| 0 <= j < i + 1 && motif_form(#[trigger] lv[j]) == k;
                    if j < i {
                        assert(old_map.contains_key(k));
                    }
                }
            }
            assert forall|k: Seq<Seq<usize>>| #[trigger] nm.contains_key(k) implies exists|j: int| 0 <= j < i + 1 && motif_form(#[trigger] lv[j]) == k && nm[k] == class_motifs(lv[j], nn) by {
                if k == motif_form(c) {
                    assert(motif_form(lv[i as int]) == k && nm[k] == class_motifs(lv[i as int], nn));
                } else {
                    assert(old_map.contains_key(k));
                    let j = choose|j: int| 0 <= j < i && motif_form(#[trigger] lv[j]) == k && old_map[k] == class_motifs(lv[j], nn);
                    assert(motif_form(lv[j]) == k && nm[k] == class_motifs(lv[j], nn));
                }
            }
        }
        i += 1;
    }
    proof {
        let res = motif_classes_contents(rep_map);
        assert forall|k: Seq<Seq<usize>>| #[trigger] res.contains_key(k) <==> exists|c: Seq<Seq<usize>>| #[trigger] class_reps(nn).contains(c) && motif_form(c) == k by {
            if res.contains_key(k) {
                let j = choose|j: int| 0 <= j < list.len() && motif_form(#[trigger] lv[j]) == k;
                assert(lv.to_set().contains(lv[j]));
                assert(class_reps(nn).contains(lv[j]));
            }
            if exists|c: Seq<Seq<usize>>| #[trigger] class_reps(nn).contains(c) && motif_form(c) == k {
                let c = choose|c: Seq<Seq<usize>>| #[trigger] class_reps(nn).contains(c) && motif_form(c) == k;
                assert(lv.to_set().contains(c));
                let j = choose|j: int| 0 <= j < lv.len() && lv[j] == c;
                assert(motif_form(lv[j]) == k);
            }
        }
        assert forall|k: Seq<Seq<usize>>| #[trigger] res.contains_key(k) implies exists|c: Seq<Seq<usize>>| #[trigger] class_reps(nn).contains(c) && motif_form(c) == k && res[k] == class_motifs(c, nn) by {
            let j = choose|j: int| 0 <= j < list.len() && motif_form(#[trigger] lv[j]) == k && res[k] == class_motifs(lv[j], nn);
            assert(lv.to_set().contains(lv[j]));
            assert(class_reps(nn).contains(lv[j]));
        }
    }
    rep_map
}

/// Every member of a selection of edges is one of the edges.
pub proof fn lemma_selected_members(e: Seq<Seq<usize>>, s: Set<int>, lo: int, x: Seq<usize>)
    requires
        0 <= lo <= e.len(),
        selected_edges(e, s, lo).contains(x),
    ensures
        e.contains(x),
    decreases lo,
{
    if lo > 0 {
        let a = selected_edges(e, s, lo - 1);
        if a.contains(x) {
            lemma_selected_members(e, s, lo - 1, x);
        } else {
            let j = choose|j: int| 0 <= j < selected_edges(e, s, lo).len() && selected_edges(e, s, lo)[j] == x;
            assert(x == e[lo - 1]);
        }
    }
}

/// The labelings of the class of `key`, or `None` where `key` is no
/// canonical representative of `classes`.
pub fn class_members(classes: &MotifClasses, key: &Motif) -> (r: Option<Vec<Motif>>)
    ensures
        r is Some <==> motif_classes_contents(*classes).contains_key(key@),
        r matches Some(v) ==> motifs_view(v@) == motif_classes_contents(*classes)[key@],
{
    motif_classes_get(classes, key)
}

/// The canonical representatives of `classes`, each once, in the order of
/// the map.
pub fn class_keys(classes: &MotifClasses) -> (r: Vec<Motif>)
    ensures
        motifs_view(r@).no_duplicates(),
        motifs_view(r@).to_set() == motif_classes_contents(*classes).dom(),
{
    motif_classes_keys(classes)
}

/// How many labelings the class of `key` holds, or `None` where `key` is
/// no canonical representative of `classes`.
pub fn class_member_count(classes: &MotifClasses, key: &Motif) -> (r: Option<usize>)
    ensures
        r == if motif_classes_contents(*classes).contains_key(key@) {
            Some(motif_classes_contents(*classes)[key@].len() as usize)
        } else {
            None::<usize>
        },
{
    motif_classes_member_count(classes, key)
}

} // verus!
