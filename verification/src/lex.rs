//! Lexicographic orders on node lists and edge lists, and their executable
//! comparisons.

use vstd::prelude::*;

verus! {

use vstd::relations::{sorted_by, total_ordering};

/// `lt` is a strict total order.
pub open spec fn strict_total<A>(lt: spec_fn(A, A) -> bool) -> bool {
    &&& forall|x: A| !#[trigger] lt(x, x)
    &&& forall|x: A, y: A, z: A| #[trigger] lt(x, y) && #[trigger] lt(y, z) ==> lt(x, z)
    &&& forall|x: A, y: A| x != y ==> #[trigger] lt(x, y) || #[trigger] lt(y, x)
}

/// Lexicographic order of sequences over the element order `lt`: the first
/// difference decides, and a proper prefix comes first (as `Vec`'s `<`).
pub open spec fn lex_lt<A>(a: Seq<A>, b: Seq<A>, lt: spec_fn(A, A) -> bool) -> bool
    decreases a.len(),
{
    if a.len() == 0 {
        b.len() > 0
    } else if b.len() == 0 {
        false
    } else if a[0] != b[0] {
        lt(a[0], b[0])
    } else {
        lex_lt(a.drop_first(), b.drop_first(), lt)
    }
}

/// The order of node numbers.
pub open spec fn node_order() -> spec_fn(usize, usize) -> bool {
    |x: usize, y: usize| x < y
}

/// Lexicographic order of node lists.
pub open spec fn nodes_lt(a: Seq<usize>, b: Seq<usize>) -> bool {
    lex_lt(a, b, node_order())
}

/// The lexicographic order of node lists, as a relation.
pub open spec fn nodes_order() -> spec_fn(Seq<usize>, Seq<usize>) -> bool {
    |x: Seq<usize>, y: Seq<usize>| nodes_lt(x, y)
}

/// Lexicographic order of edge lists, edges in lexicographic order.
pub open spec fn edges_lt(a: Seq<Seq<usize>>, b: Seq<Seq<usize>>) -> bool {
    lex_lt(a, b, nodes_order())
}

/// The lexicographic order of edge lists, as a relation.
pub open spec fn edges_order() -> spec_fn(Seq<Seq<usize>>, Seq<Seq<usize>>) -> bool {
    |x: Seq<Seq<usize>>, y: Seq<Seq<usize>>| edges_lt(x, y)
}

/// The non-strict versions.
pub open spec fn nodes_le(a: Seq<usize>, b: Seq<usize>) -> bool {
    a == b || nodes_lt(a, b)
}

/// `a` comes first or equals `b`, in the order of edge lists.
pub open spec fn edges_le(a: Seq<Seq<usize>>, b: Seq<Seq<usize>>) -> bool {
    a == b || edges_lt(a, b)
}

/// The order of nodes, as a relation.
pub open spec fn node_le_order() -> spec_fn(usize, usize) -> bool {
    |x: usize, y: usize| x <= y
}

/// The non-strict lexicographic order of node lists, as a relation.
pub open spec fn nodes_le_order() -> spec_fn(Seq<usize>, Seq<usize>) -> bool {
    |x: Seq<usize>, y: Seq<usize>| nodes_le(x, y)
}

/// The non-strict lexicographic order of edge lists, as a relation.
pub open spec fn edges_le_order() -> spec_fn(Seq<Seq<usize>>, Seq<Seq<usize>>) -> bool {
    |x: Seq<Seq<usize>>, y: Seq<Seq<usize>>| edges_le(x, y)
}

/// The lexicographic order is irreflexive.
pub proof fn lemma_lex_irrefl<A>(a: Seq<A>, lt: spec_fn(A, A) -> bool)
    requires
        strict_total(lt),
    ensures
        !lex_lt(a, a, lt),
    decreases a.len(),
{
    if a.len() > 0 {
        lemma_lex_irrefl(a.drop_first(), lt);
    }
}

/// The lexicographic order is transitive.
pub proof fn lemma_lex_trans<A>(a: Seq<A>, b: Seq<A>, c: Seq<A>, lt: spec_fn(A, A) -> bool)
    requires
        strict_total(lt),
        lex_lt(a, b, lt),
        lex_lt(b, c, lt),
    ensures
        lex_lt(a, c, lt),
    decreases a.len(),
{
    if a.len() > 0 && b.len() > 0 && c.len() > 0 {
        if a[0] == b[0] && b[0] == c[0] {
            lemma_lex_trans(a.drop_first(), b.drop_first(), c.drop_first(), lt);
        } else if a[0] != b[0] && b[0] != c[0] {
            assert(lt(a[0], b[0]) && lt(b[0], c[0]));
            assert(lt(a[0], c[0]));
            if a[0] == c[0] {
                assert(!lt(a[0], a[0]));
            }
        }
    }
}

/// Two different sequences are ordered one way or the other.
pub proof fn lemma_lex_total<A>(a: Seq<A>, b: Seq<A>, lt: spec_fn(A, A) -> bool)
    requires
        strict_total(lt),
        a != b,
    ensures
        lex_lt(a, b, lt) || lex_lt(b, a, lt),
    decreases a.len(),
{
    if a.len() > 0 && b.len() > 0 {
        if a[0] == b[0] {
            if a.drop_first() == b.drop_first() {
                assert(a =~= seq![a[0]] + a.drop_first());
                assert(b =~= seq![b[0]] + b.drop_first());
            }
            lemma_lex_total(a.drop_first(), b.drop_first(), lt);
        } else {
            assert(lt(a[0], b[0]) || lt(b[0], a[0]));
        }
    } else if a.len() == 0 && b.len() == 0 {
        assert(a =~= b);
    }
}

/// The lexicographic order over a strict total order is a strict total order.
pub proof fn lemma_lex_strict_total<A>(lt: spec_fn(A, A) -> bool)
    requires
        strict_total(lt),
    ensures
        strict_total(|x: Seq<A>, y: Seq<A>| lex_lt(x, y, lt)),
{
    let l = |x: Seq<A>, y: Seq<A>| lex_lt(x, y, lt);
    assert forall|x: Seq<A>| !#[trigger] l(x, x) by {
        lemma_lex_irrefl(x, lt);
    }
    assert forall|x: Seq<A>, y: Seq<A>, z: Seq<A>| #[trigger] l(x, y) && #[trigger] l(y, z) implies l(x, z) by {
        lemma_lex_trans(x, y, z, lt);
    }
    assert forall|x: Seq<A>, y: Seq<A>| x != y implies #[trigger] l(x, y) || #[trigger] l(y, x) by {
        lemma_lex_total(x, y, lt);
    }
}

/// Node numbers, node lists and edge lists are strictly totally ordered.
pub proof fn lemma_orders_strict_total()
    ensures
        strict_total(node_order()),
        strict_total(nodes_order()),
        strict_total(edges_order()),
{
    assert(strict_total(node_order()));
    lemma_lex_strict_total(node_order());
    assert(nodes_order() =~= |x: Seq<usize>, y: Seq<usize>| lex_lt(x, y, node_order()));
    lemma_lex_strict_total(nodes_order());
    assert(edges_order() =~= |x: Seq<Seq<usize>>, y: Seq<Seq<usize>>| lex_lt(x, y, nodes_order()));
}

/// The non-strict orders are total orders.
pub proof fn lemma_orders_total()
    ensures
        total_ordering(node_le_order()),
        total_ordering(nodes_le_order()),
        total_ordering(edges_le_order()),
{
    lemma_orders_strict_total();
    let l1 = nodes_order();
    let l2 = edges_order();
    let e1 = nodes_le_order();
    let e2 = edges_le_order();
    assert forall|x: Seq<usize>, y: Seq<usize>| #[trigger] e1(x, y) && #[trigger] e1(y, x) implies x == y by {
        if x != y {
            assert(l1(x, y) && l1(y, x));
            assert(l1(x, x));
        }
    }
    assert forall|x: Seq<usize>, y: Seq<usize>, z: Seq<usize>| #[trigger] e1(x, y) && #[trigger] e1(y, z) implies e1(x, z) by {
        if x != y && y != z {
            assert(l1(x, y) && l1(y, z));
        }
    }
    assert forall|x: Seq<usize>, y: Seq<usize>| #[trigger] e1(x, y) || #[trigger] e1(y, x) by {
        if x != y {
            assert(l1(x, y) || l1(y, x));
        }
    }
    assert forall|x: Seq<Seq<usize>>, y: Seq<Seq<usize>>| #[trigger] e2(x, y) && #[trigger] e2(y, x) implies x == y by {
        if x != y {
            assert(l2(x, y) && l2(y, x));
            assert(l2(x, x));
        }
    }
    assert forall|x: Seq<Seq<usize>>, y: Seq<Seq<usize>>, z: Seq<Seq<usize>>| #[trigger] e2(x, y) && #[trigger] e2(y, z) implies e2(x, z) by {
        if x != y && y != z {
            assert(l2(x, y) && l2(y, z));
        }
    }
    assert forall|x: Seq<Seq<usize>>, y: Seq<Seq<usize>>| #[trigger] e2(x, y) || #[trigger] e2(y, x) by {
        if x != y {
            assert(l2(x, y) || l2(y, x));
        }
    }
}

/// Whether node list `a` comes before node list `b`.
pub fn nodes_less(a: &Vec<usize>, b: &Vec<usize>) -> (r: bool)
    ensures
        r == nodes_lt(a@, b@),
{
    let mut i: usize = 0;
    proof {
        assert(a@.skip(0) =~= a@);
        assert(b@.skip(0) =~= b@);
    }
    while i < a.len() && i < b.len()
        invariant
            i <= a.len(),
            i <= b.len(),
            nodes_lt(a@, b@) == nodes_lt(a@.skip(i as int), b@.skip(i as int)),
        decreases a.len() - i,
    {
        if a[i] != b[i] {
            return a[i] < b[i];
        }
        proof {
            assert(a@.skip(i as int).drop_first() =~= a@.skip(i + 1));
            assert(b@.skip(i as int).drop_first() =~= b@.skip(i + 1));
        }
        i += 1;
    }
    proof {
        assert(a@.skip(i as int).len() == 0 || b@.skip(i as int).len() == 0);
    }
    i < b.len()
}

/// Whether two node lists are equal.
pub fn nodes_equal(a: &Vec<usize>, b: &Vec<usize>) -> (r: bool)
    ensures
        r == (a@ == b@),
{
    if a.len() != b.len() {
        return false;
    }
    let mut i: usize = 0;
    while i < a.len()
        invariant
            i <= a.len(),
            a.len() == b.len(),
            forall|j: int| 0 <= j < i ==> a@[j] == b@[j],
        decreases a.len() - i,
    {
        if a[i] != b[i] {
            return false;
        }
        i += 1;
    }
    proof {
        assert(a@ =~= b@);
    }
    true
}

/// The node lists of a list of edges.
pub open spec fn edges_view(g: Seq<Vec<usize>>) -> Seq<Seq<usize>> {
    g.map_values(|e: Vec<usize>| e@)
}

/// Whether edge list `a` comes before edge list `b`.
pub fn edges_less(a: &Vec<Vec<usize>>, b: &Vec<Vec<usize>>) -> (r: bool)
    ensures
        r == edges_lt(edges_view(a@), edges_view(b@)),
{
    let ghost av = edges_view(a@);
    let ghost bv = edges_view(b@);
    let mut i: usize = 0;
    proof {
        assert(av.skip(0) =~= av);
        assert(bv.skip(0) =~= bv);
    }
    while i < a.len() && i < b.len()
        invariant
            i <= a.len(),
            i <= b.len(),
            av == edges_view(a@),
            bv == edges_view(b@),
            edges_lt(av, bv) == edges_lt(av.skip(i as int), bv.skip(i as int)),
        decreases a.len() - i,
    {
        if !nodes_equal(&a[i], &b[i]) {
            proof {
                assert(av.skip(i as int)[0] == a@[i as int]@);
                assert(bv.skip(i as int)[0] == b@[i as int]@);
            }
            return nodes_less(&a[i], &b[i]);
        }
        proof {
            assert(av.skip(i as int).drop_first() =~= av.skip(i + 1));
            assert(bv.skip(i as int).drop_first() =~= bv.skip(i + 1));
        }
        i += 1;
    }
    proof {
        assert(av.skip(i as int).len() == 0 || bv.skip(i as int).len() == 0);
    }
    i < b.len()
}

/// Two sequences sorted by a total order with the same members are equal.
pub proof fn lemma_sorted_eq<A>(a: Seq<A>, b: Seq<A>, leq: spec_fn(A, A) -> bool)
    requires
        total_ordering(leq),
        sorted_by(a, leq),
        sorted_by(b, leq),
        a.to_multiset() == b.to_multiset(),
    ensures
        a == b,
{
    vstd::seq_lib::lemma_sorted_unique(a, b, leq);
}

/// The order of hyperedges: fewer nodes first, then lexicographically.
pub open spec fn hyperedge_lt(a: Seq<usize>, b: Seq<usize>) -> bool {
    a.len() < b.len() || (a.len() == b.len() && nodes_lt(a, b))
}

/// The order of hyperedges, as a relation.
pub open spec fn hyperedge_lt_order() -> spec_fn(Seq<usize>, Seq<usize>) -> bool {
    |x: Seq<usize>, y: Seq<usize>| hyperedge_lt(x, y)
}

/// The non-strict order of hyperedges, as a relation.
pub open spec fn hyperedge_le_order() -> spec_fn(Seq<usize>, Seq<usize>) -> bool {
    |x: Seq<usize>, y: Seq<usize>| x == y || hyperedge_lt(x, y)
}

/// The order of hyperedges is a strict total order, and its non-strict form
/// a total order.
pub proof fn lemma_hyperedge_orders()
    ensures
        strict_total(hyperedge_lt_order()),
        total_ordering(hyperedge_le_order()),
{
    lemma_orders_strict_total();
    let lt = hyperedge_lt_order();
    let nl = nodes_order();
    assert forall|x: Seq<usize>| !#[trigger] lt(x, x) by {
        assert(!nl(x, x));
    }
    assert forall|x: Seq<usize>, y: Seq<usize>, z: Seq<usize>| #[trigger] lt(x, y) && #[trigger] lt(y, z) implies lt(x, z) by {
        if x.len() == y.len() && y.len() == z.len() {
            assert(nl(x, y) && nl(y, z));
        }
    }
    assert forall|x: Seq<usize>, y: Seq<usize>| x != y implies #[trigger] lt(x, y) || #[trigger] lt(y, x) by {
        if x.len() == y.len() {
            assert(nl(x, y) || nl(y, x));
        }
    }
    let le = hyperedge_le_order();
    assert forall|x: Seq<usize>, y: Seq<usize>| #[trigger] le(x, y) && #[trigger] le(y, x) implies x == y by {
        if x != y {
            assert(lt(x, y) && lt(y, x));
            assert(lt(x, x));
        }
    }
    assert forall|x: Seq<usize>, y: Seq<usize>, z: Seq<usize>| #[trigger] le(x, y) && #[trigger] le(y, z) implies le(x, z) by {
        if x != y && y != z {
            assert(lt(x, y) && lt(y, z));
        }
    }
    assert forall|x: Seq<usize>, y: Seq<usize>| #[trigger] le(x, y) || #[trigger] le(y, x) by {
        if x != y {
            assert(lt(x, y) || lt(y, x));
        }
    }
    assert forall|x: Seq<usize>| #[trigger] le(x, x) by {}
}

/// Whether hyperedge `a` comes before hyperedge `b` (see `hyperedge_lt`).
pub fn hyperedge_less(a: &Vec<usize>, b: &Vec<usize>) -> (r: bool)
    ensures
        r == hyperedge_lt(a@, b@),
{
    if a.len() != b.len() {
        return a.len() < b.len();
    }
    nodes_less(a, b)
}

} // verus!
