//! Renaming the nodes of a compact motif, its isomorphism class, and one motif
//! per class.

use vstd::prelude::*;

verus! {

use vstd::set_lib::set_int_range;
use crate::bits::{set32, set8, lemma_bit32_or, lemma_bit32_and, lemma_bit32_shl1, lemma_set32_empty, lemma_set32_ext, lemma_set8_or_shl};
use crate::motif::CompactMotif;
use crate::node_set::{CompressedNodeSet, lemma_set8_range};
use crate::tables::{edge_nodes, edge_total, is_node_map, lemma_edge_nodes_range};
use crate::motif_ops::edge_range;
use crate::relabel::{image, edge_image, relabel_motif, lemma_edge_image, lemma_edge_numbering};
use crate::util::{is_perm, perm_view, BinPerm, fact, factorial, unrank, rank, lemma_unrank_perm, lemma_rank_bound, lemma_unrank_rank};

/// The node set `nodes` with node `v` renamed `perm[v]`.
fn rename_nodes<const N: usize>(nodes: u8, perm: &[u8; N]) -> (r: u8)
    requires
        N <= 8,
        is_perm(perm_view(*perm), N as nat),
        set8(nodes).subset_of(set_int_range(0, N as int)),
    ensures
        set8(r) == image(perm_view(*perm), set8(nodes)),
{
    let ghost p = perm_view(*perm);
    let ghost s = set8(nodes);
    let set = CompressedNodeSet::new(nodes);
    let mut r: u8 = 0;
    let mut v: usize = 0;
    proof {
        crate::bits::lemma_bit32_zero();
        assert(image(p, s.intersect(set_int_range(0, 0))) =~= Set::<int>::empty());
    }
    while v < N
        invariant
            v <= N <= 8,
            p == perm_view(*perm),
            is_perm(p, N as nat),
            s == set8(nodes),
            set@ == s,
            set8(r) == image(p, s.intersect(set_int_range(0, v as int))),
        decreases N - v,
    {
        let ghost before = s.intersect(set_int_range(0, v as int));
        let ghost after = s.intersect(set_int_range(0, v + 1));
        if set.contains(v) {
            let target = perm[v];
            proof {
                assert(p[v as int] == target as int);
                assert(target < 8);
                lemma_set8_or_shl(r, target);
                assert(after =~= before.insert(v as int));
                assert(image(p, after) =~= image(p, before).insert(p[v as int])) by {
                    assert forall|y: int| image(p, after).contains(y) implies image(p, before).insert(p[v as int]).contains(y) by {
                        let x = choose|x: int| after.contains(x) && p[x] == y;
                        if x != v {
                            assert(before.contains(x));
                        }
                    }
                    assert forall|y: int| image(p, before).insert(p[v as int]).contains(y) implies image(p, after).contains(y) by {
                        if y == p[v as int] {
                            assert(after.contains(v as int));
                        } else {
                            let x = choose|x: int| before.contains(x) && p[x] == y;
                            assert(after.contains(x));
                        }
                    }
                }
            }
            r = r | (1u8 << target);
        } else {
            proof {
                assert(after =~= before);
            }
        }
        v += 1;
    }
    proof {
        assert(s.intersect(set_int_range(0, N as int)) =~= s);
    }
    r
}

/// The number of the hyperedge of order `N` whose nodes are `nodes`, looked up in `node_map`.
fn edge_number<const N: usize>(node_map: &Vec<CompressedNodeSet>, nodes: u8) -> (r: usize)
    requires
        is_node_map(N as nat, node_map@),
        exists|f: int| 0 <= f < edge_total(N as nat) && #[trigger] edge_nodes(N as nat, f) == set8(nodes),
    ensures
        r < edge_total(N as nat),
        edge_nodes(N as nat, r as int) == set8(nodes),
{
    let mut i: usize = 0;
    while i < node_map.len()
        invariant
            is_node_map(N as nat, node_map@),
            i <= node_map.len(),
            forall|j: int| 0 <= j < i ==> (#[trigger] node_map@[j]).nodes != nodes,
        decreases node_map.len() - i,
    {
        if node_map[i].nodes == nodes {
            return i;
        }
        i += 1;
    }
    proof {
        let f = choose|f: int| 0 <= f < edge_total(N as nat) && #[trigger] edge_nodes(N as nat, f) == set8(nodes);
        assert(node_map@[f]@ == set8(nodes));
        lemma_set32_ext(node_map@[f].nodes as u32, nodes as u32);
        assert(false);
    }
    0
}

/// The motifs that motif `m` of order `n` becomes under the renamings of its nodes.
pub open spec fn relabelings(n: nat, m: Set<int>) -> Set<Set<int>> {
    Set::new(|x: Set<int>| exists|p: Seq<int>| is_perm(p, n) && x == #[trigger] relabel_motif(n, p, m))
}

/// The edge sets of a list of motifs.
pub open spec fn motif_views<const N: usize>(v: Seq<CompactMotif<N>>) -> Seq<Set<int>> {
    v.map_values(|c: CompactMotif<N>| c@)
}

/// `x` is a relabeling of one of the motifs `reps`.
pub open spec fn in_some_class<const N: usize>(reps: Seq<CompactMotif<N>>, x: Set<int>) -> bool {
    exists|i: int| 0 <= i < reps.len() && #[trigger] relabelings(N as nat, reps[i]@).contains(x)
}

/// No motif of `reps` is a relabeling of one before it.
pub open spec fn classes_apart<const N: usize>(reps: Seq<CompactMotif<N>>) -> bool {
    forall|a: int, b: int| 0 <= a < b < reps.len() ==> !#[trigger] relabelings(N as nat, reps[a]@).contains(#[trigger] reps[b]@)
}

/// A motif that is no relabeling of the motifs `reps` can follow them.
pub proof fn lemma_new_class<const N: usize>(reps: Seq<CompactMotif<N>>, m: CompactMotif<N>)
    requires
        classes_apart(reps),
        !in_some_class(reps, m@),
    ensures
        classes_apart(reps.push(m)),
        relabelings(N as nat, m@).contains(m@) ==> in_some_class(reps.push(m), m@),
{
    let r2 = reps.push(m);
    assert forall|a: int, b: int| 0 <= a < b < r2.len() implies !#[trigger] relabelings(N as nat, r2[a]@).contains(#[trigger] r2[b]@) by {
        assert(r2[a] == reps[a]);
        if b == reps.len() {
            if relabelings(N as nat, reps[a]@).contains(m@) {
                assert(in_some_class(reps, m@));
            }
        } else {
            assert(r2[b] == reps[b]);
        }
    }
    if relabelings(N as nat, m@).contains(m@) {
        assert(r2[reps.len() as int] == m);
    }
}

/// Once the motif at `idx` lies in one of the classes, and the classes only
/// grew, every motif up to `idx` lies in one of them.
pub proof fn lemma_classes_grow<const N: usize>(
    reps0: Seq<CompactMotif<N>>,
    reps: Seq<CompactMotif<N>>,
    motifs: Seq<CompactMotif<N>>,
    idx: int,
)
    requires
        0 <= idx < motifs.len(),
        reps0.len() <= reps.len(),
        reps.subrange(0, reps0.len() as int) == reps0,
        forall|j: int| 0 <= j < idx ==> in_some_class(reps0, (#[trigger] motifs[j])@),
        in_some_class(reps, motifs[idx]@),
    ensures
        forall|j: int| 0 <= j < idx + 1 ==> in_some_class(reps, (#[trigger] motifs[j])@),
{
    assert forall|j: int| 0 <= j < idx + 1 implies in_some_class(reps, (#[trigger] motifs[j])@) by {
        if j < idx {
            assert(in_some_class(reps0, motifs[j]@));
            let i = choose|i: int| 0 <= i < reps0.len() && #[trigger] relabelings(N as nat, reps0[i]@).contains(motifs[j]@);
            assert(reps[i] == reps.subrange(0, reps0.len() as int)[i]);
        }
    }
}

/// The identity renaming.
pub open spec fn identity_perm(n: nat) -> Seq<int> {
    Seq::new(n, |i: int| i)
}

/// Renaming by the identity leaves a motif as it is, so every motif is among
/// its own relabelings.
pub proof fn lemma_relabel_identity(n: nat, m: Set<int>)
    requires
        m.subset_of(edge_range(n)),
    ensures
        is_perm(identity_perm(n), n),
        relabel_motif(n, identity_perm(n), m) == m,
        relabelings(n, m).contains(m),
{
    let p = identity_perm(n);
    lemma_edge_numbering(n);
    assert forall|f: int| 0 <= f < edge_total(n) implies #[trigger] edge_image(n, p, f) == f by {
        lemma_edge_image(n, p, f);
        lemma_edge_nodes_range(n, f);
        assert(image(p, edge_nodes(n, f)) =~= edge_nodes(n, f)) by {
            assert forall|v: int| edge_nodes(n, f).contains(v) implies image(p, edge_nodes(n, f)).contains(v) by {
                assert(p[v] == v);
            }
        }
    }
    assert(relabel_motif(n, p, m) =~= m) by {
        assert forall|y: int| relabel_motif(n, p, m).contains(y) implies m.contains(y) by {
            let x = choose|x: int| m.contains(x) && edge_image(n, p, x) == y;
        }
        assert forall|y: int| m.contains(y) implies relabel_motif(n, p, m).contains(y) by {
            assert(edge_image(n, p, y) == y);
        }
    }
}

/// Appending the relabelings of `m` to the list of relabelings of the
/// classes `reps` gives the list of relabelings of `reps` and `m`.
pub proof fn lemma_add_class<const N: usize>(
    seen: Seq<CompactMotif<N>>,
    labs: Seq<CompactMotif<N>>,
    reps: Seq<CompactMotif<N>>,
    m: CompactMotif<N>,
)
    requires
        forall|x: Set<int>| #[trigger] motif_views(seen).contains(x) <==> in_some_class(reps, x),
        motif_views(labs).to_set() == relabelings(N as nat, m@),
    ensures
        forall|x: Set<int>| #[trigger] motif_views(seen + labs).contains(x) <==> in_some_class(reps.push(m), x),
{
    let reps2 = reps.push(m);
    assert(motif_views(seen + labs) =~= motif_views(seen) + motif_views(labs));
    assert forall|x: Set<int>| #[trigger] motif_views(seen + labs).contains(x) <==> in_some_class(reps2, x) by {
        if motif_views(seen + labs).contains(x) {
            let q = choose|q: int| 0 <= q < motif_views(seen + labs).len() && motif_views(seen + labs)[q] == x;
            if q < seen.len() {
                assert(motif_views(seen)[q] == x);
                assert(motif_views(seen).contains(x));
                let i = choose|i: int| 0 <= i < reps.len() && #[trigger] relabelings(N as nat, reps[i]@).contains(x);
                assert(reps2[i] == reps[i]);
            } else {
                assert(motif_views(labs)[q - seen.len()] == x);
                assert(motif_views(labs).to_set().contains(x));
                assert(reps2[reps.len() as int] == m);
            }
        }
        if in_some_class(reps2, x) {
            let i = choose|i: int| 0 <= i < reps2.len() && #[trigger] relabelings(N as nat, reps2[i]@).contains(x);
            if i < reps.len() {
                assert(reps[i] == reps2[i]);
                assert(in_some_class(reps, x));
                assert(motif_views(seen).contains(x));
                let q = choose|q: int| 0 <= q < motif_views(seen).len() && motif_views(seen)[q] == x;
                assert(motif_views(seen + labs)[q] == x);
            } else {
                assert(motif_views(labs).to_set().contains(x));
                let q = choose|q: int| 0 <= q < motif_views(labs).len() && motif_views(labs)[q] == x;
                assert(motif_views(seen + labs)[seen.len() + q] == x);
            }
        }
    }
}

/// Whether a motif with the edges of `m` is in `list`.
fn contains_motif<const N: usize>(list: &Vec<CompactMotif<N>>, m: &CompactMotif<N>) -> (r: bool)
    ensures
        r == motif_views(list@).contains(m@),
{
    let w = m.container();
    let mut j: usize = 0;
    while j < list.len()
        invariant
            j <= list.len(),
            w == m.bits(),
            forall|jj: int| 0 <= jj < j ==> (#[trigger] list@[jj])@ != m@,
        decreases list.len() - j,
    {
        let ghost lj = list@[j as int];
        if list[j].container() == w {
            proof {
                assert(motif_views(list@)[j as int] == m@);
            }
            return true;
        }
        proof {
            if lj@ == m@ {
                lemma_set32_ext(lj.bits(), m.bits());
            }
        }
        j += 1;
    }
    proof {
        if motif_views(list@).contains(m@) {
            let jj = choose|jj: int| 0 <= jj < list.len() && motif_views(list@)[jj] == m@;
            assert(list@[jj]@ == m@);
        }
    }
    false
}

/// Appends the motifs of `more` to `list`.
fn append_motifs<const N: usize>(list: &mut Vec<CompactMotif<N>>, more: &Vec<CompactMotif<N>>)
    ensures
        final(list)@ == old(list)@ + more@,
{
    let ghost start = list@;
    let mut t: usize = 0;
    while t < more.len()
        invariant
            t <= more.len(),
            list@ == start + more@.subrange(0, t as int),
        decreases more.len() - t,
    {
        list.push(more[t]);
        proof {
            assert(more@.subrange(0, t + 1) =~= more@.subrange(0, t as int).push(more@[t as int]));
            assert(start + more@.subrange(0, t + 1) =~= (start + more@.subrange(0, t as int)).push(more@[t as int]));
        }
        t += 1;
    }
    proof {
        assert(more@.subrange(0, more.len() as int) =~= more@);
    }
}

/// Renaming by `p` and then by `q`.
pub open spec fn then_perm(p: Seq<int>, q: Seq<int>) -> Seq<int> {
    p.map_values(|v: int| q[v])
}

/// The renaming that undoes `p`.
pub open spec fn inverse_perm(p: Seq<int>, n: nat) -> Seq<int> {
    Seq::new(n, |w: int| choose|v: int| 0 <= v < n && p[v] == w)
}

/// Two permutations in a row make a permutation.
pub proof fn lemma_then_perm(p: Seq<int>, q: Seq<int>, n: nat)
    requires
        is_perm(p, n),
        is_perm(q, n),
    ensures
        is_perm(then_perm(p, q), n),
{
    let c = then_perm(p, q);
    assert forall|i: int, j: int| 0 <= i < n && 0 <= j < n && i != j implies c[i] != c[j] by {
        assert(p[i] != p[j]);
    }
}

/// Two renamings in a row rename each hyperedge as the combined renaming does.
pub proof fn lemma_edge_image_then(n: nat, p: Seq<int>, q: Seq<int>, f: int)
    requires
        is_perm(p, n),
        is_perm(q, n),
        0 <= f < edge_total(n),
    ensures
        is_perm(then_perm(p, q), n),
        edge_image(n, q, edge_image(n, p, f)) == edge_image(n, then_perm(p, q), f),
{
    let c = then_perm(p, q);
    lemma_then_perm(p, q, n);
    lemma_edge_image(n, p, f);
    let g = edge_image(n, p, f);
    lemma_edge_image(n, q, g);
    lemma_edge_image(n, c, f);
    lemma_edge_nodes_range(n, f);
    let s = edge_nodes(n, f);
    assert(image(q, image(p, s)) =~= image(c, s)) by {
        assert forall|y: int| image(q, image(p, s)).contains(y) implies image(c, s).contains(y) by {
            let x = choose|x: int| image(p, s).contains(x) && q[x] == y;
            let v = choose|v: int| s.contains(v) && p[v] == x;
            assert(c[v] == y);
        }
        assert forall|y: int| image(c, s).contains(y) implies image(q, image(p, s)).contains(y) by {
            let v = choose|v: int| s.contains(v) && c[v] == y;
            assert(image(p, s).contains(p[v]));
        }
    }
    lemma_edge_numbering(n);
}

/// Renaming a motif by `p` and then by `q` is renaming it by `then_perm(p, q)`.
pub proof fn lemma_relabel_then(n: nat, p: Seq<int>, q: Seq<int>, m: Set<int>)
    requires
        is_perm(p, n),
        is_perm(q, n),
        m.subset_of(edge_range(n)),
    ensures
        is_perm(then_perm(p, q), n),
        relabel_motif(n, q, relabel_motif(n, p, m)) == relabel_motif(n, then_perm(p, q), m),
{
    let c = then_perm(p, q);
    lemma_then_perm(p, q, n);
    let once = relabel_motif(n, p, m);
    assert forall|y: int| relabel_motif(n, q, once).contains(y) implies relabel_motif(n, c, m).contains(y) by {
        let g = choose|g: int| once.contains(g) && edge_image(n, q, g) == y;
        let f = choose|f: int| m.contains(f) && edge_image(n, p, f) == g;
        lemma_edge_image_then(n, p, q, f);
    }
    assert forall|y: int| relabel_motif(n, c, m).contains(y) implies relabel_motif(n, q, once).contains(y) by {
        let f = choose|f: int| m.contains(f) && edge_image(n, c, f) == y;
        lemma_edge_image_then(n, p, q, f);
        assert(once.contains(edge_image(n, p, f)));
    }
    assert(relabel_motif(n, q, once) =~= relabel_motif(n, c, m));
}

/// Renaming by a permutation and then by its inverse renames nothing.
pub proof fn lemma_inverse_perm(p: Seq<int>, n: nat)
    requires
        is_perm(p, n),
    ensures
        is_perm(inverse_perm(p, n), n),
        then_perm(p, inverse_perm(p, n)) == identity_perm(n),
{
    let inv = inverse_perm(p, n);
    assert forall|w: int| 0 <= w < n implies 0 <= #[trigger] inv[w] < n && p[inv[w]] == w by {
        crate::util::lemma_perm_surjective(p, n, w);
    }
    assert forall|i: int, j: int| 0 <= i < n && 0 <= j < n && i != j implies inv[i] != inv[j] by {
        assert(p[inv[i]] == i);
        assert(p[inv[j]] == j);
    }
    assert forall|v: int| 0 <= v < n implies #[trigger] then_perm(p, inv)[v] == v by {
        assert(0 <= p[v] < n);
        assert(p[inv[p[v]]] == p[v]);
    }
    assert(then_perm(p, inv) =~= identity_perm(n));
}

/// Being a relabeling is an equivalence: a relabeling `x` of `m` has `m`
/// among its relabelings, and the two have the same relabelings.
pub proof fn lemma_relabelings_equivalence(n: nat, m: Set<int>, x: Set<int>)
    requires
        m.subset_of(edge_range(n)),
        relabelings(n, m).contains(x),
    ensures
        relabelings(n, x).contains(m),
        relabelings(n, x) == relabelings(n, m),
{
    let p = choose|p: Seq<int>| is_perm(p, n) && x == #[trigger] relabel_motif(n, p, m);
    lemma_relabel_identity(n, m);
    assert(x.subset_of(edge_range(n))) by {
        assert forall|g: int| x.contains(g) implies edge_range(n).contains(g) by {
            let f = choose|f: int| m.contains(f) && edge_image(n, p, f) == g;
            lemma_edge_image(n, p, f);
        }
    }
    let inv = inverse_perm(p, n);
    lemma_inverse_perm(p, n);
    lemma_relabel_then(n, p, inv, m);
    assert(relabel_motif(n, inv, x) == m);
    assert(relabelings(n, x).contains(m));
    assert forall|y: Set<int>| relabelings(n, x).contains(y) implies relabelings(n, m).contains(y) by {
        let q = choose|q: Seq<int>| is_perm(q, n) && y == #[trigger] relabel_motif(n, q, x);
        lemma_relabel_then(n, p, q, m);
    }
    assert forall|y: Set<int>| relabelings(n, m).contains(y) implies relabelings(n, x).contains(y) by {
        let q = choose|q: Seq<int>| is_perm(q, n) && y == #[trigger] relabel_motif(n, q, m);
        lemma_relabel_then(n, inv, q, x);
    }
    assert(relabelings(n, x) =~= relabelings(n, m));
}

impl<const N: usize> CompactMotif<N> {
    /// The motif with node `v` renamed `perm[v]`; `node_map` is the node map
    /// of order `N` (see `node_map`).
    pub fn relabeled_by(&self, perm: &[u8; N], node_map: &Vec<CompressedNodeSet>) -> (r: Self)
        requires
            2 <= N <= 5,
            is_perm(perm_view(*perm), N as nat),
            is_node_map(N as nat, node_map@),
            self@.subset_of(edge_range(N as nat)),
        ensures
            r@ == relabel_motif(N as nat, perm_view(*perm), self@),
    {
        let ghost p = perm_view(*perm);
        let ghost m = self@;
        let c = self.container();
        let mut word: u32 = 0;
        let mut e: usize = 0;
        proof {
            crate::bits::lemma_bit32_zero();
            assert(relabel_motif(N as nat, p, m.intersect(set_int_range(0, 0))) =~= Set::<int>::empty());
            lemma_edge_numbering(N as nat);
            assert(edge_total(N as nat) <= 26) by {
                crate::tables::lemma_edge_totals();
            }
        }
        while e < node_map.len()
            invariant
                2 <= N <= 5,
                p == perm_view(*perm),
                is_perm(p, N as nat),
                is_node_map(N as nat, node_map@),
                edge_total(N as nat) <= 26,
                m == self@,
                m == set32(c),
                m.subset_of(edge_range(N as nat)),
                e <= node_map.len(),
                set32(word) == relabel_motif(N as nat, p, m.intersect(set_int_range(0, e as int))),
                forall|f: int, g: int|
                    0 <= f < edge_total(N as nat) && 0 <= g < edge_total(N as nat) && #[trigger] edge_nodes(N as nat, f)
                        == #[trigger] edge_nodes(N as nat, g) ==> f == g,
            decreases node_map.len() - e,
        {
            let ghost before = m.intersect(set_int_range(0, e as int));
            let ghost after = m.intersect(set_int_range(0, e + 1));
            let bit = 1u32 << (e as u32);
            proof {
                lemma_bit32_shl1(e as u32);
                lemma_bit32_and(c, bit);
                lemma_set32_empty(c & bit);
                assert(set32(c & bit) =~= if m.contains(e as int) { set![e as int] } else { Set::<int>::empty() });
            }
            if c & bit != 0 {
                let nodes = node_map[e].nodes;
                proof {
                    lemma_edge_nodes_range(N as nat, e as int);
                    lemma_edge_image(N as nat, p, e as int);
                    assert(node_map@[e as int]@ == edge_nodes(N as nat, e as int));
                }
                let renamed = rename_nodes(nodes, perm);
                let g = edge_number::<N>(node_map, renamed);
                proof {
                    assert(g as int == edge_image(N as nat, p, e as int));
                    lemma_bit32_shl1(g as u32);
                    lemma_bit32_or(word, 1u32 << (g as u32));
                    assert(after =~= before.insert(e as int));
                    let f = |x: int| edge_image(N as nat, p, x);
                    assert(relabel_motif(N as nat, p, after) =~= relabel_motif(N as nat, p, before).insert(g as int)) by {
                        assert forall|y: int| #[trigger] relabel_motif(N as nat, p, after).contains(y) implies relabel_motif(N as nat, p, before).insert(g as int).contains(y) by {
                            let x = choose|x: int| after.contains(x) && f(x) == y;
                            if x != e {
                                assert(before.contains(x));
                            }
                        }
                        assert forall|y: int| #[trigger] relabel_motif(N as nat, p, before).insert(g as int).contains(y) implies relabel_motif(N as nat, p, after).contains(y) by {
                            if y == g {
                                assert(after.contains(e as int));
                            } else {
                                let x = choose|x: int| before.contains(x) && f(x) == y;
                                assert(after.contains(x));
                            }
                        }
                    }
                }
                word = word | (1u32 << (g as u32));
            } else {
                proof {
                    assert(set32(c & bit) == Set::<int>::empty());
                    if m.contains(e as int) {
                        assert(set32(c & bit).contains(e as int));
                    }
                    assert(after =~= before);
                }
            }
            e += 1;
        }
        proof {
            assert(m.intersect(set_int_range(0, node_map.len() as int)) =~= m);
        }
        Self::new(word)
    }

    /// Every motif that `self` becomes under a renaming of its nodes, each once.
    pub fn isomorphic_labelings(&self) -> (r: Vec<Self>)
        requires
            2 <= N <= 5,
            self@.subset_of(edge_range(N as nat)),
        ensures
            motif_views(r@).no_duplicates(),
            motif_views(r@).to_set() == relabelings(N as nat, self@),
            forall|i: int| 0 <= i < r.len() ==> (#[trigger] r@[i])@.subset_of(edge_range(N as nat)),
    {
        let node_map = Self::node_map();
        proof {
            assert(fact(5) == 120) by {
                assert(fact(1) == 1 * fact(0));
                assert(fact(2) == 2 * fact(1));
                assert(fact(3) == 3 * fact(2));
                assert(fact(4) == 4 * fact(3));
                assert(fact(5) == 5 * fact(4));
            }
            crate::util::lemma_fact_mono(N as nat, 5);
            crate::tables::lemma_edge_totals();
            assert(edge_total(N as nat) >= 1) by {
                if N == 2 {
                } else if N == 3 {
                } else if N == 4 {
                } else {
                }
            }
        }
        let total = factorial(N);
        let mut out: Vec<Self> = Vec::new();
        let mut k: usize = 0;
        while k < total
            invariant
                2 <= N <= 5,
                total == fact(N as nat),
                edge_total(N as nat) >= 1,
                is_node_map(N as nat, node_map@),
                self@.subset_of(edge_range(N as nat)),
                k <= total,
                motif_views(out@).no_duplicates(),
                forall|i: int| 0 <= i < out.len() ==> relabelings(N as nat, self@).contains(#[trigger] out@[i]@),
                forall|i: int| 0 <= i < out.len() ==> (#[trigger] out@[i])@.subset_of(edge_range(N as nat)),
                forall|r: nat| r < k ==> motif_views(out@).contains(#[trigger] relabel_motif(N as nat, unrank(r, N as nat), self@)),
            decreases total - k,
        {
            let perm: [u8; N] = BinPerm::from_usize(k).decode::<N>();
            proof {
                lemma_unrank_perm(k as nat, N as nat);
            }
            let m = self.relabeled_by(&perm, &node_map);
            proof {
                assert(relabelings(N as nat, self@).contains(m@));
                crate::invariance::lemma_relabel_member(N as nat, perm_view(perm), self@, 0);
            }
            let w = m.container();
            let mut found = false;
            let mut j: usize = 0;
            while j < out.len()
                invariant
                    j <= out.len(),
                    w == m.bits(),
                    found <==> exists|jj: int| 0 <= jj < j && #[trigger] out@[jj]@ == m@,
                decreases out.len() - j,
            {
                let ghost oj = out@[j as int];
                if out[j].container() == w {
                    found = true;
                    proof {
                        assert(out@[j as int]@ == m@);
                    }
                } else {
                    proof {
                        if oj@ == m@ {
                            lemma_set32_ext(oj.bits(), m.bits());
                        }
                    }
                }
                j += 1;
            }
            let ghost old_views = motif_views(out@);
            if !found {
                out.push(m);
                proof {
                    assert(motif_views(out@) =~= old_views.push(m@));
                    assert forall|a: int, b: int| 0 <= a < b < motif_views(out@).len() implies motif_views(out@)[a] != motif_views(out@)[b] by {
                        if b == old_views.len() {
                            assert(motif_views(out@)[a] == out@[a]@);
                        }
                    }
                }
            }
            proof {
                assert forall|r: nat| r < k + 1 implies motif_views(out@).contains(#[trigger] relabel_motif(N as nat, unrank(r, N as nat), self@)) by {
                    if r < k {
                        let i = choose|i: int| 0 <= i < old_views.len() && old_views[i] == relabel_motif(N as nat, unrank(r, N as nat), self@);
                        assert(motif_views(out@)[i] == old_views[i]);
                    } else if found {
                        let jj = choose|jj: int| 0 <= jj < out.len() && #[trigger] out@[jj]@ == m@;
                        assert(motif_views(out@)[jj] == m@);
                    } else {
                        assert(motif_views(out@)[old_views.len() as int] == m@);
                    }
                }
            }
            k += 1;
        }
        proof {
            let views = motif_views(out@);
            assert forall|x: Set<int>| views.to_set().contains(x) <==> relabelings(N as nat, self@).contains(x) by {
                if views.to_set().contains(x) {
                    let i = choose|i: int| 0 <= i < views.len() && views[i] == x;
                    assert(relabelings(N as nat, self@).contains(out@[i]@));
                }
                if relabelings(N as nat, self@).contains(x) {
                    let p = choose|p: Seq<int>| is_perm(p, N as nat) && x == #[trigger] relabel_motif(N as nat, p, self@);
                    lemma_rank_bound(p, N as nat);
                    lemma_unrank_rank(p, N as nat);
                    assert(motif_views(out@).contains(relabel_motif(N as nat, unrank(rank(p, N as nat), N as nat), self@)));
                }
            }
            assert(views.to_set() =~= relabelings(N as nat, self@));
        }
        out
    }

    /// How many motifs `self` becomes under the renamings of its nodes.
    pub fn isomorphism_count(&self) -> (r: usize)
        requires
            2 <= N <= 5,
            self@.subset_of(edge_range(N as nat)),
        ensures
            r == relabelings(N as nat, self@).len(),
    {
        let v = self.isomorphic_labelings();
        proof {
            motif_views(v@).unique_seq_to_set();
        }
        v.len()
    }

    /// Whether a fingerprint bucket of `bucket_size` labelings, of which
    /// `self` is one, holds more than the class of `self`: its size differs
    /// from the number of relabelings of `self`.
    pub fn bucket_clashes(&self, bucket_size: usize) -> (r: bool)
        requires
            2 <= N <= 5,
            self@.subset_of(edge_range(N as nat)),
        ensures
            r == (relabelings(N as nat, self@).len() != bucket_size),
    {
        self.isomorphism_count() != bucket_size
    }

    /// One motif of each isomorphism class met in `motifs`: walking the list,
    /// a motif is kept when it is no relabeling of a motif kept before.
    pub fn class_representatives(motifs: &Vec<Self>) -> (r: Vec<Self>)
        requires
            2 <= N <= 5,
            forall|j: int| 0 <= j < motifs.len() ==> (#[trigger] motifs@[j])@.subset_of(edge_range(N as nat)),
        ensures
            forall|i: int| 0 <= i < r.len() ==> #[trigger] motifs@.contains(r@[i]),
            forall|a: int, b: int|
                0 <= a < r.len() && 0 <= b < r.len() && a != b ==> !#[trigger] relabelings(N as nat, r@[a]@).contains(
                    #[trigger] r@[b]@,
                ),
            forall|j: int| 0 <= j < motifs.len() ==> in_some_class(r@, (#[trigger] motifs@[j])@),
    {
        let mut reps: Vec<Self> = Vec::new();
        let mut seen: Vec<Self> = Vec::new();
        let mut idx: usize = 0;
        while idx < motifs.len()
            invariant
                2 <= N <= 5,
                idx <= motifs.len(),
                forall|j: int| 0 <= j < motifs.len() ==> (#[trigger] motifs@[j])@.subset_of(edge_range(N as nat)),
                forall|x: Set<int>| #[trigger] motif_views(seen@).contains(x) <==> in_some_class(reps@, x),
                forall|i: int| 0 <= i < reps.len() ==> #[trigger] motifs@.contains(reps@[i]),
                classes_apart(reps@),
                forall|j: int| 0 <= j < idx ==> in_some_class(reps@, (#[trigger] motifs@[j])@),
            decreases motifs.len() - idx,
        {
            let m = motifs[idx];
            let found = contains_motif(&seen, &m);
            let ghost reps0 = reps@;
            let ghost seen0 = seen@;
            if !found {
                proof {
                    lemma_relabel_identity(N as nat, m@);
                }
                let labs = m.isomorphic_labelings();
                append_motifs(&mut seen, &labs);
                reps.push(m);
                proof {
                    lemma_add_class(seen0, labs@, reps0, m);
                    lemma_new_class(reps0, m);
                    assert forall|i: int| 0 <= i < reps.len() implies #[trigger] motifs@.contains(reps@[i]) by {
                        if i < reps0.len() {
                            assert(reps@[i] == reps0[i]);
                        } else {
                            assert(motifs@[idx as int] == reps@[i]);
                        }
                    }
                }
            }
            proof {
                assert(reps@.subrange(0, reps0.len() as int) =~= reps0);
                lemma_classes_grow(reps0, reps@, motifs@, idx as int);
            }
            idx += 1;
        }
        proof {
            assert forall|a: int, b: int|
                0 <= a < reps.len() && 0 <= b < reps.len() && a != b implies !#[trigger] relabelings(N as nat, reps@[a]@).contains(
                    #[trigger] reps@[b]@,
                ) by {
                if b < a && relabelings(N as nat, reps@[a]@).contains(reps@[b]@) {
                    assert(motifs@.contains(reps@[a]));
                    let j = choose|j: int| 0 <= j < motifs.len() && motifs@[j] == reps@[a];
                    assert(motifs@[j]@.subset_of(edge_range(N as nat)));
                    lemma_relabelings_equivalence(N as nat, reps@[a]@, reps@[b]@);
                }
            }
        }
        reps
    }
}

} // verus!
