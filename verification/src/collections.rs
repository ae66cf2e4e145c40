//! The hash collections and iterator adaptors of outside crates that the
//! library calls, each behind a stated contract.

use vstd::prelude::*;
use itertools::Itertools;

verus! {

use crate::lex::edges_view;
use crate::tables::combos;
use crate::motifs::{Motif, motifs_view};

/// A map from node numbers to node numbers, held in a `hashbrown::HashMap`.
#[verifier::external_body]
pub struct NodeMapping {
    map: hashbrown::HashMap<usize, usize>,
}

/// What a node mapping holds.
pub uninterp spec fn node_mapping_contents(m: NodeMapping) -> Map<usize, usize>;

/// The map that sends the key of each pair to its value (keys distinct).
pub open spec fn map_of_pairs(ps: Seq<(usize, usize)>) -> Map<usize, usize> {
    Map::new(
        |k: usize| exists|i: int| 0 <= i < ps.len() && #[trigger] ps[i].0 == k,
        |k: usize| ps[choose|i: int| 0 <= i < ps.len() && #[trigger] ps[i].0 == k].1,
    )
}

/// `hashbrown::HashMap`'s `FromIterator` on pairs with distinct keys: the
/// map sends each key to the value paired with it, and holds no other key.
#[verifier::external_body]
fn node_mapping_from_pairs(pairs: Vec<(usize, usize)>) -> (r: NodeMapping)
    requires
        forall|i: int, j: int| 0 <= i < j < pairs.len() ==> (#[trigger] pairs@[i]).0 != (#[trigger] pairs@[j]).0,
    ensures
        node_mapping_contents(r) == map_of_pairs(pairs@),
{
    NodeMapping { map: pairs.into_iter().collect() }
}

/// The renaming of node `i` to `perm[i - 1]`, for `i` in `1..=perm.len()`.
pub(crate) fn node_mapping_from_perm(perm: &Vec<usize>) -> (r: NodeMapping)
    ensures
        node_mapping_contents(r) == Map::new(
            |i: usize| 1 <= i <= perm.len(),
            |i: usize| perm@[i - 1],
        ),
{
    let mut pairs: Vec<(usize, usize)> = Vec::new();
    let mut i: usize = 0;
    while i < perm.len()
        invariant
            i <= perm.len(),
            pairs.len() == i,
            forall|j: int| 0 <= j < i ==> #[trigger] pairs@[j] == ((j + 1) as usize, perm@[j]),
        decreases perm.len() - i,
    {
        pairs.push((i + 1, perm[i]));
        i += 1;
    }
    let ghost ps = pairs@;
    let r = node_mapping_from_pairs(pairs);
    proof {
        let want = Map::new(|i: usize| 1 <= i <= perm.len(), |i: usize| perm@[i - 1]);
        let got = map_of_pairs(ps);
        assert forall|k: usize| #[trigger] got.contains_key(k) <==> want.contains_key(k) by {
            if 1 <= k <= perm.len() {
                assert(ps[k - 1].0 == k);
            }
        }
        assert forall|k: usize| want.contains_key(k) implies got[k] == want[k] by {
            assert(ps[k - 1].0 == k);
            let i = choose|i: int| 0 <= i < ps.len() && #[trigger] ps[i].0 == k;
            assert(i == k - 1);
        }
        assert(got =~= want);
    }
    r
}

/// `hashbrown::HashMap::get` on a key that the map holds: the value stored for it.
#[verifier::external_body]
pub(crate) fn node_mapping_get(m: &NodeMapping, v: usize) -> (r: usize)
    requires
        node_mapping_contents(*m).contains_key(v),
    ensures
        r == node_mapping_contents(*m)[v],
{
    *m.map.get(&v).unwrap()
}

/// A set of node numbers, held in a `hashbrown::HashSet`.
#[verifier::external_body]
pub struct NodeSet {
    set: hashbrown::HashSet<usize>,
}

/// What a node set holds.
pub uninterp spec fn node_set_contents(s: NodeSet) -> Set<usize>;

/// `hashbrown::HashSet::new`: an empty set.
#[verifier::external_body]
pub(crate) fn node_set_new() -> (r: NodeSet)
    ensures
        node_set_contents(r) == Set::<usize>::empty(),
{
    NodeSet { set: hashbrown::HashSet::new() }
}

/// `hashbrown::HashSet::extend` with the nodes of a list: the set gains them.
#[verifier::external_body]
pub(crate) fn node_set_extend(s: &mut NodeSet, nodes: &Vec<usize>)
    ensures
        node_set_contents(*final(s)) == node_set_contents(*old(s)).union(nodes@.to_set()),
{
    s.set.extend(nodes.iter().copied());
}

/// `hashbrown::HashSet::len`: the number of members.
#[verifier::external_body]
pub(crate) fn node_set_len(s: &NodeSet) -> (r: usize)
    ensures
        r == node_set_contents(*s).len(),
{
    s.set.len()
}

/// A set of hypergraphs (edge lists), held in a `hashbrown::HashSet`.
#[verifier::external_body]
pub struct HypergraphSet {
    set: hashbrown::HashSet<Vec<Vec<usize>>>,
}

/// What a set of hypergraphs holds.
pub uninterp spec fn hypergraph_set_contents(s: HypergraphSet) -> Set<Seq<Seq<usize>>>;

/// `hashbrown::HashSet::new`: an empty set.
#[verifier::external_body]
pub(crate) fn hypergraph_set_new() -> (r: HypergraphSet)
    ensures
        hypergraph_set_contents(r) == Set::<Seq<Seq<usize>>>::empty(),
{
    HypergraphSet { set: hashbrown::HashSet::new() }
}

/// `hashbrown::HashSet::insert`: the set gains the hypergraph (`Vec`'s
/// equality and hash go by the elements).
#[verifier::external_body]
pub(crate) fn hypergraph_set_insert(s: &mut HypergraphSet, g: Vec<Vec<usize>>)
    ensures
        hypergraph_set_contents(*final(s)) == hypergraph_set_contents(*old(s)).insert(edges_view(g@)),
{
    s.set.insert(g);
}

/// `hashbrown::HashSet::into_iter`, collected: each member once, in an order
/// that depends on the hasher's random seed and is left unsaid.
#[verifier::external_body]
pub(crate) fn hypergraph_set_into_vec(s: HypergraphSet) -> (r: Vec<Vec<Vec<usize>>>)
    ensures
        r@.map_values(|g: Vec<Vec<usize>>| edges_view(g@)).no_duplicates(),
        r@.map_values(|g: Vec<Vec<usize>>| edges_view(g@)).to_set() == hypergraph_set_contents(s),
{
    s.set.into_iter().collect()
}

/// The motif classes: each canonical representative with the list of its
/// labelings, held in a `hashbrown::HashMap` with `foldhash`'s fixed hasher.
#[verifier::external_body]
pub struct MotifClasses {
    map: hashbrown::HashMap<Motif, Vec<Motif>, foldhash::fast::FixedState>,
}

/// What the motif classes hold.
pub uninterp spec fn motif_classes_contents(m: MotifClasses) -> Map<Seq<Seq<usize>>, Seq<Seq<Seq<usize>>>>;

/// `hashbrown::HashMap::with_hasher(FixedState::default())`: an empty map.
#[verifier::external_body]
pub(crate) fn motif_classes_new() -> (r: MotifClasses)
    ensures
        motif_classes_contents(r).dom() == Set::<Seq<Seq<usize>>>::empty(),
{
    MotifClasses { map: hashbrown::HashMap::with_hasher(foldhash::fast::FixedState::default()) }
}

/// `hashbrown::HashMap::insert`: the key now maps to the value (a motif's
/// equality and hash go by its edge lists).
#[verifier::external_body]
pub(crate) fn motif_classes_insert(m: &mut MotifClasses, k: Motif, v: Vec<Motif>)
    ensures
        motif_classes_contents(*final(m)) == motif_classes_contents(*old(m)).insert(k@, motifs_view(v@)),
{
    m.map.insert(k, v);
}

/// `hashbrown::HashMap::get`, then the length of the list found: `None`
/// where the key is absent.
#[verifier::external_body]
pub(crate) fn motif_classes_member_count(m: &MotifClasses, k: &Motif) -> (r: Option<usize>)
    ensures
        r == if motif_classes_contents(*m).contains_key(k@) {
            Some(motif_classes_contents(*m)[k@].len() as usize)
        } else {
            None::<usize>
        },
{
    match m.map.get(k) {
        Some(v) => Some(v.len()),
        None => None,
    }
}

/// `hashbrown::HashMap::get`, the list found cloned (a derived `Clone`
/// copies the edge lists): `None` where the key is absent.
#[verifier::external_body]
pub(crate) fn motif_classes_get(m: &MotifClasses, k: &Motif) -> (r: Option<Vec<Motif>>)
    ensures
        r is Some <==> motif_classes_contents(*m).contains_key(k@),
        r matches Some(v) ==> motifs_view(v@) == motif_classes_contents(*m)[k@],
{
    m.map.get(k).cloned()
}

/// `hashbrown::HashMap::keys`, each key cloned, collected: every key once,
/// in the map's order, which is left unsaid.
#[verifier::external_body]
pub(crate) fn motif_classes_keys(m: &MotifClasses) -> (r: Vec<Motif>)
    ensures
        motifs_view(r@).no_duplicates(),
        motifs_view(r@).to_set() == motif_classes_contents(*m).dom(),
{
    m.map.keys().cloned().collect()
}

/// `hashbrown::HashMap::len`: the number of keys.
#[verifier::external_body]
pub fn motif_classes_len(m: &MotifClasses) -> (r: usize)
    ensures
        r == motif_classes_contents(*m).len(),
{
    m.map.len()
}

/// What `Itertools::permutations` yields on the list `base` and length `k`.
pub uninterp spec fn permutations_of(base: Seq<usize>, k: nat) -> Seq<Seq<usize>>;

/// `p` lists the members of `base` in some order.
pub open spec fn is_arrangement(p: Seq<usize>, base: Seq<usize>) -> bool {
    &&& p.len() == base.len()
    &&& p.no_duplicates()
    &&& p.to_set() == base.to_set()
}

/// The arrangements of the positions `s`: for each member of `s` in turn,
/// that member followed by each arrangement of the others.
pub open spec fn arrangements_in_order(s: Seq<int>) -> Seq<Seq<int>>
    decreases s.len(), 1int, 0int,
{
    if s.len() == 0 {
        seq![Seq::<int>::empty()]
    } else {
        arrangements_from(s, 0)
    }
}

/// The arrangements of `s` that start with its member `i` or a later one.
pub open spec fn arrangements_from(s: Seq<int>, i: int) -> Seq<Seq<int>>
    decreases s.len(), 0int, s.len() - i,
{
    if i < 0 || i >= s.len() {
        Seq::empty()
    } else {
        arrangements_in_order(s.remove(i)).map_values(|p: Seq<int>| seq![s[i]] + p) + arrangements_from(s, i + 1)
    }
}

/// The arrangements of the members of `base`, in the order of their
/// positions: lexicographic in the positions.
pub open spec fn ordered_arrangements(base: Seq<usize>) -> Seq<Seq<usize>> {
    arrangements_in_order(Seq::new(base.len(), |j: int| j)).map_values(
        |p: Seq<int>| p.map_values(|j: int| base[j]),
    )
}

/// `Itertools::permutations(k)` on the members of `base`, collected: lists
/// of length `k`. With `k` the length of `base`, they are the arrangements of
/// its members in lexicographic order of their positions (the cycle
/// algorithm of the source); on a list without repeats each arrangement of
/// the list comes exactly once.
#[verifier::external_body]
pub(crate) fn permutations(base: &Vec<usize>, k: usize) -> (r: Vec<Vec<usize>>)
    ensures
        edges_view(r@) == permutations_of(base@, k as nat),
        forall|i: int| 0 <= i < r@.len() ==> (#[trigger] r@[i])@.len() == k,
        k == base.len() ==> edges_view(r@) == ordered_arrangements(base@),
        k == base.len() && base@.no_duplicates() ==> {
            &&& edges_view(r@).no_duplicates()
            &&& forall|p: Seq<usize>| #[trigger] edges_view(r@).contains(p) <==> is_arrangement(p, base@)
        },
{
    base.iter().copied().permutations(k).collect()
}

/// `Itertools::combinations(k)` on the members of `base`, collected: the
/// `k`-element combinations, by position, in lexicographic order.
#[verifier::external_body]
pub(crate) fn combinations(base: &Vec<usize>, k: usize) -> (r: Vec<Vec<usize>>)
    ensures
        edges_view(r@) == combos(0, base.len() as int, k as nat).map_values(
            |c: Seq<int>| c.map_values(|j: int| base@[j]),
        ),
{
    base.iter().copied().combinations(k).collect()
}

} // verus!
