//! The rounds of Heap's algorithm, as spec functions, with the facts that show
//! it lists every arrangement once.

use vstd::prelude::*;

verus! {

use vstd::multiset::Multiset;

/// The first `k` entries of `a` turned right by `s` places (`0 <= s <= k`):
/// the entry at `j` moves to `j + s`, wrapping round at `k`.
pub open spec fn turned<A>(a: Seq<A>, k: int, s: int) -> Seq<A> {
    Seq::new(
        a.len(),
        |j: int|
            if j < k {
                if j >= s {
                    a[j - s]
                } else {
                    a[j - s + k]
                }
            } else {
                a[j]
            },
    )
}

/// The array after `i` rounds of Heap's algorithm on the first `k` entries,
/// `k` even: each round swaps entry `i` with entry `k - 1`.
pub open spec fn swept<A>(a: Seq<A>, k: int, i: int) -> Seq<A> {
    if i == 0 {
        a
    } else {
        let m = if i < k {
            i
        } else {
            k - 1
        };
        Seq::new(
            a.len(),
            |j: int|
                if j == 0 {
                    a[k - 1]
                } else if j < m {
                    a[j - 1]
                } else if j < k - 1 {
                    a[j]
                } else if j == k - 1 {
                    a[m - 1]
                } else {
                    a[j]
                },
        )
    }
}

/// The array after `i` rounds of Heap's algorithm on its first `k` entries.
pub open spec fn heap_round<A>(a: Seq<A>, k: int, i: int) -> Seq<A> {
    if k % 2 == 1 {
        turned(a, k, i)
    } else {
        swept(a, k, i)
    }
}

/// What Heap's algorithm on the first `k` entries leaves in the array: the
/// array itself for odd `k`, its first `k` entries turned right by one place
/// for even `k`.
pub open spec fn heap_effect<A>(a: Seq<A>, k: int) -> Seq<A> {
    if k % 2 == 1 {
        a
    } else {
        turned(a, k, 1)
    }
}

/// The entry that stands last among the first `k` in round `b`.
pub open spec fn round_entry<A>(a: Seq<A>, k: int, b: int) -> A {
    if k % 2 == 1 {
        a[k - 1 - b]
    } else if b == 0 {
        a[k - 1]
    } else {
        a[b - 1]
    }
}

/// The arrangements that Heap's algorithm on the first `k` entries of `a`
/// lists, in its order: for `k` up to 1, `a` itself; else, for each round `i`
/// below `k`, those of the first `k - 1` entries of `heap_round(a, k, i)`.
pub open spec fn heap_table<A>(a: Seq<A>, k: int) -> Seq<Seq<A>>
    decreases k, 1int, 0int,
{
    if k <= 1 {
        seq![a]
    } else {
        heap_blocks(a, k, k)
    }
}

/// The arrangements that the first `i` rounds of Heap's algorithm on the
/// first `k` entries of `a` list.
pub open spec fn heap_blocks<A>(a: Seq<A>, k: int, i: int) -> Seq<Seq<A>>
    decreases k, 0int, i,
{
    if i <= 0 || k <= 1 {
        Seq::empty()
    } else {
        heap_blocks(a, k, i - 1) + heap_table(heap_round(a, k, i - 1), k - 1)
    }
}

/// Heap's algorithm starts from the array itself and ends as `heap_effect` says.
pub proof fn lemma_round_ends<A>(a: Seq<A>, k: int)
    requires
        1 <= k <= a.len(),
    ensures
        heap_round(a, k, 0) == a,
        heap_round(a, k, k) == heap_effect(a, k),
{
    assert(turned(a, k, 0) =~= a);
    assert(turned(a, k, k) =~= a);
    if k % 2 == 0 {
        assert(swept(a, k, k) =~= turned(a, k, 1));
    }
}

/// In round `b`, the last of the first `k` entries is `round_entry(a, k, b)`,
/// and the entries from `k` on are those of `a`.
pub proof fn lemma_round_entry<A>(a: Seq<A>, k: int, b: int)
    requires
        1 <= k <= a.len(),
        0 <= b < k,
    ensures
        heap_round(a, k, b).len() == a.len(),
        heap_round(a, k, b)[k - 1] == round_entry(a, k, b),
        forall|t: int| k <= t < a.len() ==> #[trigger] heap_round(a, k, b)[t] == a[t],
{
}

/// Rounds of a list without repeats have different last entries.
pub proof fn lemma_round_entries_differ<A>(a: Seq<A>, k: int, b: int, c: int)
    requires
        1 <= k <= a.len(),
        a.no_duplicates(),
        0 <= b < k,
        0 <= c < k,
        round_entry(a, k, b) == round_entry(a, k, c),
    ensures
        b == c,
{
}

/// Every one of the first `k` entries is last in some round.
pub proof fn lemma_round_entry_onto<A>(a: Seq<A>, k: int, j: int)
    requires
        1 <= k <= a.len(),
        0 <= j < k,
    ensures
        exists|b: int| 0 <= b < k && round_entry(a, k, b) == a[j],
{
    if k % 2 == 1 {
        assert(round_entry(a, k, k - 1 - j) == a[j]);
    } else if j == k - 1 {
        assert(round_entry(a, k, 0) == a[j]);
    } else {
        assert(round_entry(a, k, j + 1) == a[j]);
    }
}

/// One round for odd `k`: Heap's algorithm on the first `k - 1` entries,
/// then entry `0` swapped with entry `k - 1`.
pub proof fn lemma_odd_round<A>(a: Seq<A>, k: int, i: int)
    requires
        3 <= k <= a.len(),
        k % 2 == 1,
        0 <= i < k,
    ensures
        ({
            let t = heap_effect(heap_round(a, k, i), k - 1);
            t.update(0, t[k - 1]).update(k - 1, t[0])
        }) == heap_round(a, k, i + 1),
{
    let t = heap_effect(heap_round(a, k, i), k - 1);
    assert(t.update(0, t[k - 1]).update(k - 1, t[0]) =~= heap_round(a, k, i + 1));
}

/// One round for even `k`: Heap's algorithm on the first `k - 1` entries
/// (which leaves them as they are), then entry `i` swapped with entry `k - 1`.
pub proof fn lemma_even_round<A>(a: Seq<A>, k: int, i: int)
    requires
        2 <= k <= a.len(),
        k % 2 == 0,
        0 <= i < k,
    ensures
        ({
            let t = heap_effect(heap_round(a, k, i), k - 1);
            t.update(i, t[k - 1]).update(k - 1, t[i])
        }) == heap_round(a, k, i + 1),
{
    let t = heap_effect(heap_round(a, k, i), k - 1);
    assert(t.update(i, t[k - 1]).update(k - 1, t[i]) =~= heap_round(a, k, i + 1));
}

/// A rearrangement of a list without repeats has none.
pub proof fn lemma_rearranged_no_duplicates<A>(a: Seq<A>, b: Seq<A>)
    requires
        a.no_duplicates(),
        a.to_multiset() == b.to_multiset(),
    ensures
        b.no_duplicates(),
{
    a.lemma_multiset_has_no_duplicates();
    b.lemma_multiset_has_no_duplicates_conv();
}

/// `v` stood last among the first `k` entries in one of the rounds before round `i`.
pub open spec fn earlier_entry<A>(a: Seq<A>, k: int, i: int, v: A) -> bool {
    exists|b: int| 0 <= b < i && #[trigger] round_entry(a, k, b) == v
}

/// `p` rearranges the first `k` entries of `a` and keeps the others.
pub open spec fn arranges<A>(p: Seq<A>, a: Seq<A>, k: int) -> bool {
    &&& p.to_multiset() == a.to_multiset()
    &&& forall|t: int| k <= t < a.len() ==> #[trigger] p[t] == a[t]
}

/// A rearrangement of the first entry alone is the list itself.
pub proof fn lemma_arranges_one<A>(p: Seq<A>, a: Seq<A>)
    requires
        a.len() >= 1,
        arranges(p, a, 1),
    ensures
        p == a,
{
    broadcast use vstd::seq_lib::group_to_multiset_ensures;
    broadcast use vstd::multiset::group_multiset_axioms;

    assert(p.len() == p.to_multiset().len());
    assert(a.len() == a.to_multiset().len());
    let tail = a.skip(1);
    assert(p.skip(1) =~= tail);
    assert(p =~= seq![p[0]] + tail);
    assert(a =~= seq![a[0]] + tail);
    vstd::seq_lib::lemma_multiset_commutative(seq![p[0]], tail);
    vstd::seq_lib::lemma_multiset_commutative(seq![a[0]], tail);
    assert(seq![p[0]].to_multiset() =~= Multiset::singleton(p[0])) by {
        assert(seq![p[0]] =~= Seq::<A>::empty().push(p[0]));
    }
    assert(seq![a[0]].to_multiset() =~= Multiset::singleton(a[0])) by {
        assert(seq![a[0]] =~= Seq::<A>::empty().push(a[0]));
    }
    assert(p.to_multiset().count(p[0]) == 1 + tail.to_multiset().count(p[0]));
    assert(a.to_multiset().count(p[0]) == tail.to_multiset().count(p[0]) + if a[0] == p[0] { 1nat } else { 0nat });
    assert(p =~= a);
}

/// The last of the first `k` entries of a rearrangement of a list without
/// repeats is one of the first `k` entries of the list.
pub proof fn lemma_arranged_entry<A>(p: Seq<A>, a: Seq<A>, k: int)
    requires
        1 <= k <= a.len(),
        a.no_duplicates(),
        arranges(p, a, k),
    ensures
        exists|j: int| 0 <= j < k && a[j] == p[k - 1],
{
    broadcast use vstd::seq_lib::group_to_multiset_ensures;

    assert(p.len() == p.to_multiset().len());
    assert(a.len() == a.to_multiset().len());
    lemma_rearranged_no_duplicates(a, p);
    assert(p.contains(p[k - 1]));
    assert(p.to_multiset().count(p[k - 1]) > 0);
    assert(a.to_multiset().count(p[k - 1]) > 0);
    assert(a.contains(p[k - 1]));
    let j = choose|j: int| 0 <= j < a.len() && a[j] == p[k - 1];
    if j >= k {
        assert(p[j] == a[j]);
    }
}

} // verus!
