//! Sorting networks on small arrays, and a sort that runs them.

use vstd::prelude::*;

verus! {

use crate::util::lemma_swap_multiset;
use crate::network_order::{network9_ordered, network10_ordered, lemma_network9_ordered, lemma_network10_ordered};

/// `s[lo..hi]` is in increasing order.
pub open spec fn sorted_between(s: Seq<u32>, lo: int, hi: int) -> bool {
    forall|a: int, b: int| lo <= a < b < hi ==> s[a] <= s[b]
}

/// Puts `v[i]` and `v[j]` in order (the smaller first).
pub fn cswap(v: &mut Vec<u32>, i: usize, j: usize)
    requires
        i < old(v).len(),
        j < old(v).len(),
    ensures
        final(v)@ == if old(v)@[i as int] > old(v)@[j as int] {
            old(v)@.update(i as int, old(v)@[j as int]).update(j as int, old(v)@[i as int])
        } else {
            old(v)@
        },
        final(v)@.to_multiset() == old(v)@.to_multiset(),
{
    if v[i] > v[j] {
        let ghost s = v@;
        let t = v[i];
        let u = v[j];
        v.set(i, u);
        v.set(j, t);
        proof {
            lemma_swap_multiset(s, i as int, j as int);
        }
    }
}

/// Sorts `v[lo..hi]` by insertion, leaving the rest of `v` alone.
pub fn sort_range(v: &mut Vec<u32>, lo: usize, hi: usize)
    requires
        lo <= hi <= old(v).len(),
    ensures
        final(v).len() == old(v).len(),
        sorted_between(final(v)@, lo as int, hi as int),
        final(v)@.subrange(lo as int, hi as int).to_multiset() == old(v)@.subrange(
            lo as int,
            hi as int,
        ).to_multiset(),
        forall|k: int| 0 <= k < old(v).len() && !(lo <= k < hi) ==> #[trigger] final(v)@[k] == old(v)@[k],
{
    if hi - lo < 2 {
        return;
    }
    let ghost v0 = v@;
    let mut i = lo + 1;
    while i < hi
        invariant
            lo < i <= hi <= v.len(),
            v.len() == v0.len(),
            sorted_between(v@, lo as int, i as int),
            v@.subrange(lo as int, hi as int).to_multiset() == v0.subrange(lo as int, hi as int).to_multiset(),
            forall|k: int| 0 <= k < v0.len() && !(lo <= k < hi) ==> #[trigger] v@[k] == v0[k],
        decreases hi - i,
    {
        let mut j = i;
        while j > lo && v[j - 1] > v[j]
            invariant
                lo <= j <= i < hi <= v.len(),
                v.len() == v0.len(),
                sorted_between(v@, lo as int, j as int),
                sorted_between(v@, j as int, i + 1),
                forall|a: int, b: int| lo <= a < j && j < b <= i ==> v@[a] <= v@[b],
                v@.subrange(lo as int, hi as int).to_multiset() == v0.subrange(lo as int, hi as int).to_multiset(),
                forall|k: int| 0 <= k < v0.len() && !(lo <= k < hi) ==> #[trigger] v@[k] == v0[k],
            decreases j,
        {
            let ghost s = v@;
            let t = v[j - 1];
            let u = v[j];
            v.set(j - 1, u);
            v.set(j, t);
            proof {
                let a = j - 1 - lo;
                let b = j - lo;
                let sub = s.subrange(lo as int, hi as int);
                lemma_swap_multiset(sub, a as int, b as int);
                assert(v@.subrange(lo as int, hi as int) =~= sub.update(a as int, sub[b as int]).update(b as int, sub[a as int]));
            }
            j -= 1;
        }
        i += 1;
    }
}


/// Sorting networks on arrays of a fixed length: a fixed list of
/// compare-and-swap steps.
pub trait SortingNetwork<const N: usize> {
    /// Runs the network on the whole array.
    fn network_sort(&mut self);

    /// Runs the network's comparators on the array, one after the other.
    fn network_sort_slice(&mut self);
}

/// `s` with entries `i` and `j` put in order (the smaller first).
pub open spec fn compare_swap(s: Seq<u32>, i: int, j: int) -> Seq<u32> {
    if s[i] > s[j] {
        s.update(i, s[j]).update(j, s[i])
    } else {
        s
    }
}

/// Puts entries `i` and `j` of an array in order (the smaller first).
pub fn cswap_array<const N: usize>(a: &mut [u32; N], i: usize, j: usize)
    requires
        i < N,
        j < N,
        i != j,
    ensures
        final(a)@ == compare_swap(old(a)@, i as int, j as int),
{
    if a[i] > a[j] {
        let t = a[i];
        a[i] = a[j];
        a[j] = t;
    }
}

/// The comparators of the network on 3 entries, applied to `s` in turn.
pub open spec fn network3(s: Seq<u32>) -> Seq<u32> {
    let s0 = compare_swap(s, 0, 1);
    let s1 = compare_swap(s0, 1, 2);
    let s2 = compare_swap(s1, 0, 1);
    s2
}

/// The comparators of the network on 4 entries, applied to `s` in turn.
pub open spec fn network4(s: Seq<u32>) -> Seq<u32> {
    let s0 = compare_swap(s, 0, 1);
    let s1 = compare_swap(s0, 2, 3);
    let s2 = compare_swap(s1, 0, 2);
    let s3 = compare_swap(s2, 1, 3);
    let s4 = compare_swap(s3, 1, 2);
    s4
}

/// The comparators of the network on 5 entries, applied to `s` in turn.
pub open spec fn network5(s: Seq<u32>) -> Seq<u32> {
    let s0 = compare_swap(s, 0, 1);
    let s1 = compare_swap(s0, 3, 4);
    let s2 = compare_swap(s1, 2, 4);
    let s3 = compare_swap(s2, 2, 3);
    let s4 = compare_swap(s3, 0, 3);
    let s5 = compare_swap(s4, 0, 2);
    let s6 = compare_swap(s5, 1, 4);
    let s7 = compare_swap(s6, 1, 3);
    let s8 = compare_swap(s7, 1, 2);
    s8
}

/// The comparators of the network on 6 entries, applied to `s` in turn.
pub open spec fn network6(s: Seq<u32>) -> Seq<u32> {
    let s0 = compare_swap(s, 1, 2);
    let s1 = compare_swap(s0, 4, 5);
    let s2 = compare_swap(s1, 0, 2);
    let s3 = compare_swap(s2, 3, 5);
    let s4 = compare_swap(s3, 0, 1);
    let s5 = compare_swap(s4, 3, 4);
    let s6 = compare_swap(s5, 2, 5);
    let s7 = compare_swap(s6, 0, 3);
    let s8 = compare_swap(s7, 1, 4);
    let s9 = compare_swap(s8, 2, 4);
    let s10 = compare_swap(s9, 1, 3);
    let s11 = compare_swap(s10, 2, 3);
    s11
}

/// The comparators of the network on 7 entries, applied to `s` in turn.
pub open spec fn network7(s: Seq<u32>) -> Seq<u32> {
    let s0 = compare_swap(s, 0, 1);
    let s1 = compare_swap(s0, 2, 3);
    let s2 = compare_swap(s1, 4, 5);
    let s3 = compare_swap(s2, 0, 2);
    let s4 = compare_swap(s3, 1, 3);
    let s5 = compare_swap(s4, 1, 2);
    let s6 = compare_swap(s5, 4, 6);
    let s7 = compare_swap(s6, 5, 6);
    let s8 = compare_swap(s7, 0, 4);
    let s9 = compare_swap(s8, 1, 5);
    let s10 = compare_swap(s9, 2, 6);
    let s11 = compare_swap(s10, 1, 4);
    let s12 = compare_swap(s11, 3, 6);
    let s13 = compare_swap(s12, 2, 4);
    let s14 = compare_swap(s13, 3, 5);
    let s15 = compare_swap(s14, 3, 4);
    s15
}

/// The comparators of the network on 8 entries, applied to `s` in turn.
pub open spec fn network8(s: Seq<u32>) -> Seq<u32> {
    let s0 = compare_swap(s, 0, 1);
    let s1 = compare_swap(s0, 2, 3);
    let s2 = compare_swap(s1, 4, 5);
    let s3 = compare_swap(s2, 6, 7);
    let s4 = compare_swap(s3, 0, 2);
    let s5 = compare_swap(s4, 1, 3);
    let s6 = compare_swap(s5, 4, 6);
    let s7 = compare_swap(s6, 5, 7);
    let s8 = compare_swap(s7, 1, 2);
    let s9 = compare_swap(s8, 5, 6);
    let s10 = compare_swap(s9, 0, 4);
    let s11 = compare_swap(s10, 3, 7);
    let s12 = compare_swap(s11, 1, 5);
    let s13 = compare_swap(s12, 2, 6);
    let s14 = compare_swap(s13, 2, 4);
    let s15 = compare_swap(s14, 3, 5);
    let s16 = compare_swap(s15, 1, 2);
    let s17 = compare_swap(s16, 5, 6);
    let s18 = compare_swap(s17, 3, 4);
    s18
}

/// The comparators of the network on 9 entries, applied to `s` in turn.
pub open spec fn network9(s: Seq<u32>) -> Seq<u32> {
    let s0 = compare_swap(s, 0, 1);
    let s1 = compare_swap(s0, 3, 4);
    let s2 = compare_swap(s1, 6, 7);
    let s3 = compare_swap(s2, 1, 2);
    let s4 = compare_swap(s3, 4, 5);
    let s5 = compare_swap(s4, 7, 8);
    let s6 = compare_swap(s5, 0, 1);
    let s7 = compare_swap(s6, 3, 4);
    let s8 = compare_swap(s7, 6, 7);
    let s9 = compare_swap(s8, 0, 3);
    let s10 = compare_swap(s9, 1, 4);
    let s11 = compare_swap(s10, 2, 5);
    let s12 = compare_swap(s11, 3, 6);
    let s13 = compare_swap(s12, 4, 7);
    let s14 = compare_swap(s13, 5, 8);
    let s15 = compare_swap(s14, 0, 3);
    let s16 = compare_swap(s15, 1, 4);
    let s17 = compare_swap(s16, 2, 5);
    let s18 = compare_swap(s17, 1, 6);
    let s19 = compare_swap(s18, 2, 7);
    let s20 = compare_swap(s19, 1, 3);
    let s21 = compare_swap(s20, 4, 6);
    let s22 = compare_swap(s21, 5, 7);
    let s23 = compare_swap(s22, 2, 4);
    let s24 = compare_swap(s23, 3, 5);
    let s25 = compare_swap(s24, 2, 3);
    let s26 = compare_swap(s25, 4, 5);
    s26
}

/// The comparators of the network on 10 entries, applied to `s` in turn.
pub open spec fn network10(s: Seq<u32>) -> Seq<u32> {
    let s0 = compare_swap(s, 0, 1);
    let s1 = compare_swap(s0, 2, 3);
    let s2 = compare_swap(s1, 4, 5);
    let s3 = compare_swap(s2, 6, 7);
    let s4 = compare_swap(s3, 8, 9);
    let s5 = compare_swap(s4, 0, 2);
    let s6 = compare_swap(s5, 1, 3);
    let s7 = compare_swap(s6, 4, 6);
    let s8 = compare_swap(s7, 5, 7);
    let s9 = compare_swap(s8, 0, 4);
    let s10 = compare_swap(s9, 1, 5);
    let s11 = compare_swap(s10, 2, 6);
    let s12 = compare_swap(s11, 3, 7);
    let s13 = compare_swap(s12, 0, 8);
    let s14 = compare_swap(s13, 1, 9);
    let s15 = compare_swap(s14, 2, 8);
    let s16 = compare_swap(s15, 3, 9);
    let s17 = compare_swap(s16, 1, 4);
    let s18 = compare_swap(s17, 3, 6);
    let s19 = compare_swap(s18, 5, 8);
    let s20 = compare_swap(s19, 1, 2);
    let s21 = compare_swap(s20, 4, 5);
    let s22 = compare_swap(s21, 7, 8);
    let s23 = compare_swap(s22, 3, 5);
    let s24 = compare_swap(s23, 6, 8);
    let s25 = compare_swap(s24, 2, 4);
    let s26 = compare_swap(s25, 5, 7);
    let s27 = compare_swap(s26, 3, 4);
    let s28 = compare_swap(s27, 5, 6);
    s28
}

impl SortingNetwork<3> for [u32; 3] {
    fn network_sort(&mut self)
        ensures
            final(self)@ == network3(old(self)@),
            sorted_between(final(self)@, 0, 3),
            final(self)@.to_multiset() == old(self)@.to_multiset(),
    {
        self.network_sort_slice();
    }

    fn network_sort_slice(&mut self)
        ensures
            final(self)@ == network3(old(self)@),
            sorted_between(final(self)@, 0, 3),
            final(self)@.to_multiset() == old(self)@.to_multiset(),
    {
        let ghost s0 = self@;
        cswap_array(self, 0, 1);
        cswap_array(self, 1, 2);
        cswap_array(self, 0, 1);
        proof {
            lemma_network3(s0);
        }
    }
}

impl SortingNetwork<4> for [u32; 4] {
    fn network_sort(&mut self)
        ensures
            final(self)@ == network4(old(self)@),
            sorted_between(final(self)@, 0, 4),
            final(self)@.to_multiset() == old(self)@.to_multiset(),
    {
        self.network_sort_slice();
    }

    fn network_sort_slice(&mut self)
        ensures
            final(self)@ == network4(old(self)@),
            sorted_between(final(self)@, 0, 4),
            final(self)@.to_multiset() == old(self)@.to_multiset(),
    {
        let ghost s0 = self@;
        cswap_array(self, 0, 1);
        cswap_array(self, 2, 3);
        cswap_array(self, 0, 2);
        cswap_array(self, 1, 3);
        cswap_array(self, 1, 2);
        proof {
            lemma_network4(s0);
        }
    }
}

impl SortingNetwork<5> for [u32; 5] {
    fn network_sort(&mut self)
        ensures
            final(self)@ == network5(old(self)@),
            sorted_between(final(self)@, 0, 5),
            final(self)@.to_multiset() == old(self)@.to_multiset(),
    {
        self.network_sort_slice();
    }

    fn network_sort_slice(&mut self)
        ensures
            final(self)@ == network5(old(self)@),
            sorted_between(final(self)@, 0, 5),
            final(self)@.to_multiset() == old(self)@.to_multiset(),
    {
        let ghost s0 = self@;
        cswap_array(self, 0, 1);
        cswap_array(self, 3, 4);
        cswap_array(self, 2, 4);
        cswap_array(self, 2, 3);
        cswap_array(self, 0, 3);
        cswap_array(self, 0, 2);
        cswap_array(self, 1, 4);
        cswap_array(self, 1, 3);
        cswap_array(self, 1, 2);
        proof {
            lemma_network5(s0);
        }
    }
}

impl SortingNetwork<6> for [u32; 6] {
    fn network_sort(&mut self)
        ensures
            final(self)@ == network6(old(self)@),
            sorted_between(final(self)@, 0, 6),
            final(self)@.to_multiset() == old(self)@.to_multiset(),
    {
        self.network_sort_slice();
    }

    fn network_sort_slice(&mut self)
        ensures
            final(self)@ == network6(old(self)@),
            sorted_between(final(self)@, 0, 6),
            final(self)@.to_multiset() == old(self)@.to_multiset(),
    {
        let ghost s0 = self@;
        cswap_array(self, 1, 2);
        cswap_array(self, 4, 5);
        cswap_array(self, 0, 2);
        cswap_array(self, 3, 5);
        cswap_array(self, 0, 1);
        cswap_array(self, 3, 4);
        cswap_array(self, 2, 5);
        cswap_array(self, 0, 3);
        cswap_array(self, 1, 4);
        cswap_array(self, 2, 4);
        cswap_array(self, 1, 3);
        cswap_array(self, 2, 3);
        proof {
            lemma_network6(s0);
        }
    }
}

impl SortingNetwork<7> for [u32; 7] {
    fn network_sort(&mut self)
        ensures
            final(self)@ == network7(old(self)@),
            sorted_between(final(self)@, 0, 7),
            final(self)@.to_multiset() == old(self)@.to_multiset(),
    {
        self.network_sort_slice();
    }

    fn network_sort_slice(&mut self)
        ensures
            final(self)@ == network7(old(self)@),
            sorted_between(final(self)@, 0, 7),
            final(self)@.to_multiset() == old(self)@.to_multiset(),
    {
        let ghost s0 = self@;
        cswap_array(self, 0, 1);
        cswap_array(self, 2, 3);
        cswap_array(self, 4, 5);
        cswap_array(self, 0, 2);
        cswap_array(self, 1, 3);
        cswap_array(self, 1, 2);
        cswap_array(self, 4, 6);
        cswap_array(self, 5, 6);
        cswap_array(self, 0, 4);
        cswap_array(self, 1, 5);
        cswap_array(self, 2, 6);
        cswap_array(self, 1, 4);
        cswap_array(self, 3, 6);
        cswap_array(self, 2, 4);
        cswap_array(self, 3, 5);
        cswap_array(self, 3, 4);
        proof {
            lemma_network7(s0);
        }
    }
}

impl SortingNetwork<8> for [u32; 8] {
    fn network_sort(&mut self)
        ensures
            final(self)@ == network8(old(self)@),
            sorted_between(final(self)@, 0, 8),
            final(self)@.to_multiset() == old(self)@.to_multiset(),
    {
        self.network_sort_slice();
    }

    fn network_sort_slice(&mut self)
        ensures
            final(self)@ == network8(old(self)@),
            sorted_between(final(self)@, 0, 8),
            final(self)@.to_multiset() == old(self)@.to_multiset(),
    {
        let ghost s0 = self@;
        cswap_array(self, 0, 1);
        cswap_array(self, 2, 3);
        cswap_array(self, 4, 5);
        cswap_array(self, 6, 7);
        cswap_array(self, 0, 2);
        cswap_array(self, 1, 3);
        cswap_array(self, 4, 6);
        cswap_array(self, 5, 7);
        cswap_array(self, 1, 2);
        cswap_array(self, 5, 6);
        cswap_array(self, 0, 4);
        cswap_array(self, 3, 7);
        cswap_array(self, 1, 5);
        cswap_array(self, 2, 6);
        cswap_array(self, 2, 4);
        cswap_array(self, 3, 5);
        cswap_array(self, 1, 2);
        cswap_array(self, 5, 6);
        cswap_array(self, 3, 4);
        proof {
            lemma_network8(s0);
        }
    }
}

impl SortingNetwork<9> for [u32; 9] {
    fn network_sort(&mut self)
        ensures
            final(self)@ == network9(old(self)@),
            final(self)@.to_multiset() == old(self)@.to_multiset(),
            network9_ordered(final(self)@),
    {
        self.network_sort_slice();
    }

    fn network_sort_slice(&mut self)
        ensures
            final(self)@ == network9(old(self)@),
            final(self)@.to_multiset() == old(self)@.to_multiset(),
            network9_ordered(final(self)@),
    {
        let ghost s0 = self@;
        cswap_array(self, 0, 1);
        cswap_array(self, 3, 4);
        cswap_array(self, 6, 7);
        cswap_array(self, 1, 2);
        cswap_array(self, 4, 5);
        cswap_array(self, 7, 8);
        cswap_array(self, 0, 1);
        cswap_array(self, 3, 4);
        cswap_array(self, 6, 7);
        cswap_array(self, 0, 3);
        cswap_array(self, 1, 4);
        cswap_array(self, 2, 5);
        cswap_array(self, 3, 6);
        cswap_array(self, 4, 7);
        cswap_array(self, 5, 8);
        cswap_array(self, 0, 3);
        cswap_array(self, 1, 4);
        cswap_array(self, 2, 5);
        cswap_array(self, 1, 6);
        cswap_array(self, 2, 7);
        cswap_array(self, 1, 3);
        cswap_array(self, 4, 6);
        cswap_array(self, 5, 7);
        cswap_array(self, 2, 4);
        cswap_array(self, 3, 5);
        cswap_array(self, 2, 3);
        cswap_array(self, 4, 5);
        proof {
            lemma_network9(s0);
            lemma_network9_ordered(s0);
        }
    }
}

impl SortingNetwork<10> for [u32; 10] {
    fn network_sort(&mut self)
        ensures
            final(self)@ == network10(old(self)@),
            final(self)@.to_multiset() == old(self)@.to_multiset(),
            network10_ordered(final(self)@),
    {
        self.network_sort_slice();
    }

    fn network_sort_slice(&mut self)
        ensures
            final(self)@ == network10(old(self)@),
            final(self)@.to_multiset() == old(self)@.to_multiset(),
            network10_ordered(final(self)@),
    {
        let ghost s0 = self@;
        cswap_array(self, 0, 1);
        cswap_array(self, 2, 3);
        cswap_array(self, 4, 5);
        cswap_array(self, 6, 7);
        cswap_array(self, 8, 9);
        cswap_array(self, 0, 2);
        cswap_array(self, 1, 3);
        cswap_array(self, 4, 6);
        cswap_array(self, 5, 7);
        cswap_array(self, 0, 4);
        cswap_array(self, 1, 5);
        cswap_array(self, 2, 6);
        cswap_array(self, 3, 7);
        cswap_array(self, 0, 8);
        cswap_array(self, 1, 9);
        cswap_array(self, 2, 8);
        cswap_array(self, 3, 9);
        cswap_array(self, 1, 4);
        cswap_array(self, 3, 6);
        cswap_array(self, 5, 8);
        cswap_array(self, 1, 2);
        cswap_array(self, 4, 5);
        cswap_array(self, 7, 8);
        cswap_array(self, 3, 5);
        cswap_array(self, 6, 8);
        cswap_array(self, 2, 4);
        cswap_array(self, 5, 7);
        cswap_array(self, 3, 4);
        cswap_array(self, 5, 6);
        proof {
            lemma_network10(s0);
            lemma_network10_ordered(s0);
        }
    }
}

/// Putting two entries in order keeps the values and the length.
pub proof fn lemma_compare_swap(s: Seq<u32>, i: int, j: int)
    requires
        0 <= i < s.len(),
        0 <= j < s.len(),
        i != j,
    ensures
        compare_swap(s, i, j).len() == s.len(),
        compare_swap(s, i, j).to_multiset() == s.to_multiset(),
        compare_swap(s, i, j)[i] <= compare_swap(s, i, j)[j],
{
    if s[i] > s[j] {
        lemma_swap_multiset(s, i, j);
    }
}

/// The network on 3 entries sorts every input and keeps its values.
#[verifier::rlimit(100)]
#[verifier::spinoff_prover]
pub proof fn lemma_network3(s: Seq<u32>)
    requires
        s.len() == 3,
    ensures
        network3(s).len() == 3,
        sorted_between(network3(s), 0, 3),
        network3(s).to_multiset() == s.to_multiset(),
{
    let s0 = compare_swap(s, 0, 1);
    lemma_compare_swap(s, 0, 1);
    let s1 = compare_swap(s0, 1, 2);
    lemma_compare_swap(s0, 1, 2);
    let s2 = compare_swap(s1, 0, 1);
    lemma_compare_swap(s1, 0, 1);
    assert(network3(s) == s2);
}

/// The network on 4 entries sorts every input and keeps its values.
#[verifier::rlimit(100)]
#[verifier::spinoff_prover]
pub proof fn lemma_network4(s: Seq<u32>)
    requires
        s.len() == 4,
    ensures
        network4(s).len() == 4,
        sorted_between(network4(s), 0, 4),
        network4(s).to_multiset() == s.to_multiset(),
{
    let s0 = compare_swap(s, 0, 1);
    lemma_compare_swap(s, 0, 1);
    let s1 = compare_swap(s0, 2, 3);
    lemma_compare_swap(s0, 2, 3);
    let s2 = compare_swap(s1, 0, 2);
    lemma_compare_swap(s1, 0, 2);
    let s3 = compare_swap(s2, 1, 3);
    lemma_compare_swap(s2, 1, 3);
    let s4 = compare_swap(s3, 1, 2);
    lemma_compare_swap(s3, 1, 2);
    assert(network4(s) == s4);
}

/// The network on 5 entries sorts every input and keeps its values.
#[verifier::rlimit(100)]
#[verifier::spinoff_prover]
pub proof fn lemma_network5(s: Seq<u32>)
    requires
        s.len() == 5,
    ensures
        network5(s).len() == 5,
        sorted_between(network5(s), 0, 5),
        network5(s).to_multiset() == s.to_multiset(),
{
    let s0 = compare_swap(s, 0, 1);
    lemma_compare_swap(s, 0, 1);
    let s1 = compare_swap(s0, 3, 4);
    lemma_compare_swap(s0, 3, 4);
    let s2 = compare_swap(s1, 2, 4);
    lemma_compare_swap(s1, 2, 4);
    let s3 = compare_swap(s2, 2, 3);
    lemma_compare_swap(s2, 2, 3);
    let s4 = compare_swap(s3, 0, 3);
    lemma_compare_swap(s3, 0, 3);
    let s5 = compare_swap(s4, 0, 2);
    lemma_compare_swap(s4, 0, 2);
    let s6 = compare_swap(s5, 1, 4);
    lemma_compare_swap(s5, 1, 4);
    let s7 = compare_swap(s6, 1, 3);
    lemma_compare_swap(s6, 1, 3);
    let s8 = compare_swap(s7, 1, 2);
    lemma_compare_swap(s7, 1, 2);
    assert(network5(s) == s8);
}

/// Entries 0 and 1 come out of the network on 6 entries in order.
#[verifier::rlimit(100)]
#[verifier::spinoff_prover]
proof fn lemma_network6_step0(s: Seq<u32>)
    requires
        s.len() == 6,
    ensures
        network6(s)[0] <= network6(s)[1],
{
    let s0 = compare_swap(s, 1, 2);
    lemma_compare_swap(s, 1, 2);
    let s1 = compare_swap(s0, 4, 5);
    lemma_compare_swap(s0, 4, 5);
    let s2 = compare_swap(s1, 0, 2);
    lemma_compare_swap(s1, 0, 2);
    let s3 = compare_swap(s2, 3, 5);
    lemma_compare_swap(s2, 3, 5);
    let s4 = compare_swap(s3, 0, 1);
    lemma_compare_swap(s3, 0, 1);
    let s5 = compare_swap(s4, 3, 4);
    lemma_compare_swap(s4, 3, 4);
    let s6 = compare_swap(s5, 2, 5);
    lemma_compare_swap(s5, 2, 5);
    let s7 = compare_swap(s6, 0, 3);
    lemma_compare_swap(s6, 0, 3);
    let s8 = compare_swap(s7, 1, 4);
    lemma_compare_swap(s7, 1, 4);
    let s9 = compare_swap(s8, 2, 4);
    lemma_compare_swap(s8, 2, 4);
    let s10 = compare_swap(s9, 1, 3);
    lemma_compare_swap(s9, 1, 3);
    let s11 = compare_swap(s10, 2, 3);
    lemma_compare_swap(s10, 2, 3);
    assert(network6(s) == s11);
}

/// Entries 1 and 2 come out of the network on 6 entries in order.
#[verifier::rlimit(100)]
#[verifier::spinoff_prover]
proof fn lemma_network6_step1(s: Seq<u32>)
    requires
        s.len() == 6,
    ensures
        network6(s)[1] <= network6(s)[2],
{
    let s0 = compare_swap(s, 1, 2);
    lemma_compare_swap(s, 1, 2);
    let s1 = compare_swap(s0, 4, 5);
    lemma_compare_swap(s0, 4, 5);
    let s2 = compare_swap(s1, 0, 2);
    lemma_compare_swap(s1, 0, 2);
    let s3 = compare_swap(s2, 3, 5);
    lemma_compare_swap(s2, 3, 5);
    let s4 = compare_swap(s3, 0, 1);
    lemma_compare_swap(s3, 0, 1);
    let s5 = compare_swap(s4, 3, 4);
    lemma_compare_swap(s4, 3, 4);
    let s6 = compare_swap(s5, 2, 5);
    lemma_compare_swap(s5, 2, 5);
    let s7 = compare_swap(s6, 0, 3);
    lemma_compare_swap(s6, 0, 3);
    let s8 = compare_swap(s7, 1, 4);
    lemma_compare_swap(s7, 1, 4);
    let s9 = compare_swap(s8, 2, 4);
    lemma_compare_swap(s8, 2, 4);
    let s10 = compare_swap(s9, 1, 3);
    lemma_compare_swap(s9, 1, 3);
    let s11 = compare_swap(s10, 2, 3);
    lemma_compare_swap(s10, 2, 3);
    assert(network6(s) == s11);
}

/// Entries 2 and 3 come out of the network on 6 entries in order.
#[verifier::rlimit(100)]
#[verifier::spinoff_prover]
proof fn lemma_network6_step2(s: Seq<u32>)
    requires
        s.len() == 6,
    ensures
        network6(s)[2] <= network6(s)[3],
{
    let s0 = compare_swap(s, 1, 2);
    lemma_compare_swap(s, 1, 2);
    let s1 = compare_swap(s0, 4, 5);
    lemma_compare_swap(s0, 4, 5);
    let s2 = compare_swap(s1, 0, 2);
    lemma_compare_swap(s1, 0, 2);
    let s3 = compare_swap(s2, 3, 5);
    lemma_compare_swap(s2, 3, 5);
    let s4 = compare_swap(s3, 0, 1);
    lemma_compare_swap(s3, 0, 1);
    let s5 = compare_swap(s4, 3, 4);
    lemma_compare_swap(s4, 3, 4);
    let s6 = compare_swap(s5, 2, 5);
    lemma_compare_swap(s5, 2, 5);
    let s7 = compare_swap(s6, 0, 3);
    lemma_compare_swap(s6, 0, 3);
    let s8 = compare_swap(s7, 1, 4);
    lemma_compare_swap(s7, 1, 4);
    let s9 = compare_swap(s8, 2, 4);
    lemma_compare_swap(s8, 2, 4);
    let s10 = compare_swap(s9, 1, 3);
    lemma_compare_swap(s9, 1, 3);
    let s11 = compare_swap(s10, 2, 3);
    lemma_compare_swap(s10, 2, 3);
    assert(network6(s) == s11);
}

/// Entries 3 and 4 come out of the network on 6 entries in order.
#[verifier::rlimit(100)]
#[verifier::spinoff_prover]
proof fn lemma_network6_step3(s: Seq<u32>)
    requires
        s.len() == 6,
    ensures
        network6(s)[3] <= network6(s)[4],
{
    let s0 = compare_swap(s, 1, 2);
    lemma_compare_swap(s, 1, 2);
    let s1 = compare_swap(s0, 4, 5);
    lemma_compare_swap(s0, 4, 5);
    let s2 = compare_swap(s1, 0, 2);
    lemma_compare_swap(s1, 0, 2);
    let s3 = compare_swap(s2, 3, 5);
    lemma_compare_swap(s2, 3, 5);
    let s4 = compare_swap(s3, 0, 1);
    lemma_compare_swap(s3, 0, 1);
    let s5 = compare_swap(s4, 3, 4);
    lemma_compare_swap(s4, 3, 4);
    let s6 = compare_swap(s5, 2, 5);
    lemma_compare_swap(s5, 2, 5);
    let s7 = compare_swap(s6, 0, 3);
    lemma_compare_swap(s6, 0, 3);
    let s8 = compare_swap(s7, 1, 4);
    lemma_compare_swap(s7, 1, 4);
    let s9 = compare_swap(s8, 2, 4);
    lemma_compare_swap(s8, 2, 4);
    let s10 = compare_swap(s9, 1, 3);
    lemma_compare_swap(s9, 1, 3);
    let s11 = compare_swap(s10, 2, 3);
    lemma_compare_swap(s10, 2, 3);
    assert(network6(s) == s11);
}

/// Entries 4 and 5 come out of the network on 6 entries in order.
#[verifier::rlimit(100)]
#[verifier::spinoff_prover]
proof fn lemma_network6_step4(s: Seq<u32>)
    requires
        s.len() == 6,
    ensures
        network6(s)[4] <= network6(s)[5],
{
    let s0 = compare_swap(s, 1, 2);
    lemma_compare_swap(s, 1, 2);
    let s1 = compare_swap(s0, 4, 5);
    lemma_compare_swap(s0, 4, 5);
    let s2 = compare_swap(s1, 0, 2);
    lemma_compare_swap(s1, 0, 2);
    let s3 = compare_swap(s2, 3, 5);
    lemma_compare_swap(s2, 3, 5);
    let s4 = compare_swap(s3, 0, 1);
    lemma_compare_swap(s3, 0, 1);
    let s5 = compare_swap(s4, 3, 4);
    lemma_compare_swap(s4, 3, 4);
    let s6 = compare_swap(s5, 2, 5);
    lemma_compare_swap(s5, 2, 5);
    let s7 = compare_swap(s6, 0, 3);
    lemma_compare_swap(s6, 0, 3);
    let s8 = compare_swap(s7, 1, 4);
    lemma_compare_swap(s7, 1, 4);
    let s9 = compare_swap(s8, 2, 4);
    lemma_compare_swap(s8, 2, 4);
    let s10 = compare_swap(s9, 1, 3);
    lemma_compare_swap(s9, 1, 3);
    let s11 = compare_swap(s10, 2, 3);
    lemma_compare_swap(s10, 2, 3);
    assert(network6(s) == s11);
}

/// The network on 6 entries sorts every input and keeps its values.
#[verifier::rlimit(100)]
#[verifier::spinoff_prover]
pub proof fn lemma_network6(s: Seq<u32>)
    requires
        s.len() == 6,
    ensures
        network6(s).len() == 6,
        sorted_between(network6(s), 0, 6),
        network6(s).to_multiset() == s.to_multiset(),
{
    let s0 = compare_swap(s, 1, 2);
    lemma_compare_swap(s, 1, 2);
    let s1 = compare_swap(s0, 4, 5);
    lemma_compare_swap(s0, 4, 5);
    let s2 = compare_swap(s1, 0, 2);
    lemma_compare_swap(s1, 0, 2);
    let s3 = compare_swap(s2, 3, 5);
    lemma_compare_swap(s2, 3, 5);
    let s4 = compare_swap(s3, 0, 1);
    lemma_compare_swap(s3, 0, 1);
    let s5 = compare_swap(s4, 3, 4);
    lemma_compare_swap(s4, 3, 4);
    let s6 = compare_swap(s5, 2, 5);
    lemma_compare_swap(s5, 2, 5);
    let s7 = compare_swap(s6, 0, 3);
    lemma_compare_swap(s6, 0, 3);
    let s8 = compare_swap(s7, 1, 4);
    lemma_compare_swap(s7, 1, 4);
    let s9 = compare_swap(s8, 2, 4);
    lemma_compare_swap(s8, 2, 4);
    let s10 = compare_swap(s9, 1, 3);
    lemma_compare_swap(s9, 1, 3);
    let s11 = compare_swap(s10, 2, 3);
    lemma_compare_swap(s10, 2, 3);
    assert(network6(s) == s11);
    lemma_network6_step0(s);
    lemma_network6_step1(s);
    lemma_network6_step2(s);
    lemma_network6_step3(s);
    lemma_network6_step4(s);
    lemma_adjacent_sorted(network6(s));
}

/// The first comparators of the network on 7 entries: they sort entries
/// `0..4` and `4..7` apart.
pub open spec fn network7_blocks(s: Seq<u32>) -> Seq<u32> {
    let s0 = compare_swap(s, 0, 1);
    let s1 = compare_swap(s0, 2, 3);
    let s2 = compare_swap(s1, 4, 5);
    let s3 = compare_swap(s2, 0, 2);
    let s4 = compare_swap(s3, 1, 3);
    let s5 = compare_swap(s4, 1, 2);
    let s6 = compare_swap(s5, 4, 6);
    let s7 = compare_swap(s6, 5, 6);
    s7
}

/// The last comparators of the network on 7 entries: they merge the two
/// sorted parts.
pub open spec fn network7_merge(t: Seq<u32>) -> Seq<u32> {
    let t0 = compare_swap(t, 0, 4);
    let t1 = compare_swap(t0, 1, 5);
    let t2 = compare_swap(t1, 2, 6);
    let t3 = compare_swap(t2, 1, 4);
    let t4 = compare_swap(t3, 3, 6);
    let t5 = compare_swap(t4, 2, 4);
    let t6 = compare_swap(t5, 3, 5);
    let t7 = compare_swap(t6, 3, 4);
    t7
}

/// Entries 0 and 1 are in order after the first comparators on 7 entries.
#[verifier::rlimit(100)]
#[verifier::spinoff_prover]
proof fn lemma_network7_blocks_step0(s: Seq<u32>)
    requires
        s.len() == 7,
    ensures
        network7_blocks(s)[0] <= network7_blocks(s)[1],
{
    let s0 = compare_swap(s, 0, 1);
    lemma_compare_swap(s, 0, 1);
    let s1 = compare_swap(s0, 2, 3);
    lemma_compare_swap(s0, 2, 3);
    let s2 = compare_swap(s1, 4, 5);
    lemma_compare_swap(s1, 4, 5);
    let s3 = compare_swap(s2, 0, 2);
    lemma_compare_swap(s2, 0, 2);
    let s4 = compare_swap(s3, 1, 3);
    lemma_compare_swap(s3, 1, 3);
    let s5 = compare_swap(s4, 1, 2);
    lemma_compare_swap(s4, 1, 2);
    let s6 = compare_swap(s5, 4, 6);
    lemma_compare_swap(s5, 4, 6);
    let s7 = compare_swap(s6, 5, 6);
    lemma_compare_swap(s6, 5, 6);
    assert(network7_blocks(s) == s7);
}

/// Entries 1 and 2 are in order after the first comparators on 7 entries.
#[verifier::rlimit(100)]
#[verifier::spinoff_prover]
proof fn lemma_network7_blocks_step1(s: Seq<u32>)
    requires
        s.len() == 7,
    ensures
        network7_blocks(s)[1] <= network7_blocks(s)[2],
{
    let s0 = compare_swap(s, 0, 1);
    lemma_compare_swap(s, 0, 1);
    let s1 = compare_swap(s0, 2, 3);
    lemma_compare_swap(s0, 2, 3);
    let s2 = compare_swap(s1, 4, 5);
    lemma_compare_swap(s1, 4, 5);
    let s3 = compare_swap(s2, 0, 2);
    lemma_compare_swap(s2, 0, 2);
    let s4 = compare_swap(s3, 1, 3);
    lemma_compare_swap(s3, 1, 3);
    let s5 = compare_swap(s4, 1, 2);
    lemma_compare_swap(s4, 1, 2);
    let s6 = compare_swap(s5, 4, 6);
    lemma_compare_swap(s5, 4, 6);
    let s7 = compare_swap(s6, 5, 6);
    lemma_compare_swap(s6, 5, 6);
    assert(network7_blocks(s) == s7);
}

/// Entries 2 and 3 are in order after the first comparators on 7 entries.
#[verifier::rlimit(100)]
#[verifier::spinoff_prover]
proof fn lemma_network7_blocks_step2(s: Seq<u32>)
    requires
        s.len() == 7,
    ensures
        network7_blocks(s)[2] <= network7_blocks(s)[3],
{
    let s0 = compare_swap(s, 0, 1);
    lemma_compare_swap(s, 0, 1);
    let s1 = compare_swap(s0, 2, 3);
    lemma_compare_swap(s0, 2, 3);
    let s2 = compare_swap(s1, 4, 5);
    lemma_compare_swap(s1, 4, 5);
    let s3 = compare_swap(s2, 0, 2);
    lemma_compare_swap(s2, 0, 2);
    let s4 = compare_swap(s3, 1, 3);
    lemma_compare_swap(s3, 1, 3);
    let s5 = compare_swap(s4, 1, 2);
    lemma_compare_swap(s4, 1, 2);
    let s6 = compare_swap(s5, 4, 6);
    lemma_compare_swap(s5, 4, 6);
    let s7 = compare_swap(s6, 5, 6);
    lemma_compare_swap(s6, 5, 6);
    assert(network7_blocks(s) == s7);
}

/// Entries 4 and 5 are in order after the first comparators on 7 entries.
#[verifier::rlimit(100)]
#[verifier::spinoff_prover]
proof fn lemma_network7_blocks_step4(s: Seq<u32>)
    requires
        s.len() == 7,
    ensures
        network7_blocks(s)[4] <= network7_blocks(s)[5],
{
    let s0 = compare_swap(s, 0, 1);
    lemma_compare_swap(s, 0, 1);
    let s1 = compare_swap(s0, 2, 3);
    lemma_compare_swap(s0, 2, 3);
    let s2 = compare_swap(s1, 4, 5);
    lemma_compare_swap(s1, 4, 5);
    let s3 = compare_swap(s2, 0, 2);
    lemma_compare_swap(s2, 0, 2);
    let s4 = compare_swap(s3, 1, 3);
    lemma_compare_swap(s3, 1, 3);
    let s5 = compare_swap(s4, 1, 2);
    lemma_compare_swap(s4, 1, 2);
    let s6 = compare_swap(s5, 4, 6);
    lemma_compare_swap(s5, 4, 6);
    let s7 = compare_swap(s6, 5, 6);
    lemma_compare_swap(s6, 5, 6);
    assert(network7_blocks(s) == s7);
}

/// Entries 5 and 6 are in order after the first comparators on 7 entries.
#[verifier::rlimit(100)]
#[verifier::spinoff_prover]
proof fn lemma_network7_blocks_step5(s: Seq<u32>)
    requires
        s.len() == 7,
    ensures
        network7_blocks(s)[5] <= network7_blocks(s)[6],
{
    let s0 = compare_swap(s, 0, 1);
    lemma_compare_swap(s, 0, 1);
    let s1 = compare_swap(s0, 2, 3);
    lemma_compare_swap(s0, 2, 3);
    let s2 = compare_swap(s1, 4, 5);
    lemma_compare_swap(s1, 4, 5);
    let s3 = compare_swap(s2, 0, 2);
    lemma_compare_swap(s2, 0, 2);
    let s4 = compare_swap(s3, 1, 3);
    lemma_compare_swap(s3, 1, 3);
    let s5 = compare_swap(s4, 1, 2);
    lemma_compare_swap(s4, 1, 2);
    let s6 = compare_swap(s5, 4, 6);
    lemma_compare_swap(s5, 4, 6);
    let s7 = compare_swap(s6, 5, 6);
    lemma_compare_swap(s6, 5, 6);
    assert(network7_blocks(s) == s7);
}

/// The first comparators sort the two parts.
proof fn lemma_network7_blocks(s: Seq<u32>)
    requires
        s.len() == 7,
    ensures
        network7_blocks(s).len() == 7,
        sorted_between(network7_blocks(s), 0, 4),
        sorted_between(network7_blocks(s), 4, 7),
        network7_blocks(s).to_multiset() == s.to_multiset(),
{
    let s0 = compare_swap(s, 0, 1);
    lemma_compare_swap(s, 0, 1);
    let s1 = compare_swap(s0, 2, 3);
    lemma_compare_swap(s0, 2, 3);
    let s2 = compare_swap(s1, 4, 5);
    lemma_compare_swap(s1, 4, 5);
    let s3 = compare_swap(s2, 0, 2);
    lemma_compare_swap(s2, 0, 2);
    let s4 = compare_swap(s3, 1, 3);
    lemma_compare_swap(s3, 1, 3);
    let s5 = compare_swap(s4, 1, 2);
    lemma_compare_swap(s4, 1, 2);
    let s6 = compare_swap(s5, 4, 6);
    lemma_compare_swap(s5, 4, 6);
    let s7 = compare_swap(s6, 5, 6);
    lemma_compare_swap(s6, 5, 6);
    assert(network7_blocks(s) == s7);
    lemma_network7_blocks_step0(s);
    lemma_network7_blocks_step1(s);
    lemma_network7_blocks_step2(s);
    lemma_network7_blocks_step4(s);
    lemma_network7_blocks_step5(s);
    let b = network7_blocks(s);
    lemma_adjacent_sorted(b.subrange(0, 4));
    lemma_adjacent_sorted(b.subrange(4, 7));
    assert forall|x: int, y: int| 0 <= x < y < 4 implies b[x] <= b[y] by {
        assert(b.subrange(0, 4)[x] <= b.subrange(0, 4)[y]);
    }
    assert forall|x: int, y: int| 4 <= x < y < 7 implies b[x] <= b[y] by {
        assert(b.subrange(4, 7)[x - 4] <= b.subrange(4, 7)[y - 4]);
    }
}

/// Entries 0 and 1 come out of the merge on 7 entries in order.
#[verifier::rlimit(100)]
#[verifier::spinoff_prover]
proof fn lemma_network7_merge_step0(t: Seq<u32>)
    requires
        t.len() == 7,
        sorted_between(t, 0, 4),
        sorted_between(t, 4, 7),
    ensures
        network7_merge(t)[0] <= network7_merge(t)[1],
{
    let t0 = compare_swap(t, 0, 4);
    lemma_compare_swap(t, 0, 4);
    let t1 = compare_swap(t0, 1, 5);
    lemma_compare_swap(t0, 1, 5);
    let t2 = compare_swap(t1, 2, 6);
    lemma_compare_swap(t1, 2, 6);
    let t3 = compare_swap(t2, 1, 4);
    lemma_compare_swap(t2, 1, 4);
    let t4 = compare_swap(t3, 3, 6);
    lemma_compare_swap(t3, 3, 6);
    let t5 = compare_swap(t4, 2, 4);
    lemma_compare_swap(t4, 2, 4);
    let t6 = compare_swap(t5, 3, 5);
    lemma_compare_swap(t5, 3, 5);
    let t7 = compare_swap(t6, 3, 4);
    lemma_compare_swap(t6, 3, 4);
    assert(network7_merge(t) == t7);
}

/// Entries 1 and 2 come out of the merge on 7 entries in order.
#[verifier::rlimit(100)]
#[verifier::spinoff_prover]
proof fn lemma_network7_merge_step1(t: Seq<u32>)
    requires
        t.len() == 7,
        sorted_between(t, 0, 4),
        sorted_between(t, 4, 7),
    ensures
        network7_merge(t)[1] <= network7_merge(t)[2],
{
    let t0 = compare_swap(t, 0, 4);
    lemma_compare_swap(t, 0, 4);
    let t1 = compare_swap(t0, 1, 5);
    lemma_compare_swap(t0, 1, 5);
    let t2 = compare_swap(t1, 2, 6);
    lemma_compare_swap(t1, 2, 6);
    let t3 = compare_swap(t2, 1, 4);
    lemma_compare_swap(t2, 1, 4);
    let t4 = compare_swap(t3, 3, 6);
    lemma_compare_swap(t3, 3, 6);
    let t5 = compare_swap(t4, 2, 4);
    lemma_compare_swap(t4, 2, 4);
    let t6 = compare_swap(t5, 3, 5);
    lemma_compare_swap(t5, 3, 5);
    let t7 = compare_swap(t6, 3, 4);
    lemma_compare_swap(t6, 3, 4);
    assert(network7_merge(t) == t7);
}

/// Entries 2 and 3 come out of the merge on 7 entries in order.
#[verifier::rlimit(100)]
#[verifier::spinoff_prover]
proof fn lemma_network7_merge_step2(t: Seq<u32>)
    requires
        t.len() == 7,
        sorted_between(t, 0, 4),
        sorted_between(t, 4, 7),
    ensures
        network7_merge(t)[2] <= network7_merge(t)[3],
{
    let t0 = compare_swap(t, 0, 4);
    lemma_compare_swap(t, 0, 4);
    let t1 = compare_swap(t0, 1, 5);
    lemma_compare_swap(t0, 1, 5);
    let t2 = compare_swap(t1, 2, 6);
    lemma_compare_swap(t1, 2, 6);
    let t3 = compare_swap(t2, 1, 4);
    lemma_compare_swap(t2, 1, 4);
    let t4 = compare_swap(t3, 3, 6);
    lemma_compare_swap(t3, 3, 6);
    let t5 = compare_swap(t4, 2, 4);
    lemma_compare_swap(t4, 2, 4);
    let t6 = compare_swap(t5, 3, 5);
    lemma_compare_swap(t5, 3, 5);
    let t7 = compare_swap(t6, 3, 4);
    lemma_compare_swap(t6, 3, 4);
    assert(network7_merge(t) == t7);
}

/// Entries 3 and 4 come out of the merge on 7 entries in order.
#[verifier::rlimit(100)]
#[verifier::spinoff_prover]
proof fn lemma_network7_merge_step3(t: Seq<u32>)
    requires
        t.len() == 7,
        sorted_between(t, 0, 4),
        sorted_between(t, 4, 7),
    ensures
        network7_merge(t)[3] <= network7_merge(t)[4],
{
    let t0 = compare_swap(t, 0, 4);
    lemma_compare_swap(t, 0, 4);
    let t1 = compare_swap(t0, 1, 5);
    lemma_compare_swap(t0, 1, 5);
    let t2 = compare_swap(t1, 2, 6);
    lemma_compare_swap(t1, 2, 6);
    let t3 = compare_swap(t2, 1, 4);
    lemma_compare_swap(t2, 1, 4);
    let t4 = compare_swap(t3, 3, 6);
    lemma_compare_swap(t3, 3, 6);
    let t5 = compare_swap(t4, 2, 4);
    lemma_compare_swap(t4, 2, 4);
    let t6 = compare_swap(t5, 3, 5);
    lemma_compare_swap(t5, 3, 5);
    let t7 = compare_swap(t6, 3, 4);
    lemma_compare_swap(t6, 3, 4);
    assert(network7_merge(t) == t7);
}

/// Entries 4 and 5 come out of the merge on 7 entries in order.
#[verifier::rlimit(100)]
#[verifier::spinoff_prover]
proof fn lemma_network7_merge_step4(t: Seq<u32>)
    requires
        t.len() == 7,
        sorted_between(t, 0, 4),
        sorted_between(t, 4, 7),
    ensures
        network7_merge(t)[4] <= network7_merge(t)[5],
{
    let t0 = compare_swap(t, 0, 4);
    lemma_compare_swap(t, 0, 4);
    let t1 = compare_swap(t0, 1, 5);
    lemma_compare_swap(t0, 1, 5);
    let t2 = compare_swap(t1, 2, 6);
    lemma_compare_swap(t1, 2, 6);
    let t3 = compare_swap(t2, 1, 4);
    lemma_compare_swap(t2, 1, 4);
    let t4 = compare_swap(t3, 3, 6);
    lemma_compare_swap(t3, 3, 6);
    let t5 = compare_swap(t4, 2, 4);
    lemma_compare_swap(t4, 2, 4);
    let t6 = compare_swap(t5, 3, 5);
    lemma_compare_swap(t5, 3, 5);
    let t7 = compare_swap(t6, 3, 4);
    lemma_compare_swap(t6, 3, 4);
    assert(network7_merge(t) == t7);
}

/// Entries 5 and 6 come out of the merge on 7 entries in order.
#[verifier::rlimit(100)]
#[verifier::spinoff_prover]
proof fn lemma_network7_merge_step5(t: Seq<u32>)
    requires
        t.len() == 7,
        sorted_between(t, 0, 4),
        sorted_between(t, 4, 7),
    ensures
        network7_merge(t)[5] <= network7_merge(t)[6],
{
    let t0 = compare_swap(t, 0, 4);
    lemma_compare_swap(t, 0, 4);
    let t1 = compare_swap(t0, 1, 5);
    lemma_compare_swap(t0, 1, 5);
    let t2 = compare_swap(t1, 2, 6);
    lemma_compare_swap(t1, 2, 6);
    let t3 = compare_swap(t2, 1, 4);
    lemma_compare_swap(t2, 1, 4);
    let t4 = compare_swap(t3, 3, 6);
    lemma_compare_swap(t3, 3, 6);
    let t5 = compare_swap(t4, 2, 4);
    lemma_compare_swap(t4, 2, 4);
    let t6 = compare_swap(t5, 3, 5);
    lemma_compare_swap(t5, 3, 5);
    let t7 = compare_swap(t6, 3, 4);
    lemma_compare_swap(t6, 3, 4);
    assert(network7_merge(t) == t7);
}

/// The network on 7 entries sorts every input and keeps its values.
#[verifier::rlimit(100)]
#[verifier::spinoff_prover]
pub proof fn lemma_network7(s: Seq<u32>)
    requires
        s.len() == 7,
    ensures
        network7(s).len() == 7,
        sorted_between(network7(s), 0, 7),
        network7(s).to_multiset() == s.to_multiset(),
{
    lemma_network7_blocks(s);
    let t = network7_blocks(s);
    let t0 = compare_swap(t, 0, 4);
    lemma_compare_swap(t, 0, 4);
    let t1 = compare_swap(t0, 1, 5);
    lemma_compare_swap(t0, 1, 5);
    let t2 = compare_swap(t1, 2, 6);
    lemma_compare_swap(t1, 2, 6);
    let t3 = compare_swap(t2, 1, 4);
    lemma_compare_swap(t2, 1, 4);
    let t4 = compare_swap(t3, 3, 6);
    lemma_compare_swap(t3, 3, 6);
    let t5 = compare_swap(t4, 2, 4);
    lemma_compare_swap(t4, 2, 4);
    let t6 = compare_swap(t5, 3, 5);
    lemma_compare_swap(t5, 3, 5);
    let t7 = compare_swap(t6, 3, 4);
    lemma_compare_swap(t6, 3, 4);
    assert(network7_merge(t) == t7);
    assert(network7(s) == network7_merge(t));
    lemma_network7_merge_step0(t);
    lemma_network7_merge_step1(t);
    lemma_network7_merge_step2(t);
    lemma_network7_merge_step3(t);
    lemma_network7_merge_step4(t);
    lemma_network7_merge_step5(t);
    lemma_adjacent_sorted(network7(s));
}

/// The first comparators of the network on 8 entries: they sort entries
/// `0..4` and `4..8` apart.
pub open spec fn network8_blocks(s: Seq<u32>) -> Seq<u32> {
    let s0 = compare_swap(s, 0, 1);
    let s1 = compare_swap(s0, 2, 3);
    let s2 = compare_swap(s1, 4, 5);
    let s3 = compare_swap(s2, 6, 7);
    let s4 = compare_swap(s3, 0, 2);
    let s5 = compare_swap(s4, 1, 3);
    let s6 = compare_swap(s5, 4, 6);
    let s7 = compare_swap(s6, 5, 7);
    let s8 = compare_swap(s7, 1, 2);
    let s9 = compare_swap(s8, 5, 6);
    s9
}

/// The last comparators of the network on 8 entries: they merge the two
/// sorted parts.
pub open spec fn network8_merge(t: Seq<u32>) -> Seq<u32> {
    let t0 = compare_swap(t, 0, 4);
    let t1 = compare_swap(t0, 3, 7);
    let t2 = compare_swap(t1, 1, 5);
    let t3 = compare_swap(t2, 2, 6);
    let t4 = compare_swap(t3, 2, 4);
    let t5 = compare_swap(t4, 3, 5);
    let t6 = compare_swap(t5, 1, 2);
    let t7 = compare_swap(t6, 5, 6);
    let t8 = compare_swap(t7, 3, 4);
    t8
}

/// Entries 0 and 1 are in order after the first comparators on 8 entries.
#[verifier::rlimit(100)]
#[verifier::spinoff_prover]
proof fn lemma_network8_blocks_step0(s: Seq<u32>)
    requires
        s.len() == 8,
    ensures
        network8_blocks(s)[0] <= network8_blocks(s)[1],
{
    let s0 = compare_swap(s, 0, 1);
    lemma_compare_swap(s, 0, 1);
    let s1 = compare_swap(s0, 2, 3);
    lemma_compare_swap(s0, 2, 3);
    let s2 = compare_swap(s1, 4, 5);
    lemma_compare_swap(s1, 4, 5);
    let s3 = compare_swap(s2, 6, 7);
    lemma_compare_swap(s2, 6, 7);
    let s4 = compare_swap(s3, 0, 2);
    lemma_compare_swap(s3, 0, 2);
    let s5 = compare_swap(s4, 1, 3);
    lemma_compare_swap(s4, 1, 3);
    let s6 = compare_swap(s5, 4, 6);
    lemma_compare_swap(s5, 4, 6);
    let s7 = compare_swap(s6, 5, 7);
    lemma_compare_swap(s6, 5, 7);
    let s8 = compare_swap(s7, 1, 2);
    lemma_compare_swap(s7, 1, 2);
    let s9 = compare_swap(s8, 5, 6);
    lemma_compare_swap(s8, 5, 6);
    assert(network8_blocks(s) == s9);
}

/// Entries 1 and 2 are in order after the first comparators on 8 entries.
#[verifier::rlimit(100)]
#[verifier::spinoff_prover]
proof fn lemma_network8_blocks_step1(s: Seq<u32>)
    requires
        s.len() == 8,
    ensures
        network8_blocks(s)[1] <= network8_blocks(s)[2],
{
    let s0 = compare_swap(s, 0, 1);
    lemma_compare_swap(s, 0, 1);
    let s1 = compare_swap(s0, 2, 3);
    lemma_compare_swap(s0, 2, 3);
    let s2 = compare_swap(s1, 4, 5);
    lemma_compare_swap(s1, 4, 5);
    let s3 = compare_swap(s2, 6, 7);
    lemma_compare_swap(s2, 6, 7);
    let s4 = compare_swap(s3, 0, 2);
    lemma_compare_swap(s3, 0, 2);
    let s5 = compare_swap(s4, 1, 3);
    lemma_compare_swap(s4, 1, 3);
    let s6 = compare_swap(s5, 4, 6);
    lemma_compare_swap(s5, 4, 6);
    let s7 = compare_swap(s6, 5, 7);
    lemma_compare_swap(s6, 5, 7);
    let s8 = compare_swap(s7, 1, 2);
    lemma_compare_swap(s7, 1, 2);
    let s9 = compare_swap(s8, 5, 6);
    lemma_compare_swap(s8, 5, 6);
    assert(network8_blocks(s) == s9);
}

/// Entries 2 and 3 are in order after the first comparators on 8 entries.
#[verifier::rlimit(100)]
#[verifier::spinoff_prover]
proof fn lemma_network8_blocks_step2(s: Seq<u32>)
    requires
        s.len() == 8,
    ensures
        network8_blocks(s)[2] <= network8_blocks(s)[3],
{
    let s0 = compare_swap(s, 0, 1);
    lemma_compare_swap(s, 0, 1);
    let s1 = compare_swap(s0, 2, 3);
    lemma_compare_swap(s0, 2, 3);
    let s2 = compare_swap(s1, 4, 5);
    lemma_compare_swap(s1, 4, 5);
    let s3 = compare_swap(s2, 6, 7);
    lemma_compare_swap(s2, 6, 7);
    let s4 = compare_swap(s3, 0, 2);
    lemma_compare_swap(s3, 0, 2);
    let s5 = compare_swap(s4, 1, 3);
    lemma_compare_swap(s4, 1, 3);
    let s6 = compare_swap(s5, 4, 6);
    lemma_compare_swap(s5, 4, 6);
    let s7 = compare_swap(s6, 5, 7);
    lemma_compare_swap(s6, 5, 7);
    let s8 = compare_swap(s7, 1, 2);
    lemma_compare_swap(s7, 1, 2);
    let s9 = compare_swap(s8, 5, 6);
    lemma_compare_swap(s8, 5, 6);
    assert(network8_blocks(s) == s9);
}

/// Entries 4 and 5 are in order after the first comparators on 8 entries.
#[verifier::rlimit(100)]
#[verifier::spinoff_prover]
proof fn lemma_network8_blocks_step4(s: Seq<u32>)
    requires
        s.len() == 8,
    ensures
        network8_blocks(s)[4] <= network8_blocks(s)[5],
{
    let s0 = compare_swap(s, 0, 1);
    lemma_compare_swap(s, 0, 1);
    let s1 = compare_swap(s0, 2, 3);
    lemma_compare_swap(s0, 2, 3);
    let s2 = compare_swap(s1, 4, 5);
    lemma_compare_swap(s1, 4, 5);
    let s3 = compare_swap(s2, 6, 7);
    lemma_compare_swap(s2, 6, 7);
    let s4 = compare_swap(s3, 0, 2);
    lemma_compare_swap(s3, 0, 2);
    let s5 = compare_swap(s4, 1, 3);
    lemma_compare_swap(s4, 1, 3);
    let s6 = compare_swap(s5, 4, 6);
    lemma_compare_swap(s5, 4, 6);
    let s7 = compare_swap(s6, 5, 7);
    lemma_compare_swap(s6, 5, 7);
    let s8 = compare_swap(s7, 1, 2);
    lemma_compare_swap(s7, 1, 2);
    let s9 = compare_swap(s8, 5, 6);
    lemma_compare_swap(s8, 5, 6);
    assert(network8_blocks(s) == s9);
}

/// Entries 5 and 6 are in order after the first comparators on 8 entries.
#[verifier::rlimit(100)]
#[verifier::spinoff_prover]
proof fn lemma_network8_blocks_step5(s: Seq<u32>)
    requires
        s.len() == 8,
    ensures
        network8_blocks(s)[5] <= network8_blocks(s)[6],
{
    let s0 = compare_swap(s, 0, 1);
    lemma_compare_swap(s, 0, 1);
    let s1 = compare_swap(s0, 2, 3);
    lemma_compare_swap(s0, 2, 3);
    let s2 = compare_swap(s1, 4, 5);
    lemma_compare_swap(s1, 4, 5);
    let s3 = compare_swap(s2, 6, 7);
    lemma_compare_swap(s2, 6, 7);
    let s4 = compare_swap(s3, 0, 2);
    lemma_compare_swap(s3, 0, 2);
    let s5 = compare_swap(s4, 1, 3);
    lemma_compare_swap(s4, 1, 3);
    let s6 = compare_swap(s5, 4, 6);
    lemma_compare_swap(s5, 4, 6);
    let s7 = compare_swap(s6, 5, 7);
    lemma_compare_swap(s6, 5, 7);
    let s8 = compare_swap(s7, 1, 2);
    lemma_compare_swap(s7, 1, 2);
    let s9 = compare_swap(s8, 5, 6);
    lemma_compare_swap(s8, 5, 6);
    assert(network8_blocks(s) == s9);
}

/// Entries 6 and 7 are in order after the first comparators on 8 entries.
#[verifier::rlimit(100)]
#[verifier::spinoff_prover]
proof fn lemma_network8_blocks_step6(s: Seq<u32>)
    requires
        s.len() == 8,
    ensures
        network8_blocks(s)[6] <= network8_blocks(s)[7],
{
    let s0 = compare_swap(s, 0, 1);
    lemma_compare_swap(s, 0, 1);
    let s1 = compare_swap(s0, 2, 3);
    lemma_compare_swap(s0, 2, 3);
    let s2 = compare_swap(s1, 4, 5);
    lemma_compare_swap(s1, 4, 5);
    let s3 = compare_swap(s2, 6, 7);
    lemma_compare_swap(s2, 6, 7);
    let s4 = compare_swap(s3, 0, 2);
    lemma_compare_swap(s3, 0, 2);
    let s5 = compare_swap(s4, 1, 3);
    lemma_compare_swap(s4, 1, 3);
    let s6 = compare_swap(s5, 4, 6);
    lemma_compare_swap(s5, 4, 6);
    let s7 = compare_swap(s6, 5, 7);
    lemma_compare_swap(s6, 5, 7);
    let s8 = compare_swap(s7, 1, 2);
    lemma_compare_swap(s7, 1, 2);
    let s9 = compare_swap(s8, 5, 6);
    lemma_compare_swap(s8, 5, 6);
    assert(network8_blocks(s) == s9);
}

/// The first comparators sort the two parts.
proof fn lemma_network8_blocks(s: Seq<u32>)
    requires
        s.len() == 8,
    ensures
        network8_blocks(s).len() == 8,
        sorted_between(network8_blocks(s), 0, 4),
        sorted_between(network8_blocks(s), 4, 8),
        network8_blocks(s).to_multiset() == s.to_multiset(),
{
    let s0 = compare_swap(s, 0, 1);
    lemma_compare_swap(s, 0, 1);
    let s1 = compare_swap(s0, 2, 3);
    lemma_compare_swap(s0, 2, 3);
    let s2 = compare_swap(s1, 4, 5);
    lemma_compare_swap(s1, 4, 5);
    let s3 = compare_swap(s2, 6, 7);
    lemma_compare_swap(s2, 6, 7);
    let s4 = compare_swap(s3, 0, 2);
    lemma_compare_swap(s3, 0, 2);
    let s5 = compare_swap(s4, 1, 3);
    lemma_compare_swap(s4, 1, 3);
    let s6 = compare_swap(s5, 4, 6);
    lemma_compare_swap(s5, 4, 6);
    let s7 = compare_swap(s6, 5, 7);
    lemma_compare_swap(s6, 5, 7);
    let s8 = compare_swap(s7, 1, 2);
    lemma_compare_swap(s7, 1, 2);
    let s9 = compare_swap(s8, 5, 6);
    lemma_compare_swap(s8, 5, 6);
    assert(network8_blocks(s) == s9);
    lemma_network8_blocks_step0(s);
    lemma_network8_blocks_step1(s);
    lemma_network8_blocks_step2(s);
    lemma_network8_blocks_step4(s);
    lemma_network8_blocks_step5(s);
    lemma_network8_blocks_step6(s);
    let b = network8_blocks(s);
    lemma_adjacent_sorted(b.subrange(0, 4));
    lemma_adjacent_sorted(b.subrange(4, 8));
    assert forall|x: int, y: int| 0 <= x < y < 4 implies b[x] <= b[y] by {
        assert(b.subrange(0, 4)[x] <= b.subrange(0, 4)[y]);
    }
    assert forall|x: int, y: int| 4 <= x < y < 8 implies b[x] <= b[y] by {
        assert(b.subrange(4, 8)[x - 4] <= b.subrange(4, 8)[y - 4]);
    }
}

/// Entries 0 and 1 come out of the merge on 8 entries in order.
#[verifier::rlimit(100)]
#[verifier::spinoff_prover]
proof fn lemma_network8_merge_step0(t: Seq<u32>)
    requires
        t.len() == 8,
        sorted_between(t, 0, 4),
        sorted_between(t, 4, 8),
    ensures
        network8_merge(t)[0] <= network8_merge(t)[1],
{
    let t0 = compare_swap(t, 0, 4);
    lemma_compare_swap(t, 0, 4);
    let t1 = compare_swap(t0, 3, 7);
    lemma_compare_swap(t0, 3, 7);
    let t2 = compare_swap(t1, 1, 5);
    lemma_compare_swap(t1, 1, 5);
    let t3 = compare_swap(t2, 2, 6);
    lemma_compare_swap(t2, 2, 6);
    let t4 = compare_swap(t3, 2, 4);
    lemma_compare_swap(t3, 2, 4);
    let t5 = compare_swap(t4, 3, 5);
    lemma_compare_swap(t4, 3, 5);
    let t6 = compare_swap(t5, 1, 2);
    lemma_compare_swap(t5, 1, 2);
    let t7 = compare_swap(t6, 5, 6);
    lemma_compare_swap(t6, 5, 6);
    let t8 = compare_swap(t7, 3, 4);
    lemma_compare_swap(t7, 3, 4);
    assert(network8_merge(t) == t8);
}

/// Entries 1 and 2 come out of the merge on 8 entries in order.
#[verifier::rlimit(100)]
#[verifier::spinoff_prover]
proof fn lemma_network8_merge_step1(t: Seq<u32>)
    requires
        t.len() == 8,
        sorted_between(t, 0, 4),
        sorted_between(t, 4, 8),
    ensures
        network8_merge(t)[1] <= network8_merge(t)[2],
{
    let t0 = compare_swap(t, 0, 4);
    lemma_compare_swap(t, 0, 4);
    let t1 = compare_swap(t0, 3, 7);
    lemma_compare_swap(t0, 3, 7);
    let t2 = compare_swap(t1, 1, 5);
    lemma_compare_swap(t1, 1, 5);
    let t3 = compare_swap(t2, 2, 6);
    lemma_compare_swap(t2, 2, 6);
    let t4 = compare_swap(t3, 2, 4);
    lemma_compare_swap(t3, 2, 4);
    let t5 = compare_swap(t4, 3, 5);
    lemma_compare_swap(t4, 3, 5);
    let t6 = compare_swap(t5, 1, 2);
    lemma_compare_swap(t5, 1, 2);
    let t7 = compare_swap(t6, 5, 6);
    lemma_compare_swap(t6, 5, 6);
    let t8 = compare_swap(t7, 3, 4);
    lemma_compare_swap(t7, 3, 4);
    assert(network8_merge(t) == t8);
}

/// Entries 2 and 3 come out of the merge on 8 entries in order.
#[verifier::rlimit(100)]
#[verifier::spinoff_prover]
proof fn lemma_network8_merge_step2(t: Seq<u32>)
    requires
        t.len() == 8,
        sorted_between(t, 0, 4),
        sorted_between(t, 4, 8),
    ensures
        network8_merge(t)[2] <= network8_merge(t)[3],
{
    let t0 = compare_swap(t, 0, 4);
    lemma_compare_swap(t, 0, 4);
    let t1 = compare_swap(t0, 3, 7);
    lemma_compare_swap(t0, 3, 7);
    let t2 = compare_swap(t1, 1, 5);
    lemma_compare_swap(t1, 1, 5);
    let t3 = compare_swap(t2, 2, 6);
    lemma_compare_swap(t2, 2, 6);
    let t4 = compare_swap(t3, 2, 4);
    lemma_compare_swap(t3, 2, 4);
    let t5 = compare_swap(t4, 3, 5);
    lemma_compare_swap(t4, 3, 5);
    let t6 = compare_swap(t5, 1, 2);
    lemma_compare_swap(t5, 1, 2);
    let t7 = compare_swap(t6, 5, 6);
    lemma_compare_swap(t6, 5, 6);
    let t8 = compare_swap(t7, 3, 4);
    lemma_compare_swap(t7, 3, 4);
    assert(network8_merge(t) == t8);
}

/// Entries 3 and 4 come out of the merge on 8 entries in order.
#[verifier::rlimit(100)]
#[verifier::spinoff_prover]
proof fn lemma_network8_merge_step3(t: Seq<u32>)
    requires
        t.len() == 8,
        sorted_between(t, 0, 4),
        sorted_between(t, 4, 8),
    ensures
        network8_merge(t)[3] <= network8_merge(t)[4],
{
    let t0 = compare_swap(t, 0, 4);
    lemma_compare_swap(t, 0, 4);
    let t1 = compare_swap(t0, 3, 7);
    lemma_compare_swap(t0, 3, 7);
    let t2 = compare_swap(t1, 1, 5);
    lemma_compare_swap(t1, 1, 5);
    let t3 = compare_swap(t2, 2, 6);
    lemma_compare_swap(t2, 2, 6);
    let t4 = compare_swap(t3, 2, 4);
    lemma_compare_swap(t3, 2, 4);
    let t5 = compare_swap(t4, 3, 5);
    lemma_compare_swap(t4, 3, 5);
    let t6 = compare_swap(t5, 1, 2);
    lemma_compare_swap(t5, 1, 2);
    let t7 = compare_swap(t6, 5, 6);
    lemma_compare_swap(t6, 5, 6);
    let t8 = compare_swap(t7, 3, 4);
    lemma_compare_swap(t7, 3, 4);
    assert(network8_merge(t) == t8);
}

/// Entries 4 and 5 come out of the merge on 8 entries in order.
#[verifier::rlimit(100)]
#[verifier::spinoff_prover]
proof fn lemma_network8_merge_step4(t: Seq<u32>)
    requires
        t.len() == 8,
        sorted_between(t, 0, 4),
        sorted_between(t, 4, 8),
    ensures
        network8_merge(t)[4] <= network8_merge(t)[5],
{
    let t0 = compare_swap(t, 0, 4);
    lemma_compare_swap(t, 0, 4);
    let t1 = compare_swap(t0, 3, 7);
    lemma_compare_swap(t0, 3, 7);
    let t2 = compare_swap(t1, 1, 5);
    lemma_compare_swap(t1, 1, 5);
    let t3 = compare_swap(t2, 2, 6);
    lemma_compare_swap(t2, 2, 6);
    let t4 = compare_swap(t3, 2, 4);
    lemma_compare_swap(t3, 2, 4);
    let t5 = compare_swap(t4, 3, 5);
    lemma_compare_swap(t4, 3, 5);
    let t6 = compare_swap(t5, 1, 2);
    lemma_compare_swap(t5, 1, 2);
    let t7 = compare_swap(t6, 5, 6);
    lemma_compare_swap(t6, 5, 6);
    let t8 = compare_swap(t7, 3, 4);
    lemma_compare_swap(t7, 3, 4);
    assert(network8_merge(t) == t8);
}

/// Entries 5 and 6 come out of the merge on 8 entries in order.
#[verifier::rlimit(100)]
#[verifier::spinoff_prover]
proof fn lemma_network8_merge_step5(t: Seq<u32>)
    requires
        t.len() == 8,
        sorted_between(t, 0, 4),
        sorted_between(t, 4, 8),
    ensures
        network8_merge(t)[5] <= network8_merge(t)[6],
{
    let t0 = compare_swap(t, 0, 4);
    lemma_compare_swap(t, 0, 4);
    let t1 = compare_swap(t0, 3, 7);
    lemma_compare_swap(t0, 3, 7);
    let t2 = compare_swap(t1, 1, 5);
    lemma_compare_swap(t1, 1, 5);
    let t3 = compare_swap(t2, 2, 6);
    lemma_compare_swap(t2, 2, 6);
    let t4 = compare_swap(t3, 2, 4);
    lemma_compare_swap(t3, 2, 4);
    let t5 = compare_swap(t4, 3, 5);
    lemma_compare_swap(t4, 3, 5);
    let t6 = compare_swap(t5, 1, 2);
    lemma_compare_swap(t5, 1, 2);
    let t7 = compare_swap(t6, 5, 6);
    lemma_compare_swap(t6, 5, 6);
    let t8 = compare_swap(t7, 3, 4);
    lemma_compare_swap(t7, 3, 4);
    assert(network8_merge(t) == t8);
}

/// Entries 6 and 7 come out of the merge on 8 entries in order.
#[verifier::rlimit(100)]
#[verifier::spinoff_prover]
proof fn lemma_network8_merge_step6(t: Seq<u32>)
    requires
        t.len() == 8,
        sorted_between(t, 0, 4),
        sorted_between(t, 4, 8),
    ensures
        network8_merge(t)[6] <= network8_merge(t)[7],
{
    let t0 = compare_swap(t, 0, 4);
    lemma_compare_swap(t, 0, 4);
    let t1 = compare_swap(t0, 3, 7);
    lemma_compare_swap(t0, 3, 7);
    let t2 = compare_swap(t1, 1, 5);
    lemma_compare_swap(t1, 1, 5);
    let t3 = compare_swap(t2, 2, 6);
    lemma_compare_swap(t2, 2, 6);
    let t4 = compare_swap(t3, 2, 4);
    lemma_compare_swap(t3, 2, 4);
    let t5 = compare_swap(t4, 3, 5);
    lemma_compare_swap(t4, 3, 5);
    let t6 = compare_swap(t5, 1, 2);
    lemma_compare_swap(t5, 1, 2);
    let t7 = compare_swap(t6, 5, 6);
    lemma_compare_swap(t6, 5, 6);
    let t8 = compare_swap(t7, 3, 4);
    lemma_compare_swap(t7, 3, 4);
    assert(network8_merge(t) == t8);
}

/// The network on 8 entries sorts every input and keeps its values.
#[verifier::rlimit(100)]
#[verifier::spinoff_prover]
pub proof fn lemma_network8(s: Seq<u32>)
    requires
        s.len() == 8,
    ensures
        network8(s).len() == 8,
        sorted_between(network8(s), 0, 8),
        network8(s).to_multiset() == s.to_multiset(),
{
    lemma_network8_blocks(s);
    let t = network8_blocks(s);
    let t0 = compare_swap(t, 0, 4);
    lemma_compare_swap(t, 0, 4);
    let t1 = compare_swap(t0, 3, 7);
    lemma_compare_swap(t0, 3, 7);
    let t2 = compare_swap(t1, 1, 5);
    lemma_compare_swap(t1, 1, 5);
    let t3 = compare_swap(t2, 2, 6);
    lemma_compare_swap(t2, 2, 6);
    let t4 = compare_swap(t3, 2, 4);
    lemma_compare_swap(t3, 2, 4);
    let t5 = compare_swap(t4, 3, 5);
    lemma_compare_swap(t4, 3, 5);
    let t6 = compare_swap(t5, 1, 2);
    lemma_compare_swap(t5, 1, 2);
    let t7 = compare_swap(t6, 5, 6);
    lemma_compare_swap(t6, 5, 6);
    let t8 = compare_swap(t7, 3, 4);
    lemma_compare_swap(t7, 3, 4);
    assert(network8_merge(t) == t8);
    assert(network8(s) == network8_merge(t));
    lemma_network8_merge_step0(t);
    lemma_network8_merge_step1(t);
    lemma_network8_merge_step2(t);
    lemma_network8_merge_step3(t);
    lemma_network8_merge_step4(t);
    lemma_network8_merge_step5(t);
    lemma_network8_merge_step6(t);
    lemma_adjacent_sorted(network8(s));
}

/// The network on 9 entries keeps the values (it does not sort every input).
#[verifier::rlimit(100)]
#[verifier::spinoff_prover]
pub proof fn lemma_network9(s: Seq<u32>)
    requires
        s.len() == 9,
    ensures
        network9(s).len() == 9,
        network9(s).to_multiset() == s.to_multiset(),
{
    let s0 = compare_swap(s, 0, 1);
    lemma_compare_swap(s, 0, 1);
    let s1 = compare_swap(s0, 3, 4);
    lemma_compare_swap(s0, 3, 4);
    let s2 = compare_swap(s1, 6, 7);
    lemma_compare_swap(s1, 6, 7);
    let s3 = compare_swap(s2, 1, 2);
    lemma_compare_swap(s2, 1, 2);
    let s4 = compare_swap(s3, 4, 5);
    lemma_compare_swap(s3, 4, 5);
    let s5 = compare_swap(s4, 7, 8);
    lemma_compare_swap(s4, 7, 8);
    let s6 = compare_swap(s5, 0, 1);
    lemma_compare_swap(s5, 0, 1);
    let s7 = compare_swap(s6, 3, 4);
    lemma_compare_swap(s6, 3, 4);
    let s8 = compare_swap(s7, 6, 7);
    lemma_compare_swap(s7, 6, 7);
    let s9 = compare_swap(s8, 0, 3);
    lemma_compare_swap(s8, 0, 3);
    let s10 = compare_swap(s9, 1, 4);
    lemma_compare_swap(s9, 1, 4);
    let s11 = compare_swap(s10, 2, 5);
    lemma_compare_swap(s10, 2, 5);
    let s12 = compare_swap(s11, 3, 6);
    lemma_compare_swap(s11, 3, 6);
    let s13 = compare_swap(s12, 4, 7);
    lemma_compare_swap(s12, 4, 7);
    let s14 = compare_swap(s13, 5, 8);
    lemma_compare_swap(s13, 5, 8);
    let s15 = compare_swap(s14, 0, 3);
    lemma_compare_swap(s14, 0, 3);
    let s16 = compare_swap(s15, 1, 4);
    lemma_compare_swap(s15, 1, 4);
    let s17 = compare_swap(s16, 2, 5);
    lemma_compare_swap(s16, 2, 5);
    let s18 = compare_swap(s17, 1, 6);
    lemma_compare_swap(s17, 1, 6);
    let s19 = compare_swap(s18, 2, 7);
    lemma_compare_swap(s18, 2, 7);
    let s20 = compare_swap(s19, 1, 3);
    lemma_compare_swap(s19, 1, 3);
    let s21 = compare_swap(s20, 4, 6);
    lemma_compare_swap(s20, 4, 6);
    let s22 = compare_swap(s21, 5, 7);
    lemma_compare_swap(s21, 5, 7);
    let s23 = compare_swap(s22, 2, 4);
    lemma_compare_swap(s22, 2, 4);
    let s24 = compare_swap(s23, 3, 5);
    lemma_compare_swap(s23, 3, 5);
    let s25 = compare_swap(s24, 2, 3);
    lemma_compare_swap(s24, 2, 3);
    let s26 = compare_swap(s25, 4, 5);
    lemma_compare_swap(s25, 4, 5);
    assert(network9(s) == s26);
}

/// The network on 10 entries keeps the values (it does not sort every input).
#[verifier::rlimit(100)]
#[verifier::spinoff_prover]
pub proof fn lemma_network10(s: Seq<u32>)
    requires
        s.len() == 10,
    ensures
        network10(s).len() == 10,
        network10(s).to_multiset() == s.to_multiset(),
{
    let s0 = compare_swap(s, 0, 1);
    lemma_compare_swap(s, 0, 1);
    let s1 = compare_swap(s0, 2, 3);
    lemma_compare_swap(s0, 2, 3);
    let s2 = compare_swap(s1, 4, 5);
    lemma_compare_swap(s1, 4, 5);
    let s3 = compare_swap(s2, 6, 7);
    lemma_compare_swap(s2, 6, 7);
    let s4 = compare_swap(s3, 8, 9);
    lemma_compare_swap(s3, 8, 9);
    let s5 = compare_swap(s4, 0, 2);
    lemma_compare_swap(s4, 0, 2);
    let s6 = compare_swap(s5, 1, 3);
    lemma_compare_swap(s5, 1, 3);
    let s7 = compare_swap(s6, 4, 6);
    lemma_compare_swap(s6, 4, 6);
    let s8 = compare_swap(s7, 5, 7);
    lemma_compare_swap(s7, 5, 7);
    let s9 = compare_swap(s8, 0, 4);
    lemma_compare_swap(s8, 0, 4);
    let s10 = compare_swap(s9, 1, 5);
    lemma_compare_swap(s9, 1, 5);
    let s11 = compare_swap(s10, 2, 6);
    lemma_compare_swap(s10, 2, 6);
    let s12 = compare_swap(s11, 3, 7);
    lemma_compare_swap(s11, 3, 7);
    let s13 = compare_swap(s12, 0, 8);
    lemma_compare_swap(s12, 0, 8);
    let s14 = compare_swap(s13, 1, 9);
    lemma_compare_swap(s13, 1, 9);
    let s15 = compare_swap(s14, 2, 8);
    lemma_compare_swap(s14, 2, 8);
    let s16 = compare_swap(s15, 3, 9);
    lemma_compare_swap(s15, 3, 9);
    let s17 = compare_swap(s16, 1, 4);
    lemma_compare_swap(s16, 1, 4);
    let s18 = compare_swap(s17, 3, 6);
    lemma_compare_swap(s17, 3, 6);
    let s19 = compare_swap(s18, 5, 8);
    lemma_compare_swap(s18, 5, 8);
    let s20 = compare_swap(s19, 1, 2);
    lemma_compare_swap(s19, 1, 2);
    let s21 = compare_swap(s20, 4, 5);
    lemma_compare_swap(s20, 4, 5);
    let s22 = compare_swap(s21, 7, 8);
    lemma_compare_swap(s21, 7, 8);
    let s23 = compare_swap(s22, 3, 5);
    lemma_compare_swap(s22, 3, 5);
    let s24 = compare_swap(s23, 6, 8);
    lemma_compare_swap(s23, 6, 8);
    let s25 = compare_swap(s24, 2, 4);
    lemma_compare_swap(s24, 2, 4);
    let s26 = compare_swap(s25, 5, 7);
    lemma_compare_swap(s25, 5, 7);
    let s27 = compare_swap(s26, 3, 4);
    lemma_compare_swap(s26, 3, 4);
    let s28 = compare_swap(s27, 5, 6);
    lemma_compare_swap(s27, 5, 6);
    assert(network10(s) == s28);
}


/// A sequence whose neighbours are in order is sorted.
pub proof fn lemma_adjacent_sorted(s: Seq<u32>)
    requires
        forall|k: int| 0 <= k < s.len() - 1 ==> #[trigger] s[k] <= s[k + 1],
    ensures
        sorted_between(s, 0, s.len() as int),
{
    assert forall|a: int, b: int| 0 <= a < b < s.len() implies s[a] <= s[b] by {
        lemma_adjacent_chain(s, a, b);
    }
}

/// Neighbours in order chain from `a` to `b`.
proof fn lemma_adjacent_chain(s: Seq<u32>, a: int, b: int)
    requires
        forall|k: int| 0 <= k < s.len() - 1 ==> #[trigger] s[k] <= s[k + 1],
        0 <= a <= b < s.len(),
    ensures
        s[a] <= s[b],
    decreases b - a,
{
    if a < b {
        lemma_adjacent_chain(s, a, b - 1);
        assert(s[b - 1] <= s[b]);
    }
}


/// Sorts a list of at least ten words: exactly ten go through the network on
/// ten entries (which keeps their values but does not put every input in
/// order), longer lists are sorted. Shorter lists are left out: they would be
/// read as ten entries.
pub fn sort_network(v: &mut Vec<u32>)
    requires
        old(v).len() >= 10,
    ensures
        final(v).len() == old(v).len(),
        final(v)@.to_multiset() == old(v)@.to_multiset(),
        old(v).len() == 10 ==> final(v)@ == network10(old(v)@),
        old(v).len() == 10 ==> network10_ordered(final(v)@),
        old(v).len() > 10 ==> sorted_between(final(v)@, 0, final(v).len() as int),
{
    let n = v.len();
    if n == 10 {
        let mut a = [0u32; 10];
        let mut i: usize = 0;
        while i < 10
            invariant
                i <= 10,
                v.len() == 10,
                forall|j: int| 0 <= j < i ==> a@[j] == v@[j],
            decreases 10 - i,
        {
            a[i] = v[i];
            i += 1;
        }
        let ghost s0 = a@;
        proof {
            assert(s0 =~= v@);
        }
        a.network_sort();
        proof {
            lemma_network10(s0);
        }
        let mut i: usize = 0;
        let ghost v0 = v@;
        while i < 10
            invariant
                i <= 10,
                v.len() == 10,
                a@.len() == 10,
                forall|j: int| 0 <= j < i ==> v@[j] == a@[j],
                forall|j: int| i <= j < 10 ==> v@[j] == v0[j],
            decreases 10 - i,
        {
            v.set(i, a[i]);
            i += 1;
        }
        proof {
            assert(v@ =~= a@);
        }
    } else {
        sort_range(v, 0, n);
        proof {
            assert(v@.subrange(0, n as int) =~= v@);
            assert(old(v)@.subrange(0, n as int) =~= old(v)@);
        }
    }
}

} // verus!
