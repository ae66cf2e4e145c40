//! Factorials, binomial coefficients, permutation numbering, Heap's algorithm
//! and bit streams.

use vstd::prelude::*;

verus! {

use crate::heap::{
    heap_effect,
    heap_table,
    heap_blocks,
    heap_round,
    round_entry,
    earlier_entry,
    arranges,
    lemma_round_ends,
    lemma_round_entry,
    lemma_round_entries_differ,
    lemma_round_entry_onto,
    lemma_odd_round,
    lemma_even_round,
    lemma_rearranged_no_duplicates,
    lemma_arranges_one,
    lemma_arranged_entry,
};

/// The binomial coefficient "`a` choose `k`", by Pascal's rule.
pub open spec fn binom(a: nat, k: nat) -> nat
    decreases a,
{
    if k == 0 {
        1
    } else if a == 0 {
        0
    } else {
        binom((a - 1) as nat, (k - 1) as nat) + binom((a - 1) as nat, k)
    }
}

/// `n!`
pub open spec fn fact(n: nat) -> nat
    decreases n,
{
    if n == 0 {
        1
    } else {
        n * fact((n - 1) as nat)
    }
}


/// `fact` never decreases.
pub proof fn lemma_fact_mono(a: nat, b: nat)
    requires
        a <= b,
    ensures
        1 <= fact(a) <= fact(b),
    decreases b,
{
    if b > 0 {
        if a < b {
            lemma_fact_mono(a, (b - 1) as nat);
        }
        lemma_fact_mono(0, (b - 1) as nat);
        assert(fact(b) == b * fact((b - 1) as nat));
        assert(fact((b - 1) as nat) <= b * fact((b - 1) as nat)) by (nonlinear_arith)
            requires
                b >= 1,
                fact((b - 1) as nat) >= 1,
        ;
    }
}

/// `n <= n!`.
pub proof fn lemma_fact_ge(n: nat)
    ensures
        n <= fact(n),
    decreases n,
{
    if n > 0 {
        lemma_fact_mono(0, (n - 1) as nat);
        assert(n <= n * fact((n - 1) as nat)) by (nonlinear_arith)
            requires
                fact((n - 1) as nat) >= 1,
        ;
    }
}

/// `n < n!` from 3 on.
pub proof fn lemma_fact_gt(n: nat)
    requires
        n >= 3,
    ensures
        n < fact(n),
{
    lemma_fact_ge((n - 1) as nat);
    assert(n < n * fact((n - 1) as nat)) by (nonlinear_arith)
        requires
            fact((n - 1) as nat) >= n - 1,
            n >= 3,
    ;
}

/// `n!`, for `n!` that fits a `usize`.
pub fn factorial(n: usize) -> (r: usize)
    requires
        fact(n as nat) <= usize::MAX,
    ensures
        r == fact(n as nat),
{
    let mut res: usize = 1;
    let mut i: usize = 1;
    while i <= n
        invariant
            1 <= i <= n + 1,
            res == fact((i - 1) as nat),
            fact(n as nat) <= usize::MAX,
        decreases n + 1 - i,
    {
        proof {
            lemma_fact_mono(i as nat, n as nat);
            assert(fact(i as nat) == i * fact((i - 1) as nat));
            assert(res * i == fact(i as nat)) by (nonlinear_arith)
                requires
                    res == fact((i - 1) as nat),
                    fact(i as nat) == i * fact((i - 1) as nat),
            ;
            if n >= 3 {
                lemma_fact_gt(n as nat);
            }
        }
        res = res * i;
        i += 1;
    }
    res
}

/// There are no `k`-subsets of a smaller set.
pub proof fn lemma_binom_zero(a: nat, k: nat)
    requires
        k > a,
    ensures
        binom(a, k) == 0,
    decreases a,
{
    if a > 0 {
        lemma_binom_zero((a - 1) as nat, (k - 1) as nat);
        lemma_binom_zero((a - 1) as nat, k);
    }
}

/// `binom(a, a) == 1`.
pub proof fn lemma_binom_all(a: nat)
    ensures
        binom(a, a) == 1,
    decreases a,
{
    if a > 0 {
        lemma_binom_all((a - 1) as nat);
        lemma_binom_zero((a - 1) as nat, a);
    }
}

/// `binom(a, 1) == a`.
pub proof fn lemma_binom_one(a: nat)
    ensures
        binom(a, 1) == a,
    decreases a,
{
    if a > 0 {
        lemma_binom_one((a - 1) as nat);
        assert(binom((a - 1) as nat, 0) == 1);
    }
}

/// `(k + 1) * binom(a, k + 1) == (a - k) * binom(a, k)`.
pub proof fn lemma_binom_step(a: nat, k: nat)
    requires
        k <= a,
    ensures
        (k + 1) * binom(a, k + 1) == (a - k) * binom(a, k),
    decreases a,
{
    if k == a {
        lemma_binom_zero(a, k + 1);
        assert((k + 1) * binom(a, k + 1) == 0);
        assert((a - k) * binom(a, k) == 0);
    } else if k == 0 {
        lemma_binom_one(a);
        assert(binom(a, 0) == 1);
        assert(binom(a, k + 1) == binom(a, 1));
        assert((k + 1) * binom(a, k + 1) == binom(a, 1)) by (nonlinear_arith)
            requires
                k == 0,
        ;
        assert((a - k) * binom(a, k) == a) by (nonlinear_arith)
            requires
                k == 0,
                binom(a, k) == 1,
        ;
    } else {
        let a1 = (a - 1) as nat;
        lemma_binom_step(a1, k);
        lemma_binom_step(a1, (k - 1) as nat);
        assert((k - 1) as nat + 1 == k);
        assert(binom(a, k + 1) == binom(a1, k) + binom(a1, k + 1));
        assert(binom(a, k) == binom(a1, (k - 1) as nat) + binom(a1, k));
        let x = binom(a1, (k - 1) as nat);
        let y = binom(a1, k);
        let z = binom(a1, k + 1);
        assert(binom(a, k + 1) == y + z);
        assert(binom(a, k) == x + y);
        assert((k + 1) * (y + z) == (a - k) * (x + y)) by (nonlinear_arith)
            requires
                (k + 1) * z == (a1 - k) * y,
                k * y == (a1 - (k - 1)) * x,
                a1 == a - 1,
                k >= 1,
                k < a,
        ;
    }
}

/// `binom(a, k) == binom(a, a - k)`.
pub proof fn lemma_binom_symmetric(a: nat, k: nat)
    requires
        k <= a,
    ensures
        binom(a, k) == binom(a, (a - k) as nat),
    decreases a,
{
    if a > 0 && k > 0 && k < a {
        let a1 = (a - 1) as nat;
        lemma_binom_symmetric(a1, (k - 1) as nat);
        lemma_binom_symmetric(a1, k);
        assert(binom(a, (a - k) as nat) == binom(a1, (a - k - 1) as nat) + binom(a1, (a - k) as nat));
    } else if k == 0 {
        lemma_binom_all(a);
    } else if k == a {
        lemma_binom_all(a);
    }
}

/// The multiplicative formula for `binom(n, m)` never leaves a `usize`: every
/// partial product `binom(n, i + 1) * (i + 1)` up to the smaller of `m` and `n - m` fits.
pub open spec fn binomial_fits(n: nat, m: nat) -> bool {
    let mm = if m > n - m {
        (n - m) as nat
    } else {
        m
    };
    forall|i: nat| i < mm ==> #[trigger] binom(n, i + 1) * (i + 1) <= usize::MAX
}

/// "`n` choose `m`", computed by the multiplicative formula.
pub fn binomial_coefficient(n: usize, m: usize) -> (r: usize)
    requires
        m <= n ==> binomial_fits(n as nat, m as nat),
    ensures
        r == binom(n as nat, m as nat),
{
    if m > n {
        proof {
            lemma_binom_zero(n as nat, m as nat);
        }
        return 0;
    }
    if m == 0 || m == n {
        proof {
            lemma_binom_all(n as nat);
        }
        return 1;
    }
    let mut m = m;
    let ghost m0 = m;
    if m > n - m {
        m = n - m;
    }
    proof {
        lemma_binom_symmetric(n as nat, m0 as nat);
        assert(binom(n as nat, m as nat) == binom(n as nat, m0 as nat));
    }
    let mut res: usize = 1;
    let mut i: usize = 0;
    while i < m
        invariant
            i <= m <= n,
            res == binom(n as nat, i as nat),
            forall|j: nat| j < m ==> #[trigger] binom(n as nat, j + 1) * (j + 1) <= usize::MAX,
        decreases m - i,
    {
        proof {
            lemma_binom_step(n as nat, i as nat);
            assert(binom(n as nat, (i + 1) as nat) * (i + 1) <= usize::MAX);
            assert(res * (n - i) == binom(n as nat, (i + 1) as nat) * (i + 1)) by (nonlinear_arith)
                requires
                    res == binom(n as nat, i as nat),
                    (i + 1) * binom(n as nat, (i + 1) as nat) == (n - i) * binom(n as nat, i as nat),
            ;
            assert((binom(n as nat, (i + 1) as nat) * (i + 1)) / ((i + 1) as int) == binom(n as nat, (i + 1) as nat)) by (nonlinear_arith)
                requires
                    i + 1 > 0,
            ;
        }
        res = (res * (n - i)) / (i + 1);
        i += 1;
    }
    res
}

/// `binom(n, lo) + binom(n, lo + 1) + ... + binom(n, hi)`.
pub open spec fn binom_sum(n: nat, lo: nat, hi: int) -> nat
    decreases hi - lo + 1,
{
    if hi < lo {
        0
    } else {
        binom_sum(n, lo, hi - 1) + binom(n, hi as nat)
    }
}

/// The number of hyperedges on `node_count` nodes with sizes from
/// `min_edge_size` to `max_edge_size`.
pub fn max_hyperedge_count(node_count: usize, min_edge_size: usize, max_edge_size: usize) -> (r: usize)
    requires
        max_edge_size < usize::MAX,
        forall|s: nat| min_edge_size <= s <= max_edge_size && s <= node_count ==> #[trigger] binomial_fits(node_count as nat, s),
        binom_sum(node_count as nat, min_edge_size as nat, max_edge_size as int) <= usize::MAX,
    ensures
        r == binom_sum(node_count as nat, min_edge_size as nat, max_edge_size as int),
{
    let mut total: usize = 0;
    let mut edge_size = min_edge_size;
    while edge_size <= max_edge_size
        invariant
            min_edge_size <= edge_size,
            edge_size <= max_edge_size + 1 || edge_size == min_edge_size,
            max_edge_size < usize::MAX,
            total == binom_sum(node_count as nat, min_edge_size as nat, edge_size - 1),
            forall|s: nat| min_edge_size <= s <= max_edge_size && s <= node_count ==> #[trigger] binomial_fits(node_count as nat, s),
            binom_sum(node_count as nat, min_edge_size as nat, max_edge_size as int) <= usize::MAX,
        decreases max_edge_size + 1 - edge_size,
    {
        proof {
            lemma_binom_sum_mono(node_count as nat, min_edge_size as nat, edge_size as int, max_edge_size as int);
            if edge_size <= node_count {
                assert(binomial_fits(node_count as nat, edge_size as nat));
            }
        }
        total = total + binomial_coefficient(node_count, edge_size);
        edge_size += 1;
    }
    total
}

/// Partial sums never decrease.
pub proof fn lemma_binom_sum_mono(n: nat, lo: nat, a: int, b: int)
    requires
        a <= b,
    ensures
        binom_sum(n, lo, a) <= binom_sum(n, lo, b),
    decreases b - a,
{
    if a < b {
        lemma_binom_sum_mono(n, lo, a, b - 1);
    }
}

/// The permutation of `0..n` that number `r` stands for: its last entry is
/// `r % n`, and the rest is the permutation of `0..n-1` that `r / n` stands
/// for, with the value `r % n` replaced by `n - 1`.
pub open spec fn unrank(r: nat, n: nat) -> Seq<int>
    decreases n,
{
    if n <= 1 {
        Seq::new(n, |i: int| i)
    } else {
        let s = (r % n) as int;
        let prev = unrank(r / n, (n - 1) as nat);
        Seq::new(
            n,
            |i: int|
                if i == n - 1 {
                    s
                } else if prev[i] == s {
                    n - 1
                } else {
                    prev[i]
                },
        )
    }
}

/// `p` lists each of `0..n` exactly once.
pub open spec fn is_perm(p: Seq<int>, n: nat) -> bool {
    &&& p.len() == n
    &&& forall|i: int| 0 <= i < n ==> 0 <= #[trigger] p[i] < n
    &&& forall|i: int, j: int| 0 <= i < n && 0 <= j < n && i != j ==> p[i] != p[j]
}

/// A permutation of `0..n` with its entry `n - 1` moved to where `n - 1` was,
/// cut to its first `n - 1` entries.
pub open spec fn reduce_perm(p: Seq<int>, n: nat) -> Seq<int> {
    Seq::new((n - 1) as nat, |i: int| if p[i] == n - 1 { p[n - 1] } else { p[i] })
}

/// The number that permutation `p` of `0..n` gets: its last entry, plus `n`
/// times the number of the reduced permutation of `0..n-1`.
pub open spec fn rank(p: Seq<int>, n: nat) -> nat
    decreases n,
{
    if n <= 1 {
        0
    } else {
        (p[n - 1] + n * rank(reduce_perm(p, n), (n - 1) as nat)) as nat
    }
}

/// The reduced permutation is a permutation of `0..n-1`.
pub proof fn lemma_reduce_perm(p: Seq<int>, n: nat)
    requires
        n >= 2,
        is_perm(p, n),
    ensures
        is_perm(reduce_perm(p, n), (n - 1) as nat),
{
    let q = reduce_perm(p, n);
    let s = p[n - 1];
    assert forall|i: int| 0 <= i < n - 1 implies 0 <= #[trigger] q[i] < n - 1 by {
        if p[i] == n - 1 {
            assert(s != n - 1);
        }
    }
    assert forall|i: int, j: int| 0 <= i < n - 1 && 0 <= j < n - 1 && i != j implies q[i] != q[j] by {
        if p[i] == n - 1 {
            assert(p[j] != n - 1);
            assert(p[j] != p[n - 1]);
        } else if p[j] == n - 1 {
            assert(p[i] != p[n - 1]);
        }
    }
}

/// `unrank` gives a permutation.
pub proof fn lemma_unrank_perm(r: nat, n: nat)
    ensures
        is_perm(unrank(r, n), n),
    decreases n,
{
    if n > 1 {
        lemma_unrank_perm(r / n, (n - 1) as nat);
        let u = unrank(r, n);
        let prev = unrank(r / n, (n - 1) as nat);
        let s = (r % n) as int;
        assert forall|i: int, j: int| 0 <= i < n && 0 <= j < n && i != j implies u[i] != u[j] by {
            if i != n - 1 && j != n - 1 {
                assert(prev[i] != prev[j]);
            }
        }
    }
}

/// Every permutation's number is below `n!`.
pub proof fn lemma_rank_bound(p: Seq<int>, n: nat)
    requires
        is_perm(p, n),
    ensures
        rank(p, n) < fact(n),
    decreases n,
{
    if n <= 1 {
        assert(fact(n) == 1) by {
            if n == 1 {
                assert(fact(1) == 1 * fact(0));
            }
        }
    } else {
        lemma_reduce_perm(p, n);
        lemma_rank_bound(reduce_perm(p, n), (n - 1) as nat);
        let q = rank(reduce_perm(p, n), (n - 1) as nat);
        assert(p[n - 1] + n * q < n * fact((n - 1) as nat)) by (nonlinear_arith)
            requires
                0 <= p[n - 1] < n,
                q < fact((n - 1) as nat),
        ;
    }
}

/// Decoding the number of a permutation gives the permutation back.
pub proof fn lemma_unrank_rank(p: Seq<int>, n: nat)
    requires
        is_perm(p, n),
    ensures
        unrank(rank(p, n), n) == p,
    decreases n,
{
    if n <= 1 {
        if n == 1 {
            assert(p[0] == 0);
        }
        assert(unrank(rank(p, n), n) =~= p);
    } else {
        let q = reduce_perm(p, n);
        lemma_reduce_perm(p, n);
        lemma_unrank_rank(q, (n - 1) as nat);
        let rq = rank(q, (n - 1) as nat);
        let r = rank(p, n);
        let s = p[n - 1];
        assert(r % n == s && r / n == rq) by (nonlinear_arith)
            requires
                r == s + n * rq,
                0 <= s < n,
                n >= 2,
        ;
        let u = unrank(r, n);
        assert forall|i: int| 0 <= i < n implies u[i] == p[i] by {
            if i < n - 1 {
                if p[i] == n - 1 {
                    assert(q[i] == s);
                } else {
                    assert(q[i] == p[i]);
                    assert(p[i] != p[n - 1]);
                }
            }
        }
        assert(u =~= p);
    }
}

/// Numbering the permutation that a number below `n!` decodes to gives the number back.
pub proof fn lemma_rank_unrank(r: nat, n: nat)
    requires
        r < fact(n),
    ensures
        rank(unrank(r, n), n) == r,
    decreases n,
{
    if n <= 1 {
        assert(fact(n) == 1) by {
            if n == 1 {
                assert(fact(1) == 1 * fact(0));
            }
        }
    } else {
        let p = unrank(r, n);
        let prev = unrank(r / n, (n - 1) as nat);
        lemma_unrank_perm(r / n, (n - 1) as nat);
        let q = reduce_perm(p, n);
        let s = (r % n) as int;
        assert forall|i: int| 0 <= i < n - 1 implies q[i] == prev[i] by {
            if prev[i] == s {
                assert(p[i] == n - 1);
            } else {
                assert(p[i] != n - 1);
            }
        }
        assert(q =~= prev);
        assert(r / n < fact((n - 1) as nat)) by (nonlinear_arith)
            requires
                r < n * fact((n - 1) as nat),
                n >= 2,
        ;
        lemma_rank_unrank(r / n, (n - 1) as nat);
        assert(r == r % n + n * (r / n)) by (nonlinear_arith)
            requires
                n >= 2,
        ;
    }
}

/// The entries of a byte array, as numbers.
pub open spec fn perm_view<const N: usize>(arr: [u8; N]) -> Seq<int> {
    arr@.map_values(|x: u8| x as int)
}

/// A permutation, held as its number in mixed radix (see `rank`).
pub struct BinPerm {
    pub container: usize,
}

/// Walks the numbers `0..n!`.
pub struct BinPermIterator {
    container: usize,
    n: usize,
}

impl BinPermIterator {
    /// The next number to yield.
    pub closed spec fn position(&self) -> nat {
        self.container as nat
    }

    /// The size of the permutations walked.
    pub closed spec fn order(&self) -> nat {
        self.n as nat
    }

    /// Yields the next permutation number, while it is below `n!`.
    pub fn next(&mut self) -> (r: Option<BinPerm>)
        requires
            fact(old(self).order()) <= usize::MAX,
        ensures
            final(self).order() == old(self).order(),
            old(self).position() < fact(old(self).order()) ==> (r matches Some(p) && p.container
                == old(self).position() && final(self).position() == old(self).position() + 1),
            old(self).position() >= fact(old(self).order()) ==> r is None && final(self).position()
                == old(self).position(),
    {
        if self.container < factorial(self.n) {
            let perm = BinPerm { container: self.container };
            self.container += 1;
            Some(perm)
        } else {
            None
        }
    }
}

impl BinPerm {
    /// The number of the identity permutation.
    pub fn new() -> (r: Self)
        ensures
            r.container == 0,
    {
        Self { container: 0 }
    }

    /// The permutation with number `container`.
    pub fn from_usize(container: usize) -> (r: Self)
        ensures
            r.container == container,
    {
        Self { container }
    }

    /// The number of permutation `arr` of `0..N` (see `rank`).
    pub fn encode<const N: usize>(arr: [u8; N]) -> (r: Self)
        requires
            is_perm(perm_view(arr), N as nat),
            fact(N as nat) <= usize::MAX,
        ensures
            r.container == rank(perm_view(arr), N as nat),
            r.container < fact(N as nat),
    {
        proof {
            lemma_fact_small(N as nat);
            lemma_rank_bound(perm_view(arr), N as nat);
        }
        let ghost p0 = perm_view(arr);
        let mut arr = arr;
        let mut inv = [0u8; N];
        let mut i: usize = 0;
        while i < N
            invariant
                i <= N <= 20,
                perm_view(arr) == p0,
                is_perm(p0, N as nat),
                forall|j: int| 0 <= j < i ==> inv@[p0[j]] == j,
            decreases N - i,
        {
            proof {
                assert(p0[i as int] == arr@[i as int] as int);
            }
            inv[arr[i] as usize] = i as u8;
            proof {
                assert forall|j: int| 0 <= j < i + 1 implies inv@[p0[j]] == j by {
                    if j < i {
                        assert(p0[j] != p0[i as int]);
                    }
                }
            }
            i += 1;
        }
        let mut res: usize = 0;
        let mut base: usize = 1;
        let mut n: usize = N;
        proof {
            assert(perm_view(arr).take(N as int) =~= p0);
            assert(base * fact(N as nat) == fact(N as nat));
            assert forall|v: int| 0 <= v < N implies inv@[v] < N && p0[inv@[v] as int] == v by {
                lemma_perm_surjective(p0, N as nat, v);
            }
        }
        while n > 1
            invariant
                1 <= n <= N <= 20 || (n == N && N <= 1),
                fact(N as nat) <= usize::MAX,
                is_perm(perm_view(arr).take(n as int), n as nat),
                forall|v: int| 0 <= v < n ==> inv@[v] < n && perm_view(arr)[inv@[v] as int] == v,
                rank(p0, N as nat) == res + base * rank(perm_view(arr).take(n as int), n as nat),
                base * fact(n as nat) == fact(N as nat),
                res < base,
            decreases n,
        {
            let ghost pa = perm_view(arr).take(n as int);
            let ghost q = reduce_perm(pa, n as nat);
            let s = arr[n - 1] as usize;
            proof {
                assert(pa[n - 1] == s);
                assert(fact(n as nat) == n * fact((n - 1) as nat));
                lemma_fact_mono(0, (n - 1) as nat);
                assert(res + s * base < base * n && base * n <= fact(N as nat)) by (nonlinear_arith)
                    requires
                        res < base,
                        s < n,
                        base * (n * fact((n - 1) as nat)) == fact(N as nat),
                        fact((n - 1) as nat) >= 1,
                ;
            }
            let ghost res0 = res;
            let ghost base0 = base;
            res = res + s * base;
            base = base * n;
            let j = inv[n - 1] as usize;
            let ghost arr0 = arr;
            let t = arr[n - 1];
            arr[n - 1] = arr[j];
            arr[j] = t;
            let ghost inv0 = inv;
            let ti = inv[s];
            inv[s] = inv[n - 1];
            inv[n - 1] = ti;
            proof {
                lemma_reduce_perm(pa, n as nat);
                let pb = perm_view(arr).take(n - 1);
                assert(perm_view(arr0)[j as int] == n - 1);
                assert forall|i: int| 0 <= i < n - 1 implies pb[i] == q[i] by {
                    if i == j {
                        assert(pb[i] == s);
                    } else {
                        assert(pb[i] == pa[i]);
                        if pa[i] == n - 1 {
                            assert(pa[inv0@[n - 1] as int] == n - 1);
                        }
                    }
                }
                assert(pb =~= q);
                assert forall|v: int| 0 <= v < n - 1 implies inv@[v] < n - 1 && perm_view(arr)[inv@[v] as int] == v by {
                    if v == s {
                        assert(inv@[v] == j);
                        assert(s != n - 1);
                        assert(j != n - 1);
                    } else {
                        assert(inv@[v] == inv0@[v]);
                        assert(pa[inv0@[v] as int] == v);
                        assert(inv0@[v] != j && inv0@[v] != n - 1);
                    }
                }
                assert(rank(pa, n as nat) == s + n * rank(q, (n - 1) as nat));
                assert(rank(p0, N as nat) == res + base * rank(q, (n - 1) as nat)) by (nonlinear_arith)
                    requires
                        rank(p0, N as nat) == res0 + base0 * rank(pa, n as nat),
                        rank(pa, n as nat) == s + n * rank(q, (n - 1) as nat),
                        res == res0 + s * base0,
                        base == base0 * n,
                ;
                assert(base * fact((n - 1) as nat) == fact(N as nat)) by (nonlinear_arith)
                    requires
                        base0 * fact(n as nat) == fact(N as nat),
                        fact(n as nat) == n * fact((n - 1) as nat),
                        base == base0 * n,
                ;
            }
            n -= 1;
        }
        proof {
            let rk = rank(perm_view(arr).take(n as int), n as nat);
            assert(n <= 1);
            assert(rk == 0);
            assert(base * rk == 0) by (nonlinear_arith)
                requires
                    rk == 0,
            ;
        }
        Self { container: res }
    }

    /// The permutation of `0..N` that this number stands for (see `unrank`).
    pub fn decode<const N: usize>(&self) -> (r: [u8; N])
        ensures
            N <= 256 ==> perm_view(r) == unrank(self.container as nat, N as nat),
            N <= 256 ==> is_perm(perm_view(r), N as nat),
    {
        proof {
            lemma_unrank_perm(self.container as nat, N as nat);
        }
        let ghost target = unrank(self.container as nat, N as nat);
        let mut num = self.container;
        let mut res = [0u8; N];
        let mut i: usize = 0;
        while i < N
            invariant
                i <= N,
                forall|j: int| 0 <= j < i ==> res@[j] == j as u8,
            decreases N - i,
        {
            res[i] = i as u8;
            i += 1;
        }
        proof {
            lemma_unrank_perm(self.container as nat, N as nat);
            if N <= 256 {
                assert(perm_view(res) =~= Seq::new(N as nat, |k: int| k));
                assert(target =~= compose(perm_view(res), unrank(num as nat, N as nat), N as nat));
            }
        }
        let mut n: usize = N;
        while n > 1
            invariant
                n <= N,
                N <= 256 ==> target == compose(perm_view(res), unrank(num as nat, n as nat), n as nat),
            decreases n,
        {
            let swap_idx = num % n;
            let ghost num0 = num;
            let ghost res0 = perm_view(res);
            num = num / n;
            let t = res[n - 1];
            res[n - 1] = res[swap_idx];
            res[swap_idx] = t;
            proof {
                if N <= 256 {
                    let u = unrank(num0 as nat, n as nat);
                    let prev = unrank(num as nat, (n - 1) as nat);
                    lemma_unrank_perm(num as nat, (n - 1) as nat);
                    let rv = perm_view(res);
                    let s = swap_idx as int;
                    assert forall|k: int| 0 <= k < N implies compose(res0, u, n as nat)[k] == compose(
                        rv,
                        prev,
                        (n - 1) as nat,
                    )[k] by {
                        if k < n - 1 {
                            let x = prev[k];
                            if x == s {
                                assert(u[k] == n - 1);
                            } else {
                                assert(u[k] == x);
                            }
                        }
                    }
                    assert(compose(res0, u, n as nat) =~= compose(rv, prev, (n - 1) as nat));
                }
            }
            n -= 1;
        }
        proof {
            if N <= 256 {
                assert(compose(perm_view(res), unrank(num as nat, n as nat), n as nat) =~= perm_view(res)) by {
                    if n == 1 {
                        assert(unrank(num as nat, 1)[0] == 0);
                    }
                }
            }
        }
        res
    }

    /// Walks the numbers of all permutations of `0..N`.
    pub fn iter_all<const N: usize>() -> (r: BinPermIterator)
        ensures
            r.position() == 0,
            r.order() == N,
    {
        BinPermIterator { container: 0, n: N }
    }
}

/// Applies the permutation `u` of `0..n` to the first `n` positions of `res`.
pub open spec fn compose(res: Seq<int>, u: Seq<int>, n: nat) -> Seq<int> {
    Seq::new(res.len(), |i: int| if i < n { res[u[i]] } else { res[i] })
}

/// Beyond 20, `n!` passes every `usize`.
pub proof fn lemma_fact_small(n: nat)
    requires
        fact(n) <= usize::MAX,
    ensures
        n <= 20,
{
    if n > 20 {
        assert(fact(0) == 1nat);
        assert(fact(1) == 1nat);
        assert(fact(2) == 2nat);
        assert(fact(3) == 6nat);
        assert(fact(4) == 24nat);
        assert(fact(5) == 120nat);
        assert(fact(6) == 720nat);
        assert(fact(7) == 5040nat);
        assert(fact(8) == 40320nat);
        assert(fact(9) == 362880nat);
        assert(fact(10) == 3628800nat);
        assert(fact(11) == 39916800nat);
        assert(fact(12) == 479001600nat);
        assert(fact(13) == 6227020800nat);
        assert(fact(14) == 87178291200nat);
        assert(fact(15) == 1307674368000nat);
        assert(fact(16) == 20922789888000nat);
        assert(fact(17) == 355687428096000nat);
        assert(fact(18) == 6402373705728000nat);
        assert(fact(19) == 121645100408832000nat);
        assert(fact(20) == 2432902008176640000nat);
        assert(fact(21) == 51090942171709440000nat);
        lemma_fact_mono(21, n);
    }
}

/// A permutation takes every value of `0..n`.
pub proof fn lemma_perm_surjective(p: Seq<int>, n: nat, v: int)
    requires
        is_perm(p, n),
        0 <= v < n,
    ensures
        exists|i: int| 0 <= i < n && #[trigger] p[i] == v,
{
    assert(p.no_duplicates());
    p.unique_seq_to_set();
    vstd::seq_lib::seq_to_set_is_finite(p);
    vstd::set_lib::lemma_int_range(0, n as int);
    assert(p.to_set().subset_of(vstd::set_lib::set_int_range(0, n as int)));
    vstd::set_lib::lemma_subset_equality(p.to_set(), vstd::set_lib::set_int_range(0, n as int));
    assert(p.to_set().contains(v));
}


/// Writing `x` at `i` trades one `s[i]` for one `x`.
pub proof fn lemma_update_multiset<A>(s: Seq<A>, i: int, x: A)
    requires
        0 <= i < s.len(),
    ensures
        s.update(i, x).to_multiset() == s.to_multiset().remove(s[i]).insert(x),
{
    broadcast use vstd::seq_lib::group_to_multiset_ensures;
    broadcast use vstd::multiset::group_multiset_axioms;
    let t = s.update(i, x);
    assert(t.remove(i) =~= s.remove(i));
    assert(t.remove(i).to_multiset() == t.to_multiset().remove(x));
    assert(s.remove(i).to_multiset() == s.to_multiset().remove(s[i]));
    assert(t.contains(x)) by {
        assert(t[i] == x);
    }
    assert(t.to_multiset().count(x) > 0);
    assert(t.to_multiset() =~= t.to_multiset().remove(x).insert(x));
}

/// Swapping two entries keeps the multiset of entries.
pub proof fn lemma_swap_multiset<A>(s: Seq<A>, i: int, j: int)
    requires
        0 <= i < s.len(),
        0 <= j < s.len(),
    ensures
        s.update(i, s[j]).update(j, s[i]).to_multiset() == s.to_multiset(),
{
    broadcast use vstd::seq_lib::group_to_multiset_ensures;
    broadcast use vstd::multiset::group_multiset_axioms;
    if i == j {
        assert(s.update(i, s[j]).update(j, s[i]) =~= s);
    } else {
        let s1 = s.update(i, s[j]);
        lemma_update_multiset(s, i, s[j]);
        lemma_update_multiset(s1, j, s[i]);
        assert(s1[j] == s[j]);
        let m = s.to_multiset();
        assert(s.contains(s[i]));
        assert(m.count(s[i]) > 0);
        assert(m.remove(s[i]).insert(s[j]).remove(s[j]).insert(s[i]) =~= m);
    }
}

/// Heap's algorithm: writes every arrangement of the first `k` entries of
/// `arr` to `out` from index `count` on, in the order of `heap_table`, and
/// leaves `arr` as `heap_effect` says. With `k == 0` it does nothing.
pub fn generate_permutations<const N: usize, const M: usize>(
    arr: &mut [u8; N],
    k: usize,
    out: &mut [[u8; N]; M],
    count: &mut usize,
)
    requires
        k <= N,
        k >= 1 ==> *old(count) + fact(k as nat) <= M,
    ensures
        k == 0 ==> *final(arr) == *old(arr) && *final(out) == *old(out) && *final(count) == *old(count),
        k >= 1 ==> {
            &&& final(arr)@ == heap_effect(old(arr)@, k as int)
            &&& *final(count) == *old(count) + fact(k as nat)
            &&& forall|x: int|
                0 <= x < M && !(*old(count) <= x < *final(count)) ==> #[trigger] final(out)@[x] == old(out)@[x]
            &&& final(out)@.subrange(*old(count) as int, *final(count) as int).map_values(|r: [u8; N]| r@)
                == heap_table(old(arr)@, k as int)
        },
        final(arr)@.to_multiset() == old(arr)@.to_multiset(),
        forall|p: int| k <= p < N ==> #[trigger] final(arr)@[p] == old(arr)@[p],
        forall|x: int|
            *old(count) <= x < *final(count) ==> (#[trigger] final(out)@[x])@.to_multiset()
                == old(arr)@.to_multiset() && forall|p: int|
                k <= p < N ==> final(out)@[x]@[p] == old(arr)@[p],
        old(arr)@.no_duplicates() ==> forall|x: int, y: int|
            *old(count) <= x < *final(count) && *old(count) <= y < *final(count) && x != y
                ==> #[trigger] final(out)@[x]@ != #[trigger] final(out)@[y]@,
        k >= 1 && old(arr)@.no_duplicates() ==> forall|p: Seq<u8>|
            #[trigger] arranges(p, old(arr)@, k as int) ==> exists|x: int|
                *old(count) <= x < *final(count) && #[trigger] final(out)@[x]@ == p,
{
    if k == 0 {
        return;
    }
    heap_rounds(arr, k, out, count);
}

/// Heap's algorithm on the first `k >= 1` entries (see `generate_permutations`).
fn heap_rounds<const N: usize, const M: usize>(
    arr: &mut [u8; N],
    k: usize,
    out: &mut [[u8; N]; M],
    count: &mut usize,
)
    requires
        1 <= k <= N,
        *old(count) + fact(k as nat) <= M,
    ensures
        final(arr)@ == heap_effect(old(arr)@, k as int),
        final(arr)@.to_multiset() == old(arr)@.to_multiset(),
        forall|p: int| k <= p < N ==> #[trigger] final(arr)@[p] == old(arr)@[p],
        *final(count) == *old(count) + fact(k as nat),
        forall|x: int|
            0 <= x < M && !(*old(count) <= x < *final(count)) ==> #[trigger] final(out)@[x] == old(
                out,
            )@[x],
        final(out)@.subrange(*old(count) as int, *final(count) as int).map_values(|r: [u8; N]| r@)
            == heap_table(old(arr)@, k as int),
        forall|x: int|
            *old(count) <= x < *final(count) ==> (#[trigger] final(out)@[x])@.to_multiset()
                == old(arr)@.to_multiset() && forall|p: int|
                k <= p < N ==> final(out)@[x]@[p] == old(arr)@[p],
        old(arr)@.no_duplicates() ==> forall|x: int, y: int|
            *old(count) <= x < *final(count) && *old(count) <= y < *final(count) && x != y
                ==> #[trigger] final(out)@[x]@ != #[trigger] final(out)@[y]@,
        old(arr)@.no_duplicates() ==> forall|p: Seq<u8>|
            #[trigger] arranges(p, old(arr)@, k as int) ==> exists|x: int|
                *old(count) <= x < *final(count) && #[trigger] final(out)@[x]@ == p,
    decreases k,
{
    let ghost a0 = arr@;
    let ghost c0 = *count;
    let ghost o0 = out@;
    if k == 1 {
        proof {
            assert(fact(1) == 1 * fact(0));
        }
        out[*count] = *arr;
        *count += 1;
        proof {
            assert forall|p: Seq<u8>| #[trigger] arranges(p, a0, 1) implies exists|x: int|
                c0 <= x < *count && #[trigger] out@[x]@ == p by {
                lemma_arranges_one(p, a0);
                assert(out@[c0 as int]@ == p);
            }
            assert(out@.subrange(c0 as int, *count as int).map_values(|r: [u8; N]| r@) =~= seq![a0]);
        }
        return;
    }
    let mut i: usize = 0;
    proof {
        assert(fact(k as nat) == k * fact((k - 1) as nat));
        lemma_fact_mono(0, (k - 1) as nat);
        lemma_round_ends(a0, k as int);
    }
    while i < k
        invariant
            2 <= k <= N,
            i <= k,
            c0 + fact(k as nat) <= M,
            fact(k as nat) == k * fact((k - 1) as nat),
            a0.len() == N,
            o0.len() == M,
            *count == c0 + i * fact((k - 1) as nat),
            arr@ == heap_round(a0, k as int, i as int),
            arr@.to_multiset() == a0.to_multiset(),
            forall|p: int| k <= p < N ==> #[trigger] arr@[p] == a0[p],
            forall|x: int| 0 <= x < M && !(c0 <= x < *count) ==> #[trigger] out@[x] == o0[x],
            forall|x: int|
                c0 <= x < *count ==> (#[trigger] out@[x])@.to_multiset() == a0.to_multiset()
                    && forall|p: int| k <= p < N ==> out@[x]@[p] == a0[p],
            forall|x: int| c0 <= x < *count ==> earlier_entry(a0, k as int, i as int, (#[trigger] out@[x])@[k - 1]),
            a0.no_duplicates() ==> forall|x: int, y: int|
                c0 <= x < *count && c0 <= y < *count && x != y ==> #[trigger] out@[x]@ != #[trigger] out@[y]@,
            a0.no_duplicates() ==> forall|p: Seq<u8>|
                #[trigger] arranges(p, a0, k as int) && earlier_entry(a0, k as int, i as int, p[k - 1]) ==> exists|x: int|
                    c0 <= x < *count && #[trigger] out@[x]@ == p,
            out@.subrange(c0 as int, *count as int).map_values(|r: [u8; N]| r@) == heap_blocks(a0, k as int, i as int),
        decreases k - i,
    {
        proof {
            assert((i + 1) * fact((k - 1) as nat) <= k * fact((k - 1) as nat)) by (nonlinear_arith)
                requires
                    i < k,
            ;
            assert(c0 + i * fact((k - 1) as nat) + fact((k - 1) as nat) == c0 + (i + 1) * fact(
                (k - 1) as nat,
            )) by (nonlinear_arith);
            lemma_round_entry(a0, k as int, i as int);
            if a0.no_duplicates() {
                lemma_rearranged_no_duplicates(a0, arr@);
            }
        }
        let ghost a1 = arr@;
        let ghost c1 = *count;
        let ghost o1 = out@;
        heap_rounds(arr, k - 1, out, count);
        proof {
            let o2 = out@;
            let view = |r: [u8; N]| r@;
            assert(o2.subrange(c0 as int, c1 as int) =~= o1.subrange(c0 as int, c1 as int));
            assert(o2.subrange(c0 as int, *count as int).map_values(view) =~= o2.subrange(c0 as int, c1 as int).map_values(view)
                + o2.subrange(c1 as int, *count as int).map_values(view));
            assert(heap_blocks(a0, k as int, i + 1) == heap_blocks(a0, k as int, i as int) + heap_table(
                heap_round(a0, k as int, i as int),
                k - 1,
            ));
            let e = round_entry(a0, k as int, i as int);
            assert forall|x: int|
                c0 <= x < *count implies (#[trigger] out@[x])@.to_multiset() == a0.to_multiset()
                    && forall|p: int| k <= p < N ==> out@[x]@[p] == a0[p] by {
                if x >= c1 {
                    assert(out@[x]@.to_multiset() == a1.to_multiset());
                    assert forall|p: int| k <= p < N implies out@[x]@[p] == a0[p] by {
                        assert(out@[x]@[p] == a1[p]);
                    }
                } else {
                    assert(out@[x] == o1[x]);
                }
            }
            assert forall|x: int| c1 <= x < *count implies (#[trigger] out@[x])@[k - 1] == e by {
                assert(out@[x]@[k - 1] == a1[k - 1]);
            }
            assert forall|x: int| c0 <= x < *count implies earlier_entry(a0, k as int, i + 1, (#[trigger] out@[x])@[k - 1]) by {
                if x >= c1 {
                    assert(round_entry(a0, k as int, i as int) == out@[x]@[k - 1]);
                } else {
                    assert(out@[x] == o1[x]);
                    let b = choose|b: int| 0 <= b < i && #[trigger] round_entry(a0, k as int, b) == o1[x]@[k - 1];
                    assert(round_entry(a0, k as int, b) == out@[x]@[k - 1]);
                }
            }
            if a0.no_duplicates() {
                assert forall|x: int, y: int|
                    c0 <= x < *count && c0 <= y < *count && x != y implies #[trigger] out@[x]@ != #[trigger] out@[y]@ by {
                    if x < c1 && y < c1 {
                        assert(out@[x] == o1[x]);
                        assert(out@[y] == o1[y]);
                    } else if x < c1 {
                        assert(out@[x] == o1[x]);
                        let b = choose|b: int| 0 <= b < i && #[trigger] round_entry(a0, k as int, b) == o1[x]@[k - 1];
                        if out@[x]@ == out@[y]@ {
                            assert(out@[y]@[k - 1] == e);
                            lemma_round_entries_differ(a0, k as int, b, i as int);
                        }
                    } else if y < c1 {
                        assert(out@[y] == o1[y]);
                        let b = choose|b: int| 0 <= b < i && #[trigger] round_entry(a0, k as int, b) == o1[y]@[k - 1];
                        if out@[x]@ == out@[y]@ {
                            assert(out@[x]@[k - 1] == e);
                            lemma_round_entries_differ(a0, k as int, b, i as int);
                        }
                    }
                }
                assert forall|p: Seq<u8>|
                    #[trigger] arranges(p, a0, k as int) && earlier_entry(a0, k as int, i + 1, p[k - 1]) implies exists|x: int|
                        c0 <= x < *count && #[trigger] out@[x]@ == p by {
                    let b = choose|b: int| 0 <= b < i + 1 && #[trigger] round_entry(a0, k as int, b) == p[k - 1];
                    if b < i {
                        assert(earlier_entry(a0, k as int, i as int, p[k - 1]));
                        let x = choose|x: int| c0 <= x < c1 && #[trigger] o1[x]@ == p;
                        assert(out@[x] == o1[x]);
                    } else {
                        assert(arranges(p, a1, k - 1));
                        let x = choose|x: int| c1 <= x < *count && #[trigger] out@[x]@ == p;
                    }
                }
            }
        }
        let ghost a2 = arr@;
        if k % 2 == 0 {
            let tmp = arr[i];
            arr[i] = arr[k - 1];
            arr[k - 1] = tmp;
            proof {
                lemma_swap_multiset(a2, i as int, k - 1);
                assert(arr@ =~= a2.update(i as int, a2[k - 1]).update(k - 1, a2[i as int]));
                lemma_even_round(a0, k as int, i as int);
            }
        } else {
            let tmp = arr[0];
            arr[0] = arr[k - 1];
            arr[k - 1] = tmp;
            proof {
                lemma_swap_multiset(a2, 0, k - 1);
                assert(arr@ =~= a2.update(0, a2[k - 1]).update(k - 1, a2[0]));
                lemma_odd_round(a0, k as int, i as int);
            }
        }
        i += 1;
    }
    proof {
        assert(heap_table(a0, k as int) == heap_blocks(a0, k as int, k as int));
        assert(*count == c0 + fact(k as nat)) by (nonlinear_arith)
            requires
                *count == c0 + i * fact((k - 1) as nat),
                i == k,
                fact(k as nat) == k * fact((k - 1) as nat),
        ;
        if a0.no_duplicates() {
            assert forall|p: Seq<u8>| #[trigger] arranges(p, a0, k as int) implies exists|x: int|
                c0 <= x < *count && #[trigger] out@[x]@ == p by {
                lemma_arranged_entry(p, a0, k as int);
                let j = choose|j: int| 0 <= j < k && a0[j] == p[k - 1];
                lemma_round_entry_onto(a0, k as int, j);
                let b = choose|b: int| 0 <= b < k && round_entry(a0, k as int, b) == a0[j];
                assert(earlier_entry(a0, k as int, k as int, p[k - 1]));
            }
        }
    }
}

/// Generates the arrangements of an array of `N` bytes.
pub struct Permutator<const N: usize> {}

impl Permutator<2> {
    /// Every arrangement of `v`, by Heap's algorithm, in its order (see `heap_table`).
    pub fn get_permutations(v: [u8; 2]) -> (r: [[u8; 2]; 2])
        ensures
            r@.map_values(|a: [u8; 2]| a@) == heap_table(v@, 2),
            forall|x: int| 0 <= x < 2 ==> (#[trigger] r@[x])@.to_multiset() == v@.to_multiset(),
            v@.no_duplicates() ==> forall|x: int, y: int|
                0 <= x < 2 && 0 <= y < 2 && x != y ==> #[trigger] r@[x]@ != #[trigger] r@[y]@,
            v@.no_duplicates() ==> forall|p: Seq<u8>|
                #[trigger] p.to_multiset() == v@.to_multiset() ==> exists|x: int| 0 <= x < 2 && #[trigger] r@[x]@ == p,
    {
        let mut permutations = [[0u8; 2]; 2];
        let mut current = v;
        let mut count: usize = 0;
        proof {
            assert(fact(2) == 2) by {
                assert(fact(1) == 1 * fact(0));
                assert(fact(2) == 2 * fact(1));
            }
        }
        generate_permutations(&mut current, 2, &mut permutations, &mut count);
        proof {
            assert forall|p: Seq<u8>| #[trigger] p.to_multiset() == v@.to_multiset() implies arranges(p, v@, 2) by {}
            assert(permutations@.subrange(0, 2) =~= permutations@);
        }
        permutations
    }
}

impl Permutator<3> {
    /// Every arrangement of `v`, by Heap's algorithm, in its order (see `heap_table`).
    pub fn get_permutations(v: [u8; 3]) -> (r: [[u8; 3]; 6])
        ensures
            r@.map_values(|a: [u8; 3]| a@) == heap_table(v@, 3),
            forall|x: int| 0 <= x < 6 ==> (#[trigger] r@[x])@.to_multiset() == v@.to_multiset(),
            v@.no_duplicates() ==> forall|x: int, y: int|
                0 <= x < 6 && 0 <= y < 6 && x != y ==> #[trigger] r@[x]@ != #[trigger] r@[y]@,
            v@.no_duplicates() ==> forall|p: Seq<u8>|
                #[trigger] p.to_multiset() == v@.to_multiset() ==> exists|x: int| 0 <= x < 6 && #[trigger] r@[x]@ == p,
    {
        let mut permutations = [[0u8; 3]; 6];
        let mut current = v;
        let mut count: usize = 0;
        proof {
            assert(fact(3) == 6) by {
                assert(fact(1) == 1 * fact(0));
                assert(fact(2) == 2 * fact(1));
                assert(fact(3) == 3 * fact(2));
            }
        }
        generate_permutations(&mut current, 3, &mut permutations, &mut count);
        proof {
            assert forall|p: Seq<u8>| #[trigger] p.to_multiset() == v@.to_multiset() implies arranges(p, v@, 3) by {}
            assert(permutations@.subrange(0, 6) =~= permutations@);
        }
        permutations
    }
}

impl Permutator<4> {
    /// Every arrangement of `v`, by Heap's algorithm, in its order (see `heap_table`).
    pub fn get_permutations(v: [u8; 4]) -> (r: [[u8; 4]; 24])
        ensures
            r@.map_values(|a: [u8; 4]| a@) == heap_table(v@, 4),
            forall|x: int| 0 <= x < 24 ==> (#[trigger] r@[x])@.to_multiset() == v@.to_multiset(),
            v@.no_duplicates() ==> forall|x: int, y: int|
                0 <= x < 24 && 0 <= y < 24 && x != y ==> #[trigger] r@[x]@ != #[trigger] r@[y]@,
            v@.no_duplicates() ==> forall|p: Seq<u8>|
                #[trigger] p.to_multiset() == v@.to_multiset() ==> exists|x: int| 0 <= x < 24 && #[trigger] r@[x]@ == p,
    {
        let mut permutations = [[0u8; 4]; 24];
        let mut current = v;
        let mut count: usize = 0;
        proof {
            assert(fact(4) == 24) by {
                assert(fact(1) == 1 * fact(0));
                assert(fact(2) == 2 * fact(1));
                assert(fact(3) == 3 * fact(2));
                assert(fact(4) == 4 * fact(3));
            }
        }
        generate_permutations(&mut current, 4, &mut permutations, &mut count);
        proof {
            assert forall|p: Seq<u8>| #[trigger] p.to_multiset() == v@.to_multiset() implies arranges(p, v@, 4) by {}
            assert(permutations@.subrange(0, 24) =~= permutations@);
        }
        permutations
    }
}

impl Permutator<5> {
    /// Every arrangement of `v`, by Heap's algorithm, in its order (see `heap_table`).
    pub fn get_permutations(v: [u8; 5]) -> (r: [[u8; 5]; 120])
        ensures
            r@.map_values(|a: [u8; 5]| a@) == heap_table(v@, 5),
            forall|x: int| 0 <= x < 120 ==> (#[trigger] r@[x])@.to_multiset() == v@.to_multiset(),
            v@.no_duplicates() ==> forall|x: int, y: int|
                0 <= x < 120 && 0 <= y < 120 && x != y ==> #[trigger] r@[x]@ != #[trigger] r@[y]@,
            v@.no_duplicates() ==> forall|p: Seq<u8>|
                #[trigger] p.to_multiset() == v@.to_multiset() ==> exists|x: int| 0 <= x < 120 && #[trigger] r@[x]@ == p,
    {
        let mut permutations = [[0u8; 5]; 120];
        let mut current = v;
        let mut count: usize = 0;
        proof {
            assert(fact(5) == 120) by {
                assert(fact(1) == 1 * fact(0));
                assert(fact(2) == 2 * fact(1));
                assert(fact(3) == 3 * fact(2));
                assert(fact(4) == 4 * fact(3));
                assert(fact(5) == 5 * fact(4));
            }
        }
        generate_permutations(&mut current, 5, &mut permutations, &mut count);
        proof {
            assert forall|p: Seq<u8>| #[trigger] p.to_multiset() == v@.to_multiset() implies arranges(p, v@, 5) by {}
            assert(permutations@.subrange(0, 120) =~= permutations@);
        }
        permutations
    }
}

/// Bit `t` of byte `x`.
pub open spec fn byte_bit(x: u8, t: int) -> bool {
    0 <= t < 8 && ((x >> (t as u8)) & 1u8) == 1u8
}

/// `N` bytes read as one stream of bits, lowest bit of byte 0 first.
pub struct FlatBinData<const N: usize> {
    pub data: [u8; N],
}

impl<const N: usize> FlatBinData<N> {
    /// All bits cleared.
    pub fn new() -> (r: Self)
        ensures
            forall|i: int| 0 <= i < N ==> #[trigger] r.data@[i] == 0,
    {
        Self { data: [0u8; N] }
    }

    /// The bits of `arr`.
    pub fn from_array(arr: [u8; N]) -> (r: Self)
        ensures
            r.data == arr,
    {
        Self { data: arr }
    }

    /// Writes the 8 bits of `value` at bit positions `start..start + 8`.
    pub fn set_range(&mut self, start: usize, value: u8)
        requires
            start % 8 != 0,
            start / 8 + 1 < N,
        ensures
            forall|i: int|
                0 <= i < N && i != start / 8 && i != start / 8 + 1 ==> #[trigger] final(self).data@[i]
                    == old(self).data@[i],
            forall|t: int|
                0 <= t < 8 ==> #[trigger] byte_bit(final(self).data@[(start / 8) as int], t) == if t < start
                    % 8 {
                    byte_bit(old(self).data@[(start / 8) as int], t)
                } else {
                    byte_bit(value, t - start % 8)
                },
            forall|t: int|
                0 <= t < 8 ==> #[trigger] byte_bit(final(self).data@[(start / 8 + 1) as int], t) == if t
                    < start % 8 {
                    byte_bit(value, t + 8 - start % 8)
                } else {
                    byte_bit(old(self).data@[(start / 8 + 1) as int], t)
                },
    {
        let bit_offset = (start % 8) as u8;
        let k = start / 8;
        let a = self.data[k];
        let b = self.data[k + 1];
        proof {
            assert(bit_offset < 8 ==> (1u8 << bit_offset) >= 1) by (bit_vector);
        }
        let a1 = a & ((1u8 << bit_offset) - 1);
        let a2 = a1 | (value << bit_offset);
        self.data[k] = a2;
        let b1 = b & (0xFFu8 << bit_offset);
        let b2 = b1 | (value >> (8 - bit_offset));
        self.data[k + 1] = b2;
        proof {
            assert forall|t: int| 0 <= t < 8 implies #[trigger] byte_bit(a2, t) == if t < bit_offset {
                byte_bit(a, t)
            } else {
                byte_bit(value, t - bit_offset)
            } by {
                let tt = t as u8;
                if tt < bit_offset {
                    assert(((a2 >> tt) & 1u8 == 1u8) == ((a >> tt) & 1u8 == 1u8)) by (bit_vector)
                        requires
                            a2 == (a & ((1u8 << bit_offset) - 1) as u8) | (value << bit_offset),
                            tt < bit_offset,
                            bit_offset < 8,
                    ;
                } else {
                    let u = (tt - bit_offset) as u8;
                    assert(((a2 >> tt) & 1u8 == 1u8) == ((value >> u) & 1u8 == 1u8)) by (bit_vector)
                        requires
                            a2 == (a & ((1u8 << bit_offset) - 1) as u8) | (value << bit_offset),
                            bit_offset <= tt,
                            tt < 8,
                            u == tt - bit_offset,
                    ;
                }
            }
            assert forall|t: int| 0 <= t < 8 implies #[trigger] byte_bit(b2, t) == if t < bit_offset {
                byte_bit(value, t + 8 - bit_offset)
            } else {
                byte_bit(b, t)
            } by {
                let tt = t as u8;
                if tt < bit_offset {
                    let u = (tt + 8 - bit_offset) as u8;
                    assert(((b2 >> tt) & 1u8 == 1u8) == ((value >> u) & 1u8 == 1u8)) by (bit_vector)
                        requires
                            b2 == (b & (0xFFu8 << bit_offset)) | (value >> ((8 - bit_offset) as u8)),
                            tt < bit_offset,
                            0 < bit_offset < 8,
                            u == tt + 8 - bit_offset,
                    ;
                } else {
                    assert(((b2 >> tt) & 1u8 == 1u8) == ((b >> tt) & 1u8 == 1u8)) by (bit_vector)
                        requires
                            b2 == (b & (0xFFu8 << bit_offset)) | (value >> ((8 - bit_offset) as u8)),
                            bit_offset <= tt,
                            tt < 8,
                            0 < bit_offset,
                    ;
                }
            }
        }
    }
}
} // verus!
