//! Words read as sets of bit positions, and the facts about `|`, `&`, `!` and
//! shifts that the rest of the crate leans on.

use vstd::prelude::*;

verus! {

use vstd::set_lib::{set_int_range, lemma_int_range, lemma_len_subset};
use vstd::std_specs::bits::{u32_trailing_zeros, axiom_u32_trailing_zeros};

/// Bit `i` of `x` is set.
pub open spec fn bit32(x: u32, i: int) -> bool {
    0 <= i < 32 && ((x >> (i as u32)) & 1u32) == 1u32
}

/// The positions of the set bits of `x`.
pub open spec fn set32(x: u32) -> Set<int> {
    Set::new(|i: int| bit32(x, i))
}

/// The positions of the set bits of a byte.
pub open spec fn set8(x: u8) -> Set<int> {
    set32(x as u32)
}

/// Number of set bits of `x`.
pub open spec fn pop32(x: u32) -> nat {
    set32(x).len()
}

/// The mask of the `k` lowest bits, as a mathematical number.
pub open spec fn low_mask(k: nat) -> int
    decreases k,
{
    if k == 0 {
        0
    } else {
        2 * low_mask((k - 1) as nat) + 1
    }
}

/// The bits of a word form a finite set of at most 32 positions.
pub proof fn lemma_set32_finite(x: u32)
    ensures
        set32(x).finite(),
        set32(x).subset_of(set_int_range(0, 32)),
        set32(x).len() <= 32,
{
    lemma_int_range(0, 32);
    lemma_len_subset(set32(x), set_int_range(0, 32));
}

/// The bits of `a | b` are those of `a` and those of `b`.
pub proof fn lemma_bit32_or(a: u32, b: u32)
    ensures
        forall|i: int| #[trigger] bit32(a | b, i) == (bit32(a, i) || bit32(b, i)),
        set32(a | b) == set32(a).union(set32(b)),
{
    assert forall|i: int| #[trigger] bit32(a | b, i) == (bit32(a, i) || bit32(b, i)) by {
        if 0 <= i < 32 {
            let k = i as u32;
            assert((((a | b) >> k) & 1u32) == 1u32 <==> (((a >> k) & 1u32) == 1u32 || ((b
                >> k) & 1u32) == 1u32)) by (bit_vector);
        }
    }
    assert(set32(a | b) =~= set32(a).union(set32(b)));
}

/// The bits of `a & b` are those that `a` and `b` share.
pub proof fn lemma_bit32_and(a: u32, b: u32)
    ensures
        forall|i: int| #[trigger] bit32(a & b, i) == (bit32(a, i) && bit32(b, i)),
        set32(a & b) == set32(a).intersect(set32(b)),
{
    assert forall|i: int| #[trigger] bit32(a & b, i) == (bit32(a, i) && bit32(b, i)) by {
        if 0 <= i < 32 {
            let k = i as u32;
            assert((((a & b) >> k) & 1u32) == 1u32 <==> (((a >> k) & 1u32) == 1u32 && ((b
                >> k) & 1u32) == 1u32)) by (bit_vector);
        }
    }
    assert(set32(a & b) =~= set32(a).intersect(set32(b)));
}

/// The bits of `!a` are the positions below 32 that `a` lacks.
pub proof fn lemma_bit32_not(a: u32)
    ensures
        forall|i: int| 0 <= i < 32 ==> #[trigger] bit32(!a, i) == !bit32(a, i),
        set32(!a) == set_int_range(0, 32).difference(set32(a)),
{
    assert forall|i: int| 0 <= i < 32 implies #[trigger] bit32(!a, i) == !bit32(a, i) by {
        let k = i as u32;
        assert((((!a) >> k) & 1u32) == 1u32 <==> !(((a >> k) & 1u32) == 1u32)) by (bit_vector)
            requires
                k < 32,
        ;
    }
    assert(set32(!a) =~= set_int_range(0, 32).difference(set32(a)));
}

/// `a & !b` removes the bits of `b` from `a`.
pub proof fn lemma_bit32_and_not(a: u32, b: u32)
    ensures
        forall|i: int| #[trigger] bit32(a & !b, i) == (bit32(a, i) && !bit32(b, i)),
        set32(a & !b) == set32(a).difference(set32(b)),
{
    lemma_bit32_and(a, !b);
    lemma_bit32_not(b);
    assert(set32(a & !b) =~= set32(a).difference(set32(b)));
}

/// `1 << e` has bit `e` alone.
pub proof fn lemma_bit32_shl1(e: u32)
    requires
        e < 32,
    ensures
        forall|i: int| #[trigger] bit32(1u32 << e, i) == (i == e),
        set32(1u32 << e) == set![e as int],
{
    assert forall|i: int| #[trigger] bit32(1u32 << e, i) == (i == e) by {
        if 0 <= i < 32 {
            let k = i as u32;
            assert(((((1u32 << e) >> k) & 1u32) == 1u32) <==> k == e) by (bit_vector)
                requires
                    k < 32,
                    e < 32,
            ;
        }
    }
    assert(set32(1u32 << e) =~= set![e as int]);
}

/// The zero word has no bits.
pub proof fn lemma_bit32_zero()
    ensures
        forall|i: int| !#[trigger] bit32(0u32, i),
        set32(0) == Set::<int>::empty(),
{
    assert forall|i: int| !#[trigger] bit32(0u32, i) by {
        if 0 <= i < 32 {
            let k = i as u32;
            assert(((0u32 >> k) & 1u32) == 0u32) by (bit_vector);
        }
    }
    assert(set32(0) =~= Set::<int>::empty());
}

/// Two words with the same bits are equal.
pub proof fn lemma_bit32_ext(a: u32, b: u32)
    requires
        forall|i: int| 0 <= i < 32 ==> #[trigger] bit32(a, i) == bit32(b, i),
    ensures
        a == b,
{
    let d = a ^ b;
    if d != 0 {
        axiom_u32_trailing_zeros(d);
        let t = u32_trailing_zeros(d);
        assert(t < 32);
        assert(bit32(a, t as int) == bit32(b, t as int));
        assert(((d >> t) & 1u32) == 1u32);
        assert(((d >> t) & 1u32) == 1u32 ==> (((a >> t) & 1u32) == 1u32) != (((b >> t) & 1u32)
            == 1u32)) by (bit_vector)
            requires
                d == a ^ b,
                t < 32,
        ;
    }
    assert(a ^ b == 0u32 ==> a == b) by (bit_vector);
}

/// Words with the same bits are equal.
pub proof fn lemma_set32_ext(a: u32, b: u32)
    requires
        set32(a) == set32(b),
    ensures
        a == b,
{
    assert forall|i: int| 0 <= i < 32 implies #[trigger] bit32(a, i) == bit32(b, i) by {
        assert(set32(a).contains(i) == bit32(a, i));
        assert(set32(b).contains(i) == bit32(b, i));
        assert(set32(a).contains(i) == set32(b).contains(i));
    }
    lemma_bit32_ext(a, b);
}

/// A word is zero exactly when it has no bits.
pub proof fn lemma_set32_empty(a: u32)
    ensures
        (a == 0) <==> set32(a) == Set::<int>::empty(),
{
    lemma_bit32_zero();
    if set32(a) == Set::<int>::empty() {
        lemma_set32_ext(a, 0);
    }
}

/// `x & (x - 1)` clears the lowest set bit, which `trailing_zeros` finds.
pub proof fn lemma_clear_lowest(x: u32)
    requires
        x != 0,
    ensures
        u32_trailing_zeros(x) < 32,
        bit32(x, u32_trailing_zeros(x) as int),
        forall|i: int| 0 <= i < u32_trailing_zeros(x) ==> !#[trigger] bit32(x, i),
        set32(x & ((x - 1) as u32)) == set32(x).remove(u32_trailing_zeros(x) as int),
        (x & ((x - 1) as u32)) < x,
{
    axiom_u32_trailing_zeros(x);
    let t = u32_trailing_zeros(x);
    assert forall|i: int| 0 <= i < t implies !#[trigger] bit32(x, i) by {
        let k = i as u32;
        assert((x >> k) & 1u32 == 0u32);
    }
    let y = (x - 1) as u32;
    let lm = ((1u32 << t) - 1) as u32;
    lemma_bit32_low_mask(t);
    lemma_bit32_and(x, lm);
    lemma_bit32_zero();
    assert forall|i: int| 0 <= i < 32 implies #[trigger] bit32(x & lm, i) == bit32(0u32, i) by {}
    lemma_bit32_ext(x & lm, 0u32);
    assert((x >> t) & 1u32 == 1u32);
    assert forall|i: int| #[trigger] bit32(x & y, i) == (bit32(x, i) && i != t) by {
        if 0 <= i < 32 {
            let k = i as u32;
            assert(x != 0u32 ==> y == (x - 1) as u32 ==> lm == ((1u32 << t) - 1) as u32 ==> x & lm
                == 0u32 ==> (x >> t) & 1u32 == 1u32 ==> t < 32 ==> k < 32 ==> ((((x & y) >> k)
                & 1u32 == 1u32) <==> ((x >> k) & 1u32 == 1u32 && k != t))) by (bit_vector);
        }
    }
    assert(set32(x & y) =~= set32(x).remove(t as int));
    assert(x != 0u32 ==> y == (x - 1) as u32 ==> (x & y) < x) by (bit_vector);
}

/// Bits of `(1 << k) - 1` are exactly those below `k`.
pub proof fn lemma_bit32_low_mask(k: u32)
    requires
        k < 32,
    ensures
        forall|i: int| #[trigger] bit32(((1u32 << k) - 1) as u32, i) == (0 <= i < k),
        set32(((1u32 << k) - 1) as u32) == set_int_range(0, k as int),
{
    assert forall|i: int| #[trigger] bit32(((1u32 << k) - 1) as u32, i) == (0 <= i < k) by {
        if 0 <= i < 32 {
            let j = i as u32;
            assert((((((1u32 << k) - 1) as u32) >> j) & 1u32 == 1u32) <==> j < k) by (bit_vector)
                requires
                    k < 32,
                    j < 32,
            ;
        }
    }
    assert(set32(((1u32 << k) - 1) as u32) =~= set_int_range(0, k as int));
}

/// A word is below `2^k` exactly when it has no bit at or above `k`.
pub proof fn lemma_bit32_bound(x: u32, k: u32)
    requires
        k < 32,
    ensures
        (x < (1u32 << k)) <==> (forall|i: int| k <= i < 32 ==> !#[trigger] bit32(x, i)),
        (x < (1u32 << k)) <==> set32(x).subset_of(set_int_range(0, k as int)),
{
    if x < (1u32 << k) {
        assert forall|i: int| k <= i < 32 implies !#[trigger] bit32(x, i) by {
            let j = i as u32;
            assert(x < (1u32 << k) ==> k <= j ==> j < 32 ==> k < 32 ==> (x >> j) & 1u32 == 0u32)
                by (bit_vector);
        }
    } else {
        let d = x >> k;
        assert(!(x < (1u32 << k)) ==> k < 32 ==> d != 0u32) by (bit_vector)
            requires
                d == x >> k,
        ;
        axiom_u32_trailing_zeros(d);
        let t = u32_trailing_zeros(d);
        assert((d >> t) & 1u32 == 1u32);
        assert(d == x >> k ==> k < 32 ==> t < 32 ==> (d >> t) & 1u32 == 1u32 ==> ((k + t) as u32) < 32
            && (x >> ((k + t) as u32)) & 1u32 == 1u32) by (bit_vector);
        assert(bit32(x, k + t));
    }
    if set32(x).subset_of(set_int_range(0, k as int)) {
        assert forall|i: int| k <= i < 32 implies !#[trigger] bit32(x, i) by {
            assert(!set_int_range(0, k as int).contains(i));
        }
    }
}

/// `x` as a word whose bits are exactly `s`.
pub proof fn lemma_set32_card_bound(x: u32, k: u32)
    requires
        k < 32,
        x < (1u32 << k),
    ensures
        set32(x).len() <= k,
{
    lemma_bit32_bound(x, k);
    lemma_int_range(0, k as int);
    lemma_len_subset(set32(x), set_int_range(0, k as int));
}

/// `1 << k` is positive, and doubles as `k` grows by one.
pub proof fn lemma_shl1_value(k: u32)
    requires
        k < 32,
    ensures
        (1u32 << k) >= 1,
        k < 31 ==> (1u32 << ((k + 1) as u32)) == 2 * (1u32 << k),
{
    assert(k < 32 ==> (1u32 << k) >= 1) by (bit_vector);
    assert(k < 31 ==> (1u32 << ((k + 1) as u32)) == 2 * (1u32 << k)) by (bit_vector);
}

/// Setting bit `r` of a byte adds `r` to its set.
pub proof fn lemma_set8_or_shl(a: u8, r: u8)
    requires
        r < 8,
    ensures
        set8(a | (1u8 << r)) == set8(a).insert(r as int),
        (a | (1u8 << r)) as u32 == (a as u32) | (1u32 << (r as u32)),
{
    assert(((a | (1u8 << r)) as u32) == (a as u32) | (1u32 << (r as u32))) by (bit_vector)
        requires
            r < 8,
    ;
    lemma_bit32_or(a as u32, 1u32 << (r as u32));
    lemma_bit32_shl1(r as u32);
    assert(set8(a | (1u8 << r)) =~= set8(a).insert(r as int));
}

/// Count the set bits of `x` by clearing the lowest one until none is left.
pub fn count_ones32(x: u32) -> (r: u32)
    ensures
        r == pop32(x),
        r <= 32,
{
    let mut rem = x;
    let mut count: u32 = 0;
    proof {
        lemma_set32_finite(x);
    }
    while rem != 0
        invariant
            count + pop32(rem) == pop32(x),
            pop32(x) <= 32,
        decreases rem,
    {
        proof {
            lemma_clear_lowest(rem);
            lemma_set32_finite(rem);
        }
        rem = rem & (rem - 1);
        count = count + 1;
    }
    proof {
        lemma_set32_empty(rem);
    }
    count
}


/// The members of `s` within `i..32`, in increasing order.
pub open spec fn ordered_from(s: Set<int>, i: int) -> Seq<int>
    decreases 32 - i,
{
    if i >= 32 {
        Seq::empty()
    } else {
        (if s.contains(i) {
            seq![i]
        } else {
            Seq::empty()
        }) + ordered_from(s, i + 1)
    }
}

/// The members of `s` within `0..32`, in increasing order.
pub open spec fn ordered(s: Set<int>) -> Seq<int> {
    ordered_from(s, 0)
}

/// Two sets that agree on `i..32` list the same members there.
pub proof fn lemma_ordered_from_agree(s1: Set<int>, s2: Set<int>, i: int)
    requires
        forall|j: int| i <= j < 32 ==> s1.contains(j) == s2.contains(j),
    ensures
        ordered_from(s1, i) == ordered_from(s2, i),
    decreases 32 - i,
{
    if i < 32 {
        lemma_ordered_from_agree(s1, s2, i + 1);
    }
}

/// Listing a set starts with its least member.
pub proof fn lemma_ordered_from_min(s: Set<int>, i: int, m: int)
    requires
        i <= m < 32,
        s.contains(m),
        forall|j: int| #[trigger] s.contains(j) ==> m <= j,
    ensures
        ordered_from(s, i) == seq![m] + ordered_from(s.remove(m), i),
    decreases 32 - i,
{
    if i == m {
        lemma_ordered_from_agree(s, s.remove(m), i + 1);
        assert(ordered_from(s.remove(m), i) =~= Seq::<int>::empty() + ordered_from(
            s.remove(m),
            i + 1,
        ));
    } else {
        lemma_ordered_from_min(s, i + 1, m);
        assert(!s.contains(i));
        assert(ordered_from(s, i) =~= ordered_from(s, i + 1));
        assert(ordered_from(s.remove(m), i) =~= ordered_from(s.remove(m), i + 1));
    }
}

/// The empty set lists nothing.
pub proof fn lemma_ordered_from_empty(s: Set<int>, i: int)
    requires
        forall|j: int| i <= j < 32 ==> !s.contains(j),
    ensures
        ordered_from(s, i) == Seq::<int>::empty(),
    decreases 32 - i,
{
    if i < 32 {
        lemma_ordered_from_empty(s, i + 1);
        assert(ordered_from(s, i) =~= Seq::<int>::empty());
    }
}

/// `1 << k` is one more than the mask of the `k` low bits.
pub proof fn lemma_low_mask_shl(k: u32)
    requires
        k < 32,
    ensures
        (1u32 << k) as int == low_mask(k as nat) + 1,
    decreases k,
{
    if k == 0 {
        assert(1u32 << 0u32 == 1u32) by (bit_vector);
    } else {
        lemma_low_mask_shl((k - 1) as u32);
        lemma_shl1_value((k - 1) as u32);
        assert(((k - 1) as u32 + 1) as u32 == k);
    }
}

/// `pow2` never decreases.
pub proof fn lemma_pow2_mono(a: nat, b: nat)
    requires
        a <= b,
    ensures
        vstd::arithmetic::power2::pow2(a) <= vstd::arithmetic::power2::pow2(b),
{
    if a < b {
        vstd::arithmetic::power2::lemma_pow2_strictly_increases(a, b);
    }
}


} // verus!
