//! What the networks on 9 and 10 entries guarantee of their output, for every
//! input: which pairs of positions always end up in order. The proof reads
//! an input through a threshold `t`: a comparator commutes with "is at least
//! `t`", so the question becomes one about words of bits, where each
//! comparator is an `and` and an `or`, which the bit-vector solver settles
//! for all words at once.

use vstd::prelude::*;

verus! {

use crate::bits::{bit32, set32, lemma_bit32_or, lemma_bit32_shl1, lemma_bit32_zero, lemma_set32_ext};
use crate::sorting_network::{compare_swap, network9, network10};

/// A comparator on a word of bits: bit `i` becomes the `and`, bit `j` the
/// `or` of bits `i` and `j`; the other bits stay.
pub open spec fn cs_word(x: u32, i: u32, j: u32) -> u32 {
    (x & !((1u32 << i) | (1u32 << j))) | ((((x >> i) & (x >> j)) & 1u32) << i) | ((((x >> i) | (x >> j))
        & 1u32) << j)
}

/// The positions below `k` at which `s` holds at least `t`, as the bits of a word.
pub open spec fn above(s: Seq<u32>, t: u32, k: nat) -> u32
    decreases k,
{
    if k == 0 {
        0
    } else {
        above(s, t, (k - 1) as nat) | if s[k - 1] >= t {
            1u32 << ((k - 1) as u32)
        } else {
            0u32
        }
    }
}

/// Bit `i` of `above(s, t, k)` is set exactly where `i < k` and `s[i] >= t`.
pub proof fn lemma_above_bits(s: Seq<u32>, t: u32, k: nat)
    requires
        k <= 32,
        k <= s.len(),
    ensures
        forall|i: int| #[trigger] bit32(above(s, t, k), i) == (0 <= i < k && s[i] >= t),
    decreases k,
{
    if k == 0 {
        lemma_bit32_zero();
    } else {
        lemma_above_bits(s, t, (k - 1) as nat);
        let m = (k - 1) as u32;
        let x = above(s, t, (k - 1) as nat);
        let y = if s[k - 1] >= t { 1u32 << m } else { 0u32 };
        lemma_bit32_or(x, y);
        lemma_bit32_shl1(m);
        lemma_bit32_zero();
    }
}

/// Bit `k` of a word after a comparator on bits `i < j`.
pub proof fn lemma_cs_word_bit(x: u32, i: u32, j: u32, k: u32)
    requires
        i < j < 32,
        k < 32,
    ensures
        bit32(cs_word(x, i, j), k as int) == if k == i {
            bit32(x, i as int) && bit32(x, j as int)
        } else if k == j {
            bit32(x, i as int) || bit32(x, j as int)
        } else {
            bit32(x, k as int)
        },
{
    let y = cs_word(x, i, j);
    assert(y == (x & !((1u32 << i) | (1u32 << j))) | ((((x >> i) & (x >> j)) & 1u32) << i) | ((((x >> i) | (x >> j))
        & 1u32) << j));
    assert((((y >> k) & 1u32) == 1u32) == if k == i {
        ((x >> i) & 1u32) == 1u32 && ((x >> j) & 1u32) == 1u32
    } else if k == j {
        ((x >> i) & 1u32) == 1u32 || ((x >> j) & 1u32) == 1u32
    } else {
        ((x >> k) & 1u32) == 1u32
    }) by (bit_vector)
        requires
            i < j,
            j < 32,
            k < 32,
            y == (x & !((1u32 << i) | (1u32 << j))) | ((((x >> i) & (x >> j)) & 1u32) << i) | ((((x >> i) | (x >> j))
                & 1u32) << j),
    ;
}

/// A comparator commutes with the threshold: the positions at which the
/// result of `compare_swap` holds at least `t` are those the bit comparator
/// gives.
pub proof fn lemma_above_compare_swap(s: Seq<u32>, t: u32, i: u32, j: u32)
    requires
        s.len() <= 32,
        i < j < s.len(),
    ensures
        compare_swap(s, i as int, j as int).len() == s.len(),
        above(compare_swap(s, i as int, j as int), t, s.len()) == cs_word(above(s, t, s.len()), i, j),
{
    let r = compare_swap(s, i as int, j as int);
    let x = above(s, t, s.len());
    let y = cs_word(x, i, j);
    lemma_above_bits(s, t, s.len());
    lemma_above_bits(r, t, s.len());
    assert forall|k: int| #[trigger] set32(above(r, t, s.len())).contains(k) == set32(y).contains(k) by {
        if 0 <= k < 32 {
            lemma_cs_word_bit(x, i, j, k as u32);
        }
    }
    assert(set32(above(r, t, s.len())) =~= set32(y));
    lemma_set32_ext(above(r, t, s.len()), y);
}

/// On words of bits, the network on 9 entries carries a set bit at
/// position `a` to a set bit at position `b`, except for the pairs (4, 6) and (5, 6).
proof fn lemma_network9_bits(w: u32, w0: u32, w1: u32, w2: u32, w3: u32, w4: u32, w5: u32, w6: u32, w7: u32, w8: u32, w9: u32, w10: u32, w11: u32, w12: u32, w13: u32, w14: u32, w15: u32, w16: u32, w17: u32, w18: u32, w19: u32, w20: u32, w21: u32, w22: u32, w23: u32, w24: u32, w25: u32, w26: u32, au: u32, bu: u32)
    requires
        au < bu,
        bu < 9u32,
        !(bu == 6 && (au == 4 || au == 5)),
        w0 == cs_word(w, 0u32, 1u32),
        w1 == cs_word(w0, 3u32, 4u32),
        w2 == cs_word(w1, 6u32, 7u32),
        w3 == cs_word(w2, 1u32, 2u32),
        w4 == cs_word(w3, 4u32, 5u32),
        w5 == cs_word(w4, 7u32, 8u32),
        w6 == cs_word(w5, 0u32, 1u32),
        w7 == cs_word(w6, 3u32, 4u32),
        w8 == cs_word(w7, 6u32, 7u32),
        w9 == cs_word(w8, 0u32, 3u32),
        w10 == cs_word(w9, 1u32, 4u32),
        w11 == cs_word(w10, 2u32, 5u32),
        w12 == cs_word(w11, 3u32, 6u32),
        w13 == cs_word(w12, 4u32, 7u32),
        w14 == cs_word(w13, 5u32, 8u32),
        w15 == cs_word(w14, 0u32, 3u32),
        w16 == cs_word(w15, 1u32, 4u32),
        w17 == cs_word(w16, 2u32, 5u32),
        w18 == cs_word(w17, 1u32, 6u32),
        w19 == cs_word(w18, 2u32, 7u32),
        w20 == cs_word(w19, 1u32, 3u32),
        w21 == cs_word(w20, 4u32, 6u32),
        w22 == cs_word(w21, 5u32, 7u32),
        w23 == cs_word(w22, 2u32, 4u32),
        w24 == cs_word(w23, 3u32, 5u32),
        w25 == cs_word(w24, 2u32, 3u32),
        w26 == cs_word(w25, 4u32, 5u32),
    ensures
        ((w26 >> au) & 1u32) == 1u32 ==> ((w26 >> bu) & 1u32) == 1u32,
{
    assert(((w26 >> au) & 1u32) == 1u32 ==> ((w26 >> bu) & 1u32) == 1u32) by (bit_vector)
        requires
            au < bu,
            bu < 9u32,
            !(bu == 6 && (au == 4 || au == 5)),
            w0 == cs_word(w, 0u32, 1u32),
            w1 == cs_word(w0, 3u32, 4u32),
            w2 == cs_word(w1, 6u32, 7u32),
            w3 == cs_word(w2, 1u32, 2u32),
            w4 == cs_word(w3, 4u32, 5u32),
            w5 == cs_word(w4, 7u32, 8u32),
            w6 == cs_word(w5, 0u32, 1u32),
            w7 == cs_word(w6, 3u32, 4u32),
            w8 == cs_word(w7, 6u32, 7u32),
            w9 == cs_word(w8, 0u32, 3u32),
            w10 == cs_word(w9, 1u32, 4u32),
            w11 == cs_word(w10, 2u32, 5u32),
            w12 == cs_word(w11, 3u32, 6u32),
            w13 == cs_word(w12, 4u32, 7u32),
            w14 == cs_word(w13, 5u32, 8u32),
            w15 == cs_word(w14, 0u32, 3u32),
            w16 == cs_word(w15, 1u32, 4u32),
            w17 == cs_word(w16, 2u32, 5u32),
            w18 == cs_word(w17, 1u32, 6u32),
            w19 == cs_word(w18, 2u32, 7u32),
            w20 == cs_word(w19, 1u32, 3u32),
            w21 == cs_word(w20, 4u32, 6u32),
            w22 == cs_word(w21, 5u32, 7u32),
            w23 == cs_word(w22, 2u32, 4u32),
            w24 == cs_word(w23, 3u32, 5u32),
            w25 == cs_word(w24, 2u32, 3u32),
            w26 == cs_word(w25, 4u32, 5u32),
    ;
}

/// For every input of 9 entries, the network on 9 entries puts the
/// entries at positions `a < b` in order, except for the pairs (4, 6) and (5, 6).
#[verifier::rlimit(100)]
#[verifier::spinoff_prover]
pub proof fn lemma_network9_order(s: Seq<u32>, a: int, b: int)
    requires
        s.len() == 9,
        0 <= a < b < 9,
        !(b == 6 && (a == 4 || a == 5)),
    ensures
        network9(s)[a] <= network9(s)[b],
{
    let r = network9(s);
    let t = r[a];
    let s0 = compare_swap(s, 0, 1);
    lemma_above_compare_swap(s, t, 0, 1);
    let s1 = compare_swap(s0, 3, 4);
    lemma_above_compare_swap(s0, t, 3, 4);
    let s2 = compare_swap(s1, 6, 7);
    lemma_above_compare_swap(s1, t, 6, 7);
    let s3 = compare_swap(s2, 1, 2);
    lemma_above_compare_swap(s2, t, 1, 2);
    let s4 = compare_swap(s3, 4, 5);
    lemma_above_compare_swap(s3, t, 4, 5);
    let s5 = compare_swap(s4, 7, 8);
    lemma_above_compare_swap(s4, t, 7, 8);
    let s6 = compare_swap(s5, 0, 1);
    lemma_above_compare_swap(s5, t, 0, 1);
    let s7 = compare_swap(s6, 3, 4);
    lemma_above_compare_swap(s6, t, 3, 4);
    let s8 = compare_swap(s7, 6, 7);
    lemma_above_compare_swap(s7, t, 6, 7);
    let s9 = compare_swap(s8, 0, 3);
    lemma_above_compare_swap(s8, t, 0, 3);
    let s10 = compare_swap(s9, 1, 4);
    lemma_above_compare_swap(s9, t, 1, 4);
    let s11 = compare_swap(s10, 2, 5);
    lemma_above_compare_swap(s10, t, 2, 5);
    let s12 = compare_swap(s11, 3, 6);
    lemma_above_compare_swap(s11, t, 3, 6);
    let s13 = compare_swap(s12, 4, 7);
    lemma_above_compare_swap(s12, t, 4, 7);
    let s14 = compare_swap(s13, 5, 8);
    lemma_above_compare_swap(s13, t, 5, 8);
    let s15 = compare_swap(s14, 0, 3);
    lemma_above_compare_swap(s14, t, 0, 3);
    let s16 = compare_swap(s15, 1, 4);
    lemma_above_compare_swap(s15, t, 1, 4);
    let s17 = compare_swap(s16, 2, 5);
    lemma_above_compare_swap(s16, t, 2, 5);
    let s18 = compare_swap(s17, 1, 6);
    lemma_above_compare_swap(s17, t, 1, 6);
    let s19 = compare_swap(s18, 2, 7);
    lemma_above_compare_swap(s18, t, 2, 7);
    let s20 = compare_swap(s19, 1, 3);
    lemma_above_compare_swap(s19, t, 1, 3);
    let s21 = compare_swap(s20, 4, 6);
    lemma_above_compare_swap(s20, t, 4, 6);
    let s22 = compare_swap(s21, 5, 7);
    lemma_above_compare_swap(s21, t, 5, 7);
    let s23 = compare_swap(s22, 2, 4);
    lemma_above_compare_swap(s22, t, 2, 4);
    let s24 = compare_swap(s23, 3, 5);
    lemma_above_compare_swap(s23, t, 3, 5);
    let s25 = compare_swap(s24, 2, 3);
    lemma_above_compare_swap(s24, t, 2, 3);
    let s26 = compare_swap(s25, 4, 5);
    lemma_above_compare_swap(s25, t, 4, 5);
    assert(r == s26);
    lemma_network9_bits(above(s, t, 9), above(s0, t, 9), above(s1, t, 9), above(s2, t, 9), above(s3, t, 9), above(s4, t, 9), above(s5, t, 9), above(s6, t, 9), above(s7, t, 9), above(s8, t, 9), above(s9, t, 9), above(s10, t, 9), above(s11, t, 9), above(s12, t, 9), above(s13, t, 9), above(s14, t, 9), above(s15, t, 9), above(s16, t, 9), above(s17, t, 9), above(s18, t, 9), above(s19, t, 9), above(s20, t, 9), above(s21, t, 9), above(s22, t, 9), above(s23, t, 9), above(s24, t, 9), above(s25, t, 9), above(s26, t, 9), a as u32, b as u32);
    lemma_above_bits(r, t, 9);
    assert(bit32(above(r, t, 9), a));
    assert(bit32(above(r, t, 9), b));
}

/// On words of bits, the network on 10 entries carries a set bit at
/// position `a` to a set bit at position `b`, except for the pairs (6, 7) and (5, 9) to (8, 9).
proof fn lemma_network10_bits(w: u32, w0: u32, w1: u32, w2: u32, w3: u32, w4: u32, w5: u32, w6: u32, w7: u32, w8: u32, w9: u32, w10: u32, w11: u32, w12: u32, w13: u32, w14: u32, w15: u32, w16: u32, w17: u32, w18: u32, w19: u32, w20: u32, w21: u32, w22: u32, w23: u32, w24: u32, w25: u32, w26: u32, w27: u32, w28: u32, au: u32, bu: u32)
    requires
        au < bu,
        bu < 10u32,
        !(bu == 9 && au >= 5) && !(au == 6 && bu == 7),
        w0 == cs_word(w, 0u32, 1u32),
        w1 == cs_word(w0, 2u32, 3u32),
        w2 == cs_word(w1, 4u32, 5u32),
        w3 == cs_word(w2, 6u32, 7u32),
        w4 == cs_word(w3, 8u32, 9u32),
        w5 == cs_word(w4, 0u32, 2u32),
        w6 == cs_word(w5, 1u32, 3u32),
        w7 == cs_word(w6, 4u32, 6u32),
        w8 == cs_word(w7, 5u32, 7u32),
        w9 == cs_word(w8, 0u32, 4u32),
        w10 == cs_word(w9, 1u32, 5u32),
        w11 == cs_word(w10, 2u32, 6u32),
        w12 == cs_word(w11, 3u32, 7u32),
        w13 == cs_word(w12, 0u32, 8u32),
        w14 == cs_word(w13, 1u32, 9u32),
        w15 == cs_word(w14, 2u32, 8u32),
        w16 == cs_word(w15, 3u32, 9u32),
        w17 == cs_word(w16, 1u32, 4u32),
        w18 == cs_word(w17, 3u32, 6u32),
        w19 == cs_word(w18, 5u32, 8u32),
        w20 == cs_word(w19, 1u32, 2u32),
        w21 == cs_word(w20, 4u32, 5u32),
        w22 == cs_word(w21, 7u32, 8u32),
        w23 == cs_word(w22, 3u32, 5u32),
        w24 == cs_word(w23, 6u32, 8u32),
        w25 == cs_word(w24, 2u32, 4u32),
        w26 == cs_word(w25, 5u32, 7u32),
        w27 == cs_word(w26, 3u32, 4u32),
        w28 == cs_word(w27, 5u32, 6u32),
    ensures
        ((w28 >> au) & 1u32) == 1u32 ==> ((w28 >> bu) & 1u32) == 1u32,
{
    assert(((w28 >> au) & 1u32) == 1u32 ==> ((w28 >> bu) & 1u32) == 1u32) by (bit_vector)
        requires
            au < bu,
            bu < 10u32,
            !(bu == 9 && au >= 5) && !(au == 6 && bu == 7),
            w0 == cs_word(w, 0u32, 1u32),
            w1 == cs_word(w0, 2u32, 3u32),
            w2 == cs_word(w1, 4u32, 5u32),
            w3 == cs_word(w2, 6u32, 7u32),
            w4 == cs_word(w3, 8u32, 9u32),
            w5 == cs_word(w4, 0u32, 2u32),
            w6 == cs_word(w5, 1u32, 3u32),
            w7 == cs_word(w6, 4u32, 6u32),
            w8 == cs_word(w7, 5u32, 7u32),
            w9 == cs_word(w8, 0u32, 4u32),
            w10 == cs_word(w9, 1u32, 5u32),
            w11 == cs_word(w10, 2u32, 6u32),
            w12 == cs_word(w11, 3u32, 7u32),
            w13 == cs_word(w12, 0u32, 8u32),
            w14 == cs_word(w13, 1u32, 9u32),
            w15 == cs_word(w14, 2u32, 8u32),
            w16 == cs_word(w15, 3u32, 9u32),
            w17 == cs_word(w16, 1u32, 4u32),
            w18 == cs_word(w17, 3u32, 6u32),
            w19 == cs_word(w18, 5u32, 8u32),
            w20 == cs_word(w19, 1u32, 2u32),
            w21 == cs_word(w20, 4u32, 5u32),
            w22 == cs_word(w21, 7u32, 8u32),
            w23 == cs_word(w22, 3u32, 5u32),
            w24 == cs_word(w23, 6u32, 8u32),
            w25 == cs_word(w24, 2u32, 4u32),
            w26 == cs_word(w25, 5u32, 7u32),
            w27 == cs_word(w26, 3u32, 4u32),
            w28 == cs_word(w27, 5u32, 6u32),
    ;
}

/// For every input of 10 entries, the network on 10 entries puts the
/// entries at positions `a < b` in order, except for the pairs (6, 7) and (5, 9) to (8, 9).
#[verifier::rlimit(100)]
#[verifier::spinoff_prover]
pub proof fn lemma_network10_order(s: Seq<u32>, a: int, b: int)
    requires
        s.len() == 10,
        0 <= a < b < 10,
        !(b == 9 && a >= 5) && !(a == 6 && b == 7),
    ensures
        network10(s)[a] <= network10(s)[b],
{
    let r = network10(s);
    let t = r[a];
    let s0 = compare_swap(s, 0, 1);
    lemma_above_compare_swap(s, t, 0, 1);
    let s1 = compare_swap(s0, 2, 3);
    lemma_above_compare_swap(s0, t, 2, 3);
    let s2 = compare_swap(s1, 4, 5);
    lemma_above_compare_swap(s1, t, 4, 5);
    let s3 = compare_swap(s2, 6, 7);
    lemma_above_compare_swap(s2, t, 6, 7);
    let s4 = compare_swap(s3, 8, 9);
    lemma_above_compare_swap(s3, t, 8, 9);
    let s5 = compare_swap(s4, 0, 2);
    lemma_above_compare_swap(s4, t, 0, 2);
    let s6 = compare_swap(s5, 1, 3);
    lemma_above_compare_swap(s5, t, 1, 3);
    let s7 = compare_swap(s6, 4, 6);
    lemma_above_compare_swap(s6, t, 4, 6);
    let s8 = compare_swap(s7, 5, 7);
    lemma_above_compare_swap(s7, t, 5, 7);
    let s9 = compare_swap(s8, 0, 4);
    lemma_above_compare_swap(s8, t, 0, 4);
    let s10 = compare_swap(s9, 1, 5);
    lemma_above_compare_swap(s9, t, 1, 5);
    let s11 = compare_swap(s10, 2, 6);
    lemma_above_compare_swap(s10, t, 2, 6);
    let s12 = compare_swap(s11, 3, 7);
    lemma_above_compare_swap(s11, t, 3, 7);
    let s13 = compare_swap(s12, 0, 8);
    lemma_above_compare_swap(s12, t, 0, 8);
    let s14 = compare_swap(s13, 1, 9);
    lemma_above_compare_swap(s13, t, 1, 9);
    let s15 = compare_swap(s14, 2, 8);
    lemma_above_compare_swap(s14, t, 2, 8);
    let s16 = compare_swap(s15, 3, 9);
    lemma_above_compare_swap(s15, t, 3, 9);
    let s17 = compare_swap(s16, 1, 4);
    lemma_above_compare_swap(s16, t, 1, 4);
    let s18 = compare_swap(s17, 3, 6);
    lemma_above_compare_swap(s17, t, 3, 6);
    let s19 = compare_swap(s18, 5, 8);
    lemma_above_compare_swap(s18, t, 5, 8);
    let s20 = compare_swap(s19, 1, 2);
    lemma_above_compare_swap(s19, t, 1, 2);
    let s21 = compare_swap(s20, 4, 5);
    lemma_above_compare_swap(s20, t, 4, 5);
    let s22 = compare_swap(s21, 7, 8);
    lemma_above_compare_swap(s21, t, 7, 8);
    let s23 = compare_swap(s22, 3, 5);
    lemma_above_compare_swap(s22, t, 3, 5);
    let s24 = compare_swap(s23, 6, 8);
    lemma_above_compare_swap(s23, t, 6, 8);
    let s25 = compare_swap(s24, 2, 4);
    lemma_above_compare_swap(s24, t, 2, 4);
    let s26 = compare_swap(s25, 5, 7);
    lemma_above_compare_swap(s25, t, 5, 7);
    let s27 = compare_swap(s26, 3, 4);
    lemma_above_compare_swap(s26, t, 3, 4);
    let s28 = compare_swap(s27, 5, 6);
    lemma_above_compare_swap(s27, t, 5, 6);
    assert(r == s28);
    lemma_network10_bits(above(s, t, 10), above(s0, t, 10), above(s1, t, 10), above(s2, t, 10), above(s3, t, 10), above(s4, t, 10), above(s5, t, 10), above(s6, t, 10), above(s7, t, 10), above(s8, t, 10), above(s9, t, 10), above(s10, t, 10), above(s11, t, 10), above(s12, t, 10), above(s13, t, 10), above(s14, t, 10), above(s15, t, 10), above(s16, t, 10), above(s17, t, 10), above(s18, t, 10), above(s19, t, 10), above(s20, t, 10), above(s21, t, 10), above(s22, t, 10), above(s23, t, 10), above(s24, t, 10), above(s25, t, 10), above(s26, t, 10), above(s27, t, 10), above(s28, t, 10), a as u32, b as u32);
    lemma_above_bits(r, t, 10);
    assert(bit32(above(r, t, 10), a));
    assert(bit32(above(r, t, 10), b));
}

/// What the network on 9 entries guarantees of its result `r`: the entries at
/// positions `a < b` are in order, except for the pairs (4, 6) and (5, 6).
pub open spec fn network9_ordered(r: Seq<u32>) -> bool {
    forall|a: int, b: int|
        0 <= a < b < 9 && !(b == 6 && (a == 4 || a == 5)) ==> #[trigger] r[a] <= #[trigger] r[b]
}

/// What the network on 10 entries guarantees of its result `r`: the entries
/// at positions `a < b` are in order, except for the pair (6, 7) and the
/// pairs (5, 9) to (8, 9); so its first five entries are the five least, in
/// order.
pub open spec fn network10_ordered(r: Seq<u32>) -> bool {
    forall|a: int, b: int|
        0 <= a < b < 10 && !(b == 9 && a >= 5) && !(a == 6 && b == 7) ==> #[trigger] r[a] <= #[trigger] r[b]
}

/// Every result of the network on 9 entries is ordered as `network9_ordered` says.
pub proof fn lemma_network9_ordered(s: Seq<u32>)
    requires
        s.len() == 9,
    ensures
        network9_ordered(network9(s)),
{
    assert forall|a: int, b: int|
        0 <= a < b < 9 && !(b == 6 && (a == 4 || a == 5)) implies #[trigger] network9(s)[a] <= #[trigger] network9(s)[b] by {
        lemma_network9_order(s, a, b);
    }
}

/// Every result of the network on 10 entries is ordered as `network10_ordered` says.
pub proof fn lemma_network10_ordered(s: Seq<u32>)
    requires
        s.len() == 10,
    ensures
        network10_ordered(network10(s)),
{
    assert forall|a: int, b: int|
        0 <= a < b < 10 && !(b == 9 && a >= 5) && !(a == 6 && b == 7) implies #[trigger] network10(s)[a]
        <= #[trigger] network10(s)[b] by {
        lemma_network10_order(s, a, b);
    }
}

} // verus!
