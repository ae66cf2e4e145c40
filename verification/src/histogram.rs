//! The order of node histograms: by node degree, then lexicographically by
//! histogram, the count of the smallest edges first.

use vstd::prelude::*;

verus! {

use vstd::relations::{sorted_by, total_ordering};
use crate::util::lemma_swap_multiset;

/// Digit `i` of a histogram word with `bits`-bit digits: how many edges of
/// size `i + 2` hold the node.
pub open spec fn hist_digit(x: u32, bits: u32, i: u32) -> u32 {
    (x >> ((bits * i) as u32)) & (((1u32 << bits) - 1) as u32)
}

/// The degree of a node: the sum of the first `d` digits of its histogram.
pub open spec fn hist_degree(x: u32, bits: u32, d: u32) -> int
    decreases d,
{
    if d == 0 {
        0
    } else {
        hist_degree(x, bits, (d - 1) as u32) + hist_digit(x, bits, (d - 1) as u32)
    }
}

/// The digits from `i` on (below `d`) decide, the first that differs first;
/// where all of them agree, the words themselves decide.
pub open spec fn digits_lt(x: u32, y: u32, bits: u32, d: u32, i: u32) -> bool
    decreases d - i,
{
    if i >= d {
        x < y
    } else if hist_digit(x, bits, i) != hist_digit(y, bits, i) {
        hist_digit(x, bits, i) < hist_digit(y, bits, i)
    } else {
        digits_lt(x, y, bits, d, (i + 1) as u32)
    }
}

/// `x` comes before `y`: a smaller degree, or the same degree and a
/// lexicographically smaller histogram.
pub open spec fn hist_lt(x: u32, y: u32, bits: u32, d: u32) -> bool {
    ||| hist_degree(x, bits, d) < hist_degree(y, bits, d)
    ||| (hist_degree(x, bits, d) == hist_degree(y, bits, d) && digits_lt(x, y, bits, d, 0))
}

/// The order of histograms, as a relation.
pub open spec fn hist_le_order(bits: u32, d: u32) -> spec_fn(u32, u32) -> bool {
    |x: u32, y: u32| x == y || hist_lt(x, y, bits, d)
}

/// The comparison of digits is a strict total order.
proof fn lemma_digits_lt(x: u32, y: u32, z: u32, bits: u32, d: u32, i: u32)
    ensures
        !digits_lt(x, x, bits, d, i),
        digits_lt(x, y, bits, d, i) && digits_lt(y, z, bits, d, i) ==> digits_lt(x, z, bits, d, i),
        x != y ==> digits_lt(x, y, bits, d, i) || digits_lt(y, x, bits, d, i),
        digits_lt(x, y, bits, d, i) ==> !digits_lt(y, x, bits, d, i),
    decreases d - i,
{
    if i < d {
        lemma_digits_lt(x, y, z, bits, d, (i + 1) as u32);
    }
}

/// The order of histograms is a total order.
pub proof fn lemma_hist_total(bits: u32, d: u32)
    ensures
        total_ordering(hist_le_order(bits, d)),
{
    let le = hist_le_order(bits, d);
    assert forall|x: u32, y: u32| #[trigger] le(x, y) && #[trigger] le(y, x) implies x == y by {
        lemma_digits_lt(x, y, y, bits, d, 0);
    }
    assert forall|x: u32, y: u32, z: u32| #[trigger] le(x, y) && #[trigger] le(y, z) implies le(x, z) by {
        lemma_digits_lt(x, y, z, bits, d, 0);
    }
    assert forall|x: u32, y: u32| #[trigger] le(x, y) || #[trigger] le(y, x) by {
        lemma_digits_lt(x, y, y, bits, d, 0);
    }
    assert forall|x: u32| #[trigger] le(x, x) by {}
}

/// Digit `i` of a histogram word.
fn digit(x: u32, bits: u32, i: u32) -> (r: u32)
    requires
        bits <= 3,
        i < 5,
    ensures
        r == hist_digit(x, bits, i),
        r <= 7,
{
    proof {
        crate::bits::lemma_shl1_value(bits);
    }
    let mask = (1u32 << bits) - 1;
    assert(bits * i <= 15) by (nonlinear_arith)
        requires
            bits <= 3,
            i < 5,
    ;
    let sh = bits * i;
    let y = x >> sh;
    let r = y & mask;
    assert(bits <= 3 && mask == ((1u32 << bits) - 1) as u32 ==> (y & mask) <= 7) by (bit_vector);
    r
}

/// The degree of a histogram word with `d` digits.
fn degree(x: u32, bits: u32, d: u32) -> (r: u32)
    requires
        bits <= 3,
        d <= 4,
    ensures
        r == hist_degree(x, bits, d),
{
    let mut s: u32 = 0;
    let mut i: u32 = 0;
    while i < d
        invariant
            i <= d <= 4,
            bits <= 3,
            s == hist_degree(x, bits, i),
            s <= 7 * i,
        decreases d - i,
    {
        let t = digit(x, bits, i);
        s = s + t;
        i = i + 1;
    }
    s
}

/// Whether histogram `x` comes before histogram `y` (see `hist_lt`).
pub fn hist_less(x: u32, y: u32, bits: u32, d: u32) -> (r: bool)
    requires
        bits <= 3,
        d <= 4,
    ensures
        r == hist_lt(x, y, bits, d),
{
    let dx = degree(x, bits, d);
    let dy = degree(y, bits, d);
    if dx != dy {
        return dx < dy;
    }
    let mut i: u32 = 0;
    while i < d
        invariant
            i <= d <= 4,
            bits <= 3,
            dx == dy,
            dx == hist_degree(x, bits, d),
            dy == hist_degree(y, bits, d),
            digits_lt(x, y, bits, d, 0) == digits_lt(x, y, bits, d, i),
        decreases d - i,
    {
        let a = digit(x, bits, i);
        let b = digit(y, bits, i);
        if a != b {
            proof {
                assert(digits_lt(x, y, bits, d, i) == (a < b));
            }
            return a < b;
        }
        i = i + 1;
    }
    x < y
}

/// Sorts histogram words by `hist_lt`, by insertion.
pub fn sort_histograms(v: &mut Vec<u32>, bits: u32, d: u32)
    requires
        bits <= 3,
        d <= 4,
    ensures
        final(v).len() == old(v).len(),
        sorted_by(final(v)@, hist_le_order(bits, d)),
        final(v)@.to_multiset() == old(v)@.to_multiset(),
{
    let ghost le = hist_le_order(bits, d);
    proof {
        lemma_hist_total(bits, d);
    }
    let ghost v0 = v@;
    let ghost n = v.len();
    if v.len() < 2 {
        return;
    }
    let mut i: usize = 1;
    while i < v.len()
        invariant
            bits <= 3,
            d <= 4,
            le == hist_le_order(bits, d),
            total_ordering(le),
            1 <= i <= v.len(),
            forall|a: int, b: int| 0 <= a < b < i ==> #[trigger] le(v@[a], v@[b]),
            v@.to_multiset() == v0.to_multiset(),
            v.len() == n,
        decreases n - i,
    {
        let mut j = i;
        loop
            invariant
                bits <= 3,
                d <= 4,
                le == hist_le_order(bits, d),
                total_ordering(le),
                0 <= j <= i < v.len(),
                forall|a: int, b: int| 0 <= a < b < j ==> #[trigger] le(v@[a], v@[b]),
                forall|a: int, b: int| j <= a < b <= i ==> #[trigger] le(v@[a], v@[b]),
                forall|a: int, b: int| 0 <= a < j && j < b <= i ==> #[trigger] le(v@[a], v@[b]),
                v@.to_multiset() == v0.to_multiset(),
                v.len() == n,
            ensures
                0 <= j <= i < v.len(),
                forall|a: int, b: int| 0 <= a < b < j ==> #[trigger] le(v@[a], v@[b]),
                forall|a: int, b: int| j <= a < b <= i ==> #[trigger] le(v@[a], v@[b]),
                forall|a: int, b: int| 0 <= a < j && j < b <= i ==> #[trigger] le(v@[a], v@[b]),
                v@.to_multiset() == v0.to_multiset(),
                v.len() == n,
                j > 0 ==> le(v@[j - 1], v@[j as int]),
            decreases j,
        {
            if j == 0 {
                break;
            }
            if !hist_less(v[j], v[j - 1], bits, d) {
                proof {
                    assert(le(v@[j - 1], v@[j as int])) by {
                        lemma_digits_lt(v@[j - 1], v@[j as int], v@[j as int], bits, d, 0);
                    }
                }
                break;
            }
            let ghost s = v@;
            let t = v[j - 1];
            let u = v[j];
            proof {
                assert(le(u, t));
            }
            v.set(j - 1, u);
            v.set(j, t);
            proof {
                lemma_swap_multiset(s, j - 1, j as int);
                assert(v@ =~= s.update(j - 1, s[j as int]).update(j as int, s[j - 1]));
                assert forall|a: int, b: int| 0 <= a < b < j - 1 implies #[trigger] le(v@[a], v@[b]) by {
                    assert(le(s[a], s[b]));
                }
                assert forall|a: int, b: int| j - 1 <= a < b <= i implies #[trigger] le(v@[a], v@[b]) by {
                    if a == j - 1 && b == j {
                    } else if a == j - 1 {
                        assert(le(s[j as int], s[b]));
                    } else if a == j {
                        assert(le(s[j - 1], s[b]));
                    } else {
                        assert(le(s[a], s[b]));
                    }
                }
                assert forall|a: int, b: int| 0 <= a < j - 1 && j - 1 < b <= i implies #[trigger] le(v@[a], v@[b]) by {
                    if b == j {
                        assert(le(s[a], s[j - 1]));
                    } else {
                        assert(le(s[a], s[b]));
                    }
                }
            }
            j -= 1;
        }
        proof {
            assert forall|a: int, b: int| 0 <= a < b < i + 1 implies #[trigger] le(v@[a], v@[b]) by {
                if a < j && b == j {
                    if a < j - 1 {
                        assert(le(v@[a], v@[j - 1]));
                        assert(le(v@[j - 1], v@[j as int]));
                    }
                }
            }
        }
        i += 1;
    }
}

} // verus!
