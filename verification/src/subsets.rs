//! Subsets of a given size of a finite set.

use vstd::prelude::*;

verus! {

use crate::util::binom;
use vstd::relations::injective_on;

/// The subsets of `t` with exactly `s` members.
pub open spec fn subsets_of_size(t: Set<int>, s: nat) -> Set<Set<int>> {
    Set::new(|x: Set<int>| x.subset_of(t) && x.finite() && x.len() == s)
}

/// A finite set of `k` members has "`k` choose `s`" subsets of size `s`.
pub proof fn lemma_subsets_of_size_len(t: Set<int>, s: nat)
    requires
        t.finite(),
    ensures
        subsets_of_size(t, s).finite(),
        subsets_of_size(t, s).len() == binom(t.len(), s),
    decreases t.len(),
{
    broadcast use vstd::set::group_set_axioms;
    broadcast use vstd::set_lib::group_set_lib_default;
    if s == 0 {
        assert(subsets_of_size(t, 0) =~= set![Set::<int>::empty()]) by {
            assert forall|x: Set<int>| #[trigger] subsets_of_size(t, 0).contains(x) implies x
                == Set::<int>::empty() by {
                x.lemma_len0_is_empty();
            }
        }
        assert(set![Set::<int>::empty()].len() == 1);
    } else if t.len() == 0 {
        t.lemma_len0_is_empty();
        assert(subsets_of_size(t, s) =~= Set::<Set<int>>::empty()) by {
            assert forall|x: Set<int>| !#[trigger] subsets_of_size(t, s).contains(x) by {
                if subsets_of_size(t, s).contains(x) {
                    assert(x =~= Set::<int>::empty());
                }
            }
        }
    } else {
        let e = t.choose();
        let t1 = t.remove(e);
        lemma_subsets_of_size_len(t1, s);
        lemma_subsets_of_size_len(t1, (s - 1) as nat);
        let a = subsets_of_size(t1, s);
        let d = subsets_of_size(t1, (s - 1) as nat);
        let f = |y: Set<int>| y.insert(e);
        let b = d.map(f);
        assert(injective_on(f, d)) by {
            assert forall|y1: Set<int>, y2: Set<int>|
                d.contains(y1) && d.contains(y2) && #[trigger] f(y1) == #[trigger] f(y2) implies y1
                == y2 by {
                assert(!y1.contains(e) && !y2.contains(e));
                assert(y1 =~= f(y1).remove(e));
                assert(y2 =~= f(y2).remove(e));
            }
        }
        vstd::set_lib::lemma_map_size(d, b, f);
        assert(a.disjoint(b)) by {
            assert forall|x: Set<int>| a.contains(x) implies !b.contains(x) by {
                if b.contains(x) {
                    let y = choose|y: Set<int>| d.contains(y) && f(y) == x;
                    assert(x.contains(e));
                }
            }
        }
        assert(subsets_of_size(t, s) =~= a + b) by {
            assert forall|x: Set<int>| #[trigger] subsets_of_size(t, s).contains(x) implies (a
                + b).contains(x) by {
                if x.contains(e) {
                    let y = x.remove(e);
                    assert(d.contains(y));
                    assert(f(y) =~= x);
                } else {
                    assert(a.contains(x));
                }
            }
            assert forall|x: Set<int>| #[trigger] (a + b).contains(x) implies subsets_of_size(
                t,
                s,
            ).contains(x) by {
                if b.contains(x) {
                    let y = choose|y: Set<int>| d.contains(y) && f(y) == x;
                    assert(!y.contains(e));
                    assert(x.len() == s);
                }
            }
        }
        vstd::set_lib::lemma_set_disjoint_lens(a, b);
        assert(binom(t.len(), s) == binom(t1.len(), (s - 1) as nat) + binom(t1.len(), s));
    }
}

} // verus!
