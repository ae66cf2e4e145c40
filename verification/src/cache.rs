//! The cache file of the order-5 groups: each group of motifs is saved as the
//! words of its motifs, in rkyv's archive of a list of `(index, words)` pairs,
//! and read back keyed by the fingerprint of its first motif.

use vstd::prelude::*;

verus! {

use vstd::set_lib::set_int_range;
use crate::bits::lemma_bit32_bound;
use crate::motif::CompactMotif;
use crate::motif_ops::edge_range;
use crate::tables::{lemma_edge_totals, edge_total};
use crate::fingerprint5::{Fingerprint5, is_fingerprint5_of};

/// The list of `(index, words)` pairs that the bytes of a cache file hold,
/// read as rkyv's archive of such a list; `None` where they hold none.
pub uninterp spec fn cache_entries(bytes: Seq<u8>) -> Option<Seq<(usize, Seq<u32>)>>;

/// A list of `(index, words)` pairs, each list of words as a sequence.
pub open spec fn entries_view(v: Seq<(usize, Vec<u32>)>) -> Seq<(usize, Seq<u32>)> {
    v.map_values(|e: (usize, Vec<u32>)| (e.0, e.1@))
}

/// The words of a list of motifs.
pub open spec fn motif_words(s: Seq<CompactMotif<5>>) -> Seq<u32> {
    s.map_values(|m: CompactMotif<5>| m.bits())
}

/// Every list is nonempty and holds only words of motifs of order 5.
pub open spec fn entries_valid(e: Seq<(usize, Seq<u32>)>) -> bool {
    forall|i: int|
        0 <= i < e.len() ==> (#[trigger] e[i]).1.len() > 0 && forall|j: int|
            0 <= j < e[i].1.len() ==> #[trigger] e[i].1[j] < 0x400_0000u32
}

/// `g` holds the groups of the list `e`: for each entry, its words as motifs,
/// keyed by the fingerprint of the first.
pub open spec fn are_groups_of(g: Seq<(Fingerprint5, Vec<CompactMotif<5>>)>, e: Seq<(usize, Seq<u32>)>) -> bool {
    &&& g.len() == e.len()
    &&& forall|i: int|
        0 <= i < g.len() ==> {
            &&& motif_words((#[trigger] g[i]).1@) == e[i].1
            &&& g[i].1@.len() > 0
            &&& is_fingerprint5_of(g[i].0, g[i].1@[0]@)
        }
}

/// The cache list of `groups`: entry `i` is `(i, words of group i)`.
pub open spec fn cache_list_of(groups: Seq<Seq<u32>>) -> Seq<(usize, Seq<u32>)> {
    Seq::new(groups.len(), |i: int| (i as usize, groups[i]))
}

/// A bound on the size of the archive of a list of `(index, words)` pairs:
/// 16 bytes for the list, and for each entry 16 bytes and 4 per word.
pub open spec fn cache_size(e: Seq<(usize, Seq<u32>)>) -> int
    decreases e.len(),
{
    if e.len() == 0 {
        16
    } else {
        cache_size(e.drop_last()) + 16 + 4 * e.last().1.len()
    }
}

/// The archive of `e` can be written: every index fits the 32 bits in which
/// rkyv stores a `usize`, and the archive stays far below the 2^31 bytes that
/// its relative offsets reach.
pub open spec fn cache_fits(e: Seq<(usize, Seq<u32>)>) -> bool {
    &&& forall|i: int| 0 <= i < e.len() ==> (#[trigger] e[i]).0 <= u32::MAX
    &&& cache_size(e) <= 0x1000_0000
}

/// `rkyv::from_bytes` on the bytes of a cache file, first copied into rkyv's
/// 16-aligned buffer, read as a list of `(index, words)` pairs: the list
/// that the bytes hold, or `None` where they hold none.
#[verifier::external_body]
fn decode_cache(bytes: &Vec<u8>) -> (r: Option<Vec<(usize, Vec<u32>)>>)
    ensures
        r matches Some(v) ==> cache_entries(bytes@) == Some(entries_view(v@)),
        r is None ==> cache_entries(bytes@) is None,
{
    let mut aligned = rkyv::util::AlignedVec::<16>::new();
    aligned.extend_from_slice(bytes);
    rkyv::from_bytes::<Vec<(usize, Vec<u32>)>, rkyv::rancor::Error>(&aligned).ok()
}

/// `rkyv::to_bytes` on a list of `(index, words)` pairs, copied out of its
/// aligned buffer. On a list that fits (see `cache_fits`) the serializer
/// reports no error (its writer and arena only allocate), and, as rkyv
/// documents, `from_bytes` reads the list back from these bytes. A larger
/// archive would make it panic on a relative offset, and an index above
/// `u32::MAX` would be cut to 32 bits: both are left out.
#[verifier::external_body]
fn encode_cache(entries: &Vec<(usize, Vec<u32>)>) -> (r: Option<Vec<u8>>)
    requires
        cache_fits(entries_view(entries@)),
    ensures
        r is Some,
        r matches Some(b) ==> cache_entries(b@) == Some(entries_view(entries@)),
{
    match rkyv::to_bytes::<rkyv::rancor::Error>(entries) {
        Ok(b) => Some(b.to_vec()),
        Err(_) => None,
    }
}

/// The groups of a cache list: for each entry, its words as motifs of order
/// 5, keyed by the fingerprint of the first; `None` where a list is empty or
/// holds a word of no motif of order 5.
pub fn groups_from_cache(entries: Vec<(usize, Vec<u32>)>) -> (r: Option<Vec<(Fingerprint5, Vec<CompactMotif<5>>)>>)
    ensures
        r is Some <==> entries_valid(entries_view(entries@)),
        r matches Some(g) ==> are_groups_of(g@, entries_view(entries@)),
{
    let ghost ev = entries_view(entries@);
    let mut groups: Vec<(Fingerprint5, Vec<CompactMotif<5>>)> = Vec::new();
    let mut i: usize = 0;
    proof {
        lemma_edge_totals();
    }
    while i < entries.len()
        invariant
            i <= entries.len(),
            ev == entries_view(entries@),
            ev.len() == entries.len(),
            edge_total(5) == 26,
            entries_valid(ev.subrange(0, i as int)),
            are_groups_of(groups@, ev.subrange(0, i as int)),
        decreases entries.len() - i,
    {
        let words = &entries[i].1;
        if words.len() == 0 {
            proof {
                assert(ev[i as int].1.len() == 0);
            }
            return None;
        }
        let mut motifs: Vec<CompactMotif<5>> = Vec::new();
        let mut j: usize = 0;
        while j < words.len()
            invariant
                j <= words.len(),
                i < entries.len(),
                ev == entries_view(entries@),
                ev.len() == entries.len(),
                words@ == ev[i as int].1,
                motif_words(motifs@) == words@.subrange(0, j as int),
                forall|t: int| 0 <= t < j ==> #[trigger] words@[t] < 0x400_0000u32,
            decreases words.len() - j,
        {
            let w = words[j];
            if w >= 0x400_0000u32 {
                proof {
                    assert(!entries_valid(ev)) by {
                        assert(ev[i as int].1[j as int] == w);
                    }
                }
                return None;
            }
            let ghost before = motifs@;
            motifs.push(CompactMotif::<5>::new(w));
            proof {
                assert(motif_words(motifs@) =~= motif_words(before).push(w));
                assert(words@.subrange(0, j + 1) =~= words@.subrange(0, j as int).push(w));
            }
            j += 1;
        }
        proof {
            assert(words@.subrange(0, words.len() as int) =~= words@);
            assert(motifs@[0].bits() == words@[0]);
            lemma_bit32_bound(motifs@[0].bits(), 26);
            vstd::arithmetic::power2::lemma2_to64();
            vstd::bits::lemma_u32_shl_is_mul(1u32, 26u32);
            assert(set_int_range(0, 26) =~= edge_range(5));
        }
        let key = Fingerprint5::from(motifs[0]);
        let ghost g0 = groups@;
        groups.push((key, motifs));
        proof {
            let sub = ev.subrange(0, i + 1);
            assert(ev.subrange(0, i as int) =~= sub.subrange(0, i as int));
            assert forall|k: int| 0 <= k < groups@.len() implies {
                &&& motif_words((#[trigger] groups@[k]).1@) == sub[k].1
                &&& groups@[k].1@.len() > 0
                &&& is_fingerprint5_of(groups@[k].0, groups@[k].1@[0]@)
            } by {
                if k < i {
                    assert(groups@[k] == g0[k]);
                    assert(sub[k] == ev.subrange(0, i as int)[k]);
                }
            }
            assert forall|k: int| 0 <= k < sub.len() implies (#[trigger] sub[k]).1.len() > 0 && forall|t: int|
                0 <= t < sub[k].1.len() ==> #[trigger] sub[k].1[t] < 0x400_0000u32 by {
                if k < i {
                    assert(sub[k] == ev.subrange(0, i as int)[k]);
                }
            }
        }
        i += 1;
    }
    proof {
        assert(ev.subrange(0, entries.len() as int) =~= ev);
    }
    Some(groups)
}

/// Reads the groups back from the bytes of a cache file: `Some` exactly
/// where the bytes hold a cache list whose lists are nonempty and hold words
/// of motifs of order 5, and then the groups of that list.
pub fn load_groups(bytes: &Vec<u8>) -> (r: Option<Vec<(Fingerprint5, Vec<CompactMotif<5>>)>>)
    ensures
        r is Some <==> (cache_entries(bytes@) matches Some(e) && entries_valid(e)),
        r matches Some(g) ==> (cache_entries(bytes@) matches Some(e) && are_groups_of(g@, e)),
{
    match decode_cache(bytes) {
        Some(entries) => {
            let ghost e = entries_view(entries@);
            let r = groups_from_cache(entries);
            proof {
                if r is Some {
                    assert(are_groups_of(r->Some_0@, e));
                }
            }
            r
        },
        None => None,
    }
}

/// The bytes of the cache file of `groups`: the archive of the list whose
/// entry `i` is `(i, words of group i)`. The list must fit (see `cache_fits`).
pub fn cache_bytes(groups: &Vec<Vec<CompactMotif<5>>>) -> (r: Option<Vec<u8>>)
    requires
        cache_fits(cache_list_of(groups@.map_values(|v: Vec<CompactMotif<5>>| motif_words(v@)))),
    ensures
        r matches Some(b) && cache_entries(b@) == Some(
            cache_list_of(groups@.map_values(|v: Vec<CompactMotif<5>>| motif_words(v@))),
        ),
{
    let ghost gw = groups@.map_values(|v: Vec<CompactMotif<5>>| motif_words(v@));
    let mut entries: Vec<(usize, Vec<u32>)> = Vec::new();
    let mut i: usize = 0;
    while i < groups.len()
        invariant
            i <= groups.len(),
            gw.len() == groups.len(),
            gw == groups@.map_values(|v: Vec<CompactMotif<5>>| motif_words(v@)),
            entries_view(entries@) == cache_list_of(gw).subrange(0, i as int),
        decreases groups.len() - i,
    {
        let group = &groups[i];
        let mut words: Vec<u32> = Vec::new();
        let mut j: usize = 0;
        while j < group.len()
            invariant
                j <= group.len(),
                words@ == motif_words(group@).subrange(0, j as int),
            decreases group.len() - j,
        {
            let ghost before = words@;
            words.push(group[j].container());
            proof {
                assert(words@ =~= motif_words(group@).subrange(0, j + 1));
            }
            j += 1;
        }
        proof {
            assert(words@ =~= gw[i as int]);
        }
        let ghost e0 = entries@;
        let ghost wv = words@;
        entries.push((i, words));
        proof {
            assert(entries_view(entries@) =~= entries_view(e0).push((i, wv)));
            assert(cache_list_of(gw)[i as int] == (i, gw[i as int]));
            assert(cache_list_of(gw).subrange(0, i + 1) =~= cache_list_of(gw).subrange(0, i as int).push((i, gw[i as int])));
        }
        i += 1;
    }
    proof {
        assert(cache_list_of(gw).subrange(0, groups.len() as int) =~= cache_list_of(gw));
    }
    encode_cache(&entries)
}

/// What is saved is read back: where the bytes hold the cache list of
/// `groups`, each nonempty and made of words of motifs of order 5, the list
/// is valid (so the groups load), and any groups loaded from it hold the
/// motifs of `groups`, group by group and in order.
pub proof fn lemma_cache_round_trip(
    groups: Seq<Seq<u32>>,
    bytes: Seq<u8>,
    loaded: Seq<(Fingerprint5, Vec<CompactMotif<5>>)>,
)
    requires
        forall|i: int| 0 <= i < groups.len() ==> (#[trigger] groups[i]).len() > 0 && forall|j: int|
            0 <= j < groups[i].len() ==> #[trigger] groups[i][j] < 0x400_0000u32,
        cache_entries(bytes) == Some(cache_list_of(groups)),
    ensures
        entries_valid(cache_list_of(groups)),
        are_groups_of(loaded, cache_list_of(groups)) ==> {
            &&& loaded.len() == groups.len()
            &&& forall|i: int| 0 <= i < loaded.len() ==> motif_words((#[trigger] loaded[i]).1@) == groups[i]
        },
{
    let e = cache_list_of(groups);
    assert forall|i: int| 0 <= i < e.len() implies (#[trigger] e[i]).1.len() > 0 && forall|j: int|
        0 <= j < e[i].1.len() ==> #[trigger] e[i].1[j] < 0x400_0000u32 by {
        assert(e[i].1 == groups[i]);
    }
    if are_groups_of(loaded, e) {
        assert forall|i: int| 0 <= i < loaded.len() implies motif_words((#[trigger] loaded[i]).1@) == groups[i] by {
            assert(e[i].1 == groups[i]);
        }
    }
}

} // verus!
