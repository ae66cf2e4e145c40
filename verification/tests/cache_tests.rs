use bitmotif::cache::{cache_bytes, groups_from_cache, load_groups};
use bitmotif::motif::CompactMotif;

fn motif(w: u32) -> CompactMotif<5> {
    CompactMotif::<5>::new(w)
}

#[test]
fn groups_keyed_by_first_fingerprint() {
    let entries = vec![(0usize, vec![0b11u32, 0b101]), (1usize, vec![1u32 << 25])];
    let groups = groups_from_cache(entries).unwrap();
    assert_eq!(groups.len(), 2);
    let words: Vec<u32> = groups[0].1.iter().map(|m| m.container()).collect();
    assert_eq!(words, vec![0b11, 0b101]);
    assert!(groups[0].0 == motif(0b11).fingerprint());
    assert!(groups[1].0 == motif(1 << 25).fingerprint());
}

#[test]
fn groups_refused() {
    assert!(groups_from_cache(vec![(0usize, vec![1u32]), (1usize, vec![])]).is_none());
    assert!(groups_from_cache(vec![(0usize, vec![1u32 << 26])]).is_none());
    assert!(groups_from_cache(vec![]).unwrap().is_empty());
}

#[test]
fn cache_round_trip() {
    let groups = vec![vec![motif(0b11), motif(0b101)], vec![motif(1 << 10)]];
    let bytes = cache_bytes(&groups).unwrap();
    let loaded = load_groups(&bytes).unwrap();
    assert_eq!(loaded.len(), 2);
    for (g, (key, motifs)) in groups.iter().zip(loaded.iter()) {
        let a: Vec<u32> = g.iter().map(|m| m.container()).collect();
        let b: Vec<u32> = motifs.iter().map(|m| m.container()).collect();
        assert_eq!(a, b);
        assert!(*key == g[0].fingerprint());
    }
}

#[test]
fn cache_of_garbage() {
    assert!(load_groups(&vec![1u8, 2, 3]).is_none());
}
