use bitmotif::fingerprint5::Fingerprint5;
use bitmotif::motif::CompactMotif;

#[test]
fn fingerprint4_of_isomorphic_motifs_agree() {
    // {0,1} inside {0,1,2}, and the same with node 0 renamed 3
    let a = CompactMotif::<4>::new((1 << 0) | (1 << 6)).fingerprint();
    let b = CompactMotif::<4>::new((1 << 4) | (1 << 9)).fingerprint();
    assert!(a == b);
    assert_eq!(a.hash_key(), b.hash_key());
}

#[test]
fn fingerprint4_values() {
    let a = CompactMotif::<4>::new((1 << 0) | (1 << 6)).fingerprint();
    let mut expected = vec![10, 1, 0, 0, 0, 0, 0, 0, 0, 0, 0];
    expected.extend_from_slice(&[0, 4, 5, 5]);
    assert_eq!(a.hash_key(), expected);
}

#[test]
fn fingerprint4_tells_apart() {
    // {0,1} with {0,2,3}: the pair is no longer inside the triple
    let a = CompactMotif::<4>::new((1 << 0) | (1 << 6)).fingerprint();
    let c = CompactMotif::<4>::new((1 << 0) | (1 << 8)).fingerprint();
    assert!(a != c);
}

#[test]
fn fingerprint5_of_isomorphic_motifs_agree() {
    // {0,1}, {0,1,2}, {2,3,4}; then nodes 0 and 4 swapped
    let a = CompactMotif::<5>::new((1 << 0) | (1 << 10) | (1 << 19)).fingerprint();
    let b = CompactMotif::<5>::new((1 << 6) | (1 << 13) | (1 << 17)).fingerprint();
    assert!(a == b);
    assert_eq!(a.hash_key(), b.hash_key());
    let key = a.hash_key();
    // degree 1 first, then degree 2 with fewer pairs first
    assert_eq!(&key[0..5], &[8, 8, 16, 9, 9]);
}

#[test]
fn fingerprint5_tells_apart() {
    let a = CompactMotif::<5>::new((1 << 0) | (1 << 10) | (1 << 19)).fingerprint();
    let c = CompactMotif::<5>::new((1 << 0) | (1 << 10) | (1 << 18)).fingerprint();
    assert!(a != c);
}

#[test]
fn fingerprint5_built_in_steps() {
    let m = CompactMotif::<5>::new((1 << 0) | (1 << 10) | (1 << 19));
    let mut f = Fingerprint5::new();
    assert_eq!(f.hash_key(), vec![0, 0, 0, 0, 0]);
    f.build_order_map(&m);
    f.build_edge_connection_map(&m);
    assert!(f == Fingerprint5::from(m));
    // one entry for the pair and one for each triple
    assert_eq!(f.hash_key().len(), 5 + 1 + 2);
}

#[test]
fn fingerprint5_of_the_full_motif() {
    let m = CompactMotif::<5>::new((1 << 26) - 1);
    let f = m.fingerprint();
    // every node lies in 4 pairs, 6 triples, 4 quadruples and the full edge
    assert_eq!(&f.hash_key()[0..5], &[820, 820, 820, 820, 820]);
    assert_eq!(f.hash_key().len(), 5 + 10 + 10 + 5);
}

#[test]
fn fingerprint4_histograms_by_degree() {
    // {0,1}, {0,2}, {1,2,3}: node 3 has degree 1; among the others,
    // one pair and one triple come before two pairs
    let a = CompactMotif::<4>::new((1 << 0) | (1 << 1) | (1 << 9)).fingerprint();
    let key = a.hash_key();
    assert_eq!(&key[11..15], &[4, 5, 5, 2]);
}

#[test]
fn fingerprint5_histograms_by_degree() {
    // {0,1}, {0,2}, {2,3,4}
    let a = CompactMotif::<5>::new((1 << 0) | (1 << 1) | (1 << 19)).fingerprint();
    let key = a.hash_key();
    assert_eq!(&key[0..5], &[8, 8, 1, 9, 2]);
}
