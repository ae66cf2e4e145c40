use bitmotif::motif::CompactMotif;

fn words<const N: usize>(v: &[CompactMotif<N>]) -> Vec<u32> {
    let mut w: Vec<u32> = v.iter().map(|m| m.container()).collect();
    w.sort();
    w
}

#[test]
fn relabeling_moves_an_edge() {
    let node_map = CompactMotif::<4>::node_map();
    let edge01 = CompactMotif::<4>::new(1);
    assert_eq!(edge01.relabeled_by(&[1, 0, 2, 3], &node_map).container(), 1);
    assert_eq!(edge01.relabeled_by(&[2, 3, 0, 1], &node_map).container(), 1 << 5);
    let path = CompactMotif::<4>::new(0b1001);
    // edges {0,1} and {1,2} become {1,0} and {0,3}
    assert_eq!(path.relabeled_by(&[1, 0, 3, 2], &node_map).container(), 0b101);
}

#[test]
fn labelings_of_one_edge() {
    let m = CompactMotif::<3>::new(1);
    assert_eq!(words(&m.isomorphic_labelings()), vec![1, 2, 4]);
    assert_eq!(m.isomorphism_count(), 3);
    let e = CompactMotif::<4>::new(1);
    assert_eq!(words(&e.isomorphic_labelings()), vec![1, 2, 4, 8, 16, 32]);
}

#[test]
fn isomorphism_counts_of_order_four() {
    assert_eq!(CompactMotif::<4>::new(0).isomorphism_count(), 1);
    assert_eq!(CompactMotif::<4>::new(1 << 10).isomorphism_count(), 1);
    assert_eq!(CompactMotif::<4>::new(1).isomorphism_count(), 6);
    assert_eq!(CompactMotif::<4>::new(0b1001).isomorphism_count(), 12);
    assert_eq!(CompactMotif::<4>::new(0b111_1111_1111).isomorphism_count(), 1);
}

#[test]
fn isomorphism_count_of_order_five() {
    // one hyperedge on three of the five nodes
    assert_eq!(CompactMotif::<5>::new(1 << 10).isomorphism_count(), 10);
}

#[test]
fn one_motif_per_class() {
    let motifs: Vec<CompactMotif<3>> = [1u32, 2, 4, 8, 3, 5].iter().map(|&w| CompactMotif::<3>::new(w)).collect();
    let reps = CompactMotif::<3>::class_representatives(&motifs);
    let kept: Vec<u32> = reps.iter().map(|m| m.container()).collect();
    assert_eq!(kept, vec![1, 8, 3]);
    assert!(CompactMotif::<3>::class_representatives(&Vec::new()).is_empty());
}

#[test]
fn relabelings_of_a_relabeling_are_the_same() {
    let node_map = CompactMotif::<4>::node_map();
    let m = CompactMotif::<4>::new(0b100_0100_1001);
    let x = m.relabeled_by(&[3, 1, 0, 2], &node_map);
    assert_ne!(x.container(), m.container());
    assert_eq!(words(&x.isomorphic_labelings()), words(&m.isomorphic_labelings()));
    assert!(x.isomorphic_labelings().iter().any(|y| y.container() == m.container()));
}

#[test]
fn bucket_clash() {
    let e = CompactMotif::<4>::new(1);
    assert!(!e.bucket_clashes(6));
    assert!(e.bucket_clashes(7));
}
