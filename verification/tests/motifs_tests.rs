use std::cmp::Ordering;
use bitmotif::collections::motif_classes_len;
use bitmotif::hypergraph::{decode_mask, is_mask_connected};
use bitmotif::motifs::{
    class_keys, class_member_count, class_members, enum_isomorphisms, generate_motifs, get_canonical_representative, Hyperedge, Motif,
};

#[test]
fn hyperedge_sorts_its_nodes() {
    let a = Hyperedge::new(vec![3, 1, 2]);
    let b = Hyperedge::new(vec![1, 2, 3]);
    assert!(a == b);
    assert!(a != Hyperedge::new(vec![1, 2]));
}

#[test]
fn motif_sorts_its_edges() {
    let a = Motif::from_vec(vec![vec![2, 1], vec![0, 3]]);
    let b = Motif::from_vec(vec![vec![0, 3], vec![1, 2]]);
    assert!(a == b);
    let c = Motif::new(vec![Hyperedge::new(vec![1, 2]), Hyperedge::new(vec![0, 3])]);
    assert!(a == c);
    assert!(a != Motif::from_vec(vec![vec![0, 3]]));
}

#[test]
fn mask_connectivity() {
    let edges = vec![vec![1, 2], vec![2, 3], vec![1, 3]];
    assert!(is_mask_connected(0b011, &edges, 3));
    assert!(!is_mask_connected(0b001, &edges, 3));
    assert!(is_mask_connected(0b001, &edges, 2));
    let apart = vec![vec![1, 2], vec![3, 4]];
    assert!(!is_mask_connected(0b11, &apart, 4));
    // two nodes, but not node 1
    let far = vec![vec![2, 3]];
    assert!(!is_mask_connected(0b1, &far, 2));
}

#[test]
fn mask_decoding() {
    let edges = vec![vec![2, 3], vec![1, 2], vec![1, 3]];
    assert_eq!(decode_mask(0b101, &edges), vec![vec![1, 3], vec![2, 3]]);
    assert_eq!(decode_mask(0, &edges), Vec::<Vec<usize>>::new());
}

#[test]
fn canonical_representative_of_a_path() {
    let g = vec![vec![2, 3], vec![1, 2]];
    assert_eq!(get_canonical_representative(&g, Some(3)), vec![vec![1, 2], vec![1, 3]]);
    assert_eq!(get_canonical_representative(&g, None), vec![vec![1, 2], vec![1, 3]]);
}

#[test]
fn isomorphisms_of_an_edge() {
    let g = vec![vec![1, 2]];
    let isos = enum_isomorphisms(&g, None);
    assert_eq!(isos, vec![vec![vec![1, 2]], vec![vec![1, 2]]]);
    let h = vec![vec![1, 2], vec![2, 3]];
    let all = enum_isomorphisms(&h, Some(3));
    assert_eq!(all.len(), 6);
    assert!(all.contains(&vec![vec![1, 3], vec![2, 3]]));
}

#[test]
fn motif_classes_of_order_three() {
    let classes = generate_motifs(3);
    assert_eq!(motif_classes_len(&classes), 6);
    let path = Motif::from_vec(vec![vec![0, 1], vec![0, 2]]);
    assert_eq!(class_member_count(&classes, &path), Some(6));
    let lone = Motif::from_vec(vec![vec![1, 2]]);
    assert_eq!(class_member_count(&classes, &lone), None);
}

#[test]
fn motif_classes_of_order_four() {
    let classes = generate_motifs(4);
    assert_eq!(motif_classes_len(&classes), 171);
}

#[test]
fn hyperedge_order() {
    let small = Hyperedge::new(vec![2, 3]);
    let big = Hyperedge::new(vec![0, 1, 2]);
    assert_eq!(small.partial_cmp(&big), Some(Ordering::Less));
    assert_eq!(big.partial_cmp(&small), Some(Ordering::Greater));
    let a = Hyperedge::new(vec![0, 2]);
    let b = Hyperedge::new(vec![0, 1]);
    assert_eq!(a.partial_cmp(&b), Some(Ordering::Greater));
    assert_eq!(a.partial_cmp(&Hyperedge::new(vec![2, 0])), Some(Ordering::Equal));
}

#[test]
fn motif_order() {
    let a = Motif::from_vec(vec![vec![0, 1], vec![1, 2]]);
    let b = Motif::from_vec(vec![vec![0, 1], vec![0, 1, 2]]);
    assert_eq!(a.partial_cmp(&b), Some(Ordering::Less));
    let c = Motif::from_vec(vec![vec![0, 1]]);
    assert_eq!(c.partial_cmp(&a), Some(Ordering::Less));
    assert_eq!(a.partial_cmp(&a), Some(Ordering::Equal));
}

#[test]
fn isomorphic_hypergraphs_share_a_representative() {
    let g = vec![vec![1, 2, 3], vec![3, 4]];
    let h = vec![vec![2, 3, 4], vec![1, 4]];
    let k = vec![vec![1, 2], vec![1, 3, 4]];
    let rep = get_canonical_representative(&g, Some(4));
    assert_eq!(rep, vec![vec![1, 2], vec![1, 3, 4]]);
    assert_eq!(get_canonical_representative(&h, Some(4)), rep);
    assert_eq!(get_canonical_representative(&k, Some(4)), rep);
    let other = vec![vec![1, 2, 3], vec![1, 2]];
    assert_ne!(get_canonical_representative(&other, Some(4)), rep);
}

#[test]
fn isomorphisms_in_order_of_the_arrangements() {
    let g = vec![vec![1, 2]];
    let isos = enum_isomorphisms(&g, Some(3));
    assert_eq!(
        isos,
        vec![
            vec![vec![1, 2]],
            vec![vec![1, 3]],
            vec![vec![1, 2]],
            vec![vec![2, 3]],
            vec![vec![1, 3]],
            vec![vec![2, 3]],
        ]
    );
}

#[test]
fn motif_edges_shortest_first() {
    // stored as [[5, 6], [0, 1, 2]] and [[4, 7], [0, 1, 3]]
    let a = Motif::from_vec(vec![vec![0, 1, 2], vec![5, 6]]);
    let b = Motif::from_vec(vec![vec![0, 1, 3], vec![4, 7]]);
    assert_eq!(a.partial_cmp(&b), Some(Ordering::Greater));
}

#[test]
fn motif_classes_can_be_read() {
    let classes = generate_motifs(3);
    let keys = class_keys(&classes);
    assert_eq!(keys.len(), 6);
    let mut total = 0;
    for k in keys.iter() {
        let members = class_members(&classes, k).unwrap();
        assert_eq!(Some(members.len()), class_member_count(&classes, k));
        total += members.len();
    }
    assert_eq!(total, 6 * 6);
    let path = Motif::from_vec(vec![vec![0, 1], vec![0, 2]]);
    let members = class_members(&classes, &path).unwrap();
    assert!(members.contains(&Motif::from_vec(vec![vec![1, 2], vec![0, 1]])));
    assert!(class_members(&classes, &Motif::from_vec(vec![vec![1, 2]])).is_none());
}
