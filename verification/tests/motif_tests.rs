use bitmotif::motif::CompactMotif;
use bitmotif::node_set::CompressedNodeSet;
use bitmotif::tables::{generate_bitmask4, generate_bitmask5};

fn edges_of<const N: usize>(m: &CompactMotif<N>) -> Vec<usize> {
    let mut it = m.iter_edges();
    let mut v = Vec::new();
    while let Some(e) = it.next() {
        v.push(e);
    }
    v
}

#[test]
fn motif_edges_and_counts() {
    let mut m = CompactMotif::<4>::new(0b101);
    assert_eq!(m.edge_count(), 2);
    assert_eq!(edges_of(&m), vec![0, 2]);
    m.add_edge(10);
    assert_eq!(m.container(), 0b100_0000_0101);
    m.remove_edge(0);
    assert_eq!(edges_of(&m), vec![2, 10]);
    assert!(!m.is_empty());
    assert!(CompactMotif::<4>::new(0).is_empty());
}

#[test]
fn motif_one_and_zero_words() {
    // `one` yields the empty word and `zero` the word of edge 0, as the tables were built.
    assert_eq!(CompactMotif::<4>::one().container(), 0);
    assert_eq!(CompactMotif::<4>::zero().container(), 1);
}

#[test]
fn motif_bit_operations() {
    let a = CompactMotif::<5>::new(0b1100);
    let b = CompactMotif::<5>::new(0b1010);
    assert_eq!(a.bitor(b).container(), 0b1110);
    assert_eq!(a.bitand(b).container(), 0b1000);
    assert_eq!(a.shl(2).container(), 0b110000);
    assert_eq!(a.shr(2).container(), 0b11);
    let mut c = a;
    c.const_bitor_assign(b);
    assert_eq!(c.container(), 0b1110);
    c.bitand_assign(b);
    assert_eq!(c.container(), 0b1010);
    c.shl_assign(1);
    assert_eq!(c.container(), 0b10100);
    c.shr_assign(3);
    assert_eq!(c.container(), 0b10);
}

#[test]
fn motif_shift_truncates_to_word() {
    let a = CompactMotif::<4>::new(0x8000);
    assert_eq!(a.shl(1).container(), 0);
}

#[test]
fn tables_of_order_four() {
    let (adj, full, part, node_map) = generate_bitmask4();
    assert_eq!(node_map.len(), 11);
    let words: Vec<u8> = node_map.iter().map(|s| s.nodes).collect();
    assert_eq!(
        words,
        vec![0b0011, 0b0101, 0b1001, 0b0110, 0b1010, 0b1100, 0b0111, 0b1011, 0b1101, 0b1110, 0b1111]
    );
    // node 0 lies in edges 0, 1, 2, 6, 7, 8, 10
    assert_eq!(adj[0].container(), 0b101_1100_0111);
    // edge 6 = {0,1,2} holds edges 0, 1, 3 and itself
    assert_eq!(full[6].container(), 0b100_1011);
    // edge 0 = {0,1} meets every edge with node 0 or 1
    assert_eq!(part[0].container(), 0b111_1101_1111);
    assert_eq!(CompactMotif::<4>::max_edge_count(), 11);
    assert_eq!(CompactMotif::<5>::max_edge_count(), 26);
}

#[test]
fn tables_of_order_five() {
    let (_adj, full, _part, node_map) = generate_bitmask5();
    assert_eq!(node_map.len(), 26);
    assert_eq!(node_map[25].nodes, 0b11111);
    assert_eq!(node_map[10].nodes, 0b00111);
    // the edge of all five nodes holds every edge
    assert_eq!(full[25].container(), (1u32 << 26) - 1);
}

#[test]
fn motif_nodes_and_vec() {
    let m = CompactMotif::<4>::new(0b100_0000_0001);
    assert_eq!(m.to_vec(), vec![vec![0, 1], vec![0, 1, 2, 3]]);
    let mut it = m.iter_nodes();
    let first: CompressedNodeSet = it.next().unwrap();
    assert_eq!(first.nodes, 0b0011);
    assert_eq!(it.next().unwrap().nodes, 0b1111);
    assert!(it.next().is_none());
}

#[test]
fn motif_overlaps() {
    let m = CompactMotif::<4>::new((1 << 11) - 1);
    // inside {0,1,2}: edges 0, 1, 3, 6
    assert_eq!(m.full_ovelaps(6).container(), 0b100_1011);
    let m2 = CompactMotif::<4>::new(0b10_0000);
    // edge 5 = {2,3} does not meet edge 0 = {0,1}
    assert_eq!(m2.part_ovelaps(0).container(), 0);
}

#[test]
fn connectivity_of_motifs() {
    // {0,1} and {1,2} on three nodes
    assert!(CompactMotif::<3>::new(0b101).is_connected());
    // {0,1} alone does not cover node 2
    assert!(!CompactMotif::<3>::new(0b1).is_connected());
    // {0,1} and {2,3} cover four nodes but are apart
    assert!(!CompactMotif::<4>::new(0b10_0001).is_connected());
    assert!(!CompactMotif::<4>::new(0).is_connected());
}

fn count_labelings<const N: usize>() -> usize {
    let mut count = 0;
    let mut start = 0u32;
    while let Some(m) = CompactMotif::<N>::next_connected_labeling(start) {
        count += 1;
        start = m.container() + 1;
    }
    count
}

#[test]
fn connected_labelings_of_order_three() {
    assert_eq!(CompactMotif::<3>::labeling_count(), 16);
    assert_eq!(count_labelings::<3>(), 12);
}

#[test]
fn connected_labelings_of_order_four() {
    assert_eq!(count_labelings::<4>(), 1990);
}
