use bitmotif::node_set::CompressedNodeSet;

#[test]
fn node_set_len_and_contains() {
    let s = CompressedNodeSet::new(0b1011);
    assert_eq!(s.len(), 3);
    assert!(s.contains(0));
    assert!(s.contains(1));
    assert!(!s.contains(2));
    assert!(s.contains(3));
    assert!(!s.contains(7));
}

#[test]
fn node_set_iter_in_increasing_order() {
    let s = CompressedNodeSet::new(0b1010_0110);
    let mut it = s.iter();
    assert_eq!(it.size_hint(), (4, Some(4)));
    let mut got = Vec::new();
    while let Some(v) = it.next() {
        got.push(v);
    }
    assert_eq!(got, vec![1, 2, 5, 7]);
    assert_eq!(it.next(), None);
}

#[test]
fn node_set_bitand() {
    let a = CompressedNodeSet::new(0b1100);
    let b = CompressedNodeSet::new(0b0110);
    assert_eq!(a.bitand(b).nodes, 0b0100);
    assert_eq!(CompressedNodeSet::new(0).len(), 0);
}
