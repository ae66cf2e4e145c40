use bitmotif::util::{
    binomial_coefficient, factorial, generate_permutations, max_hyperedge_count, BinPerm,
    FlatBinData, Permutator,
};

#[test]
fn factorial_values() {
    assert_eq!(factorial(0), 1);
    assert_eq!(factorial(1), 1);
    assert_eq!(factorial(5), 120);
    assert_eq!(factorial(10), 3628800);
}

#[test]
fn binomial_values() {
    assert_eq!(binomial_coefficient(5, 2), 10);
    assert_eq!(binomial_coefficient(5, 3), 10);
    assert_eq!(binomial_coefficient(5, 0), 1);
    assert_eq!(binomial_coefficient(5, 5), 1);
    assert_eq!(binomial_coefficient(3, 4), 0);
    assert_eq!(binomial_coefficient(30, 15), 155117520);
}

#[test]
fn hyperedge_counts() {
    assert_eq!(max_hyperedge_count(2, 2, 2), 1);
    assert_eq!(max_hyperedge_count(3, 2, 3), 4);
    assert_eq!(max_hyperedge_count(4, 2, 4), 11);
    assert_eq!(max_hyperedge_count(5, 2, 5), 26);
    assert_eq!(max_hyperedge_count(5, 3, 2), 0);
}

#[test]
fn bin_perm_values() {
    assert_eq!(BinPerm::new().container, 0);
    assert_eq!(BinPerm::from_usize(7).container, 7);
    assert_eq!(BinPerm::encode([0u8, 1, 2]).container, 5);
    assert_eq!(BinPerm::encode([2u8, 0, 1]).container, 1);
    assert_eq!(BinPerm::from_usize(0).decode::<3>(), [1u8, 2, 0]);
    assert_eq!(BinPerm::from_usize(3).decode::<3>(), [2u8, 1, 0]);
}

#[test]
fn bin_perm_round_trip() {
    for c in 0..24usize {
        let p = BinPerm::from_usize(c).decode::<4>();
        assert_eq!(BinPerm::encode(p).container, c);
    }
    let mut it = BinPerm::iter_all::<3>();
    let mut seen = Vec::new();
    while let Some(p) = it.next() {
        seen.push(p.container);
    }
    assert_eq!(seen, vec![0, 1, 2, 3, 4, 5]);
}

#[test]
fn heap_permutations_of_three() {
    let p = Permutator::<3>::get_permutations([0, 1, 2]);
    assert_eq!(
        p,
        [[0, 1, 2], [1, 0, 2], [2, 0, 1], [0, 2, 1], [1, 2, 0], [2, 1, 0]]
    );
}

#[test]
fn heap_permutations_are_distinct() {
    let p = Permutator::<5>::get_permutations([0, 1, 2, 3, 4]);
    let mut v: Vec<[u8; 5]> = p.to_vec();
    v.sort();
    v.dedup();
    assert_eq!(v.len(), 120);
    let q = Permutator::<2>::get_permutations([7, 9]);
    assert_eq!(q, [[7, 9], [9, 7]]);
    let r = Permutator::<4>::get_permutations([1, 2, 3, 4]);
    assert_eq!(r[0], [1, 2, 3, 4]);
    assert_eq!(r[1], [2, 1, 3, 4]);
}

#[test]
fn flat_bin_data_set_range() {
    let mut d = FlatBinData::<3>::from_array([0xff, 0xff, 0xff]);
    d.set_range(3, 0b1011_0101);
    assert_eq!(d.data, [175, 253, 255]);
    let mut e = FlatBinData::<3>::new();
    assert_eq!(e.data, [0, 0, 0]);
    e.set_range(12, 0xff);
    assert_eq!(e.data, [0, 240, 15]);
}

#[test]
fn heap_of_no_entries_does_nothing() {
    let mut arr = [3u8, 1, 2];
    let mut out = [[9u8; 3]; 2];
    let mut count = 1usize;
    generate_permutations(&mut arr, 0, &mut out, &mut count);
    assert_eq!(arr, [3, 1, 2]);
    assert_eq!(out, [[9, 9, 9], [9, 9, 9]]);
    assert_eq!(count, 1);
}

#[test]
fn heap_rounds_leave_array() {
    // odd k leaves the array, even k turns its first k entries right
    let mut arr = [0u8, 1, 2, 3];
    let mut out = [[0u8; 4]; 24];
    let mut count = 0usize;
    generate_permutations(&mut arr, 3, &mut out, &mut count);
    assert_eq!(arr, [0, 1, 2, 3]);
    assert_eq!(count, 6);
    let mut count = 0usize;
    generate_permutations(&mut arr, 4, &mut out, &mut count);
    assert_eq!(arr, [3, 0, 1, 2]);
    assert_eq!(count, 24);
}
