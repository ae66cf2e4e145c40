use bitmotif::sorting_network::{cswap, sort_network, sort_range, SortingNetwork};

#[test]
fn small_networks_sort() {
    let mut a = [3u32, 1, 2];
    a.network_sort();
    assert_eq!(a, [1, 2, 3]);
    let mut b = [4u32, 3, 2, 1];
    b.network_sort_slice();
    assert_eq!(b, [1, 2, 3, 4]);
    let mut c = [5u32, 1, 4, 2, 3];
    c.network_sort();
    assert_eq!(c, [1, 2, 3, 4, 5]);
    let mut d = [6u32, 5, 4, 3, 2, 1];
    d.network_sort();
    assert_eq!(d, [1, 2, 3, 4, 5, 6]);
    let mut e = [7u32, 1, 6, 2, 5, 3, 4];
    e.network_sort();
    assert_eq!(e, [1, 2, 3, 4, 5, 6, 7]);
    let mut f = [8u32, 7, 6, 5, 4, 3, 2, 1];
    f.network_sort();
    assert_eq!(f, [1, 2, 3, 4, 5, 6, 7, 8]);
}

#[test]
fn network_of_ten_misses_some_inputs() {
    let mut a = [0u32, 1, 2, 3, 4, 5, 6, 9, 7, 8];
    a.network_sort();
    assert_eq!(a, [0, 1, 2, 3, 4, 5, 6, 7, 9, 8]);
    let mut b = [9u32, 8, 7, 6, 5, 4, 3, 2, 1, 0];
    b.network_sort();
    assert_eq!(b, [0, 1, 2, 3, 4, 6, 8, 7, 9, 5]);
}

#[test]
fn network_of_nine_misses_some_inputs() {
    let mut a = [0u32, 1, 2, 3, 4, 6, 5, 7, 8];
    a.network_sort();
    assert_eq!(a, [0, 1, 2, 3, 4, 6, 5, 7, 8]);
}

#[test]
fn sort_network_on_lists() {
    let mut v = vec![5u32, 3, 9, 1, 1, 0, 7, 2, 8, 6, 4, 3];
    sort_network(&mut v);
    assert_eq!(v, vec![0, 1, 1, 2, 3, 3, 4, 5, 6, 7, 8, 9]);
    let mut w = vec![0u32, 1, 2, 3, 4, 5, 6, 9, 7, 8];
    sort_network(&mut w);
    assert_eq!(w, vec![0, 1, 2, 3, 4, 5, 6, 7, 9, 8]);
}

#[test]
fn compare_swap_and_range_sort() {
    let mut v = vec![4u32, 2, 9, 1];
    cswap(&mut v, 0, 1);
    assert_eq!(v, vec![2, 4, 9, 1]);
    cswap(&mut v, 0, 1);
    assert_eq!(v, vec![2, 4, 9, 1]);
    sort_range(&mut v, 1, 4);
    assert_eq!(v, vec![2, 1, 4, 9]);
}
