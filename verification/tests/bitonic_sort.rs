use the_algorithms::bitonic_sort;

#[test]
fn descending() {
    //descending
    let mut ve1 = vec![6, 5, 4, 3];
    bitonic_sort(&mut ve1, 0, 4, 1);
    for i in 0..ve1.len() - 1 {
        assert!(ve1[i] <= ve1[i + 1]);
    }
}

#[test]
fn ascending() {
    //pre-sorted
    let mut ve2 = vec![1, 2, 3, 4];
    bitonic_sort(&mut ve2, 0, 4, 0);
    for i in 0..ve2.len() - 1 {
        assert!(ve2[i] >= ve2[i + 1]);
    }
}

#[test]
fn eight_elements_ascending() {
    let mut v = vec![7, 3, 5, 8, 1, 2, 6, 4];
    bitonic_sort(&mut v, 0, 8, 1);
    assert_eq!(v, vec![1, 2, 3, 4, 5, 6, 7, 8]);
}
