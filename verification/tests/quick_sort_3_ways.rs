use the_algorithms::quick_sort_3_ways;

fn is_sorted<T: Ord>(arr: &[T]) -> bool {
    arr.windows(2).all(|w| w[0] <= w[1])
}

fn have_same_elements<T: Ord + Clone>(a: &[T], b: &[T]) -> bool {
    let mut x: Vec<T> = a.to_vec();
    let mut y: Vec<T> = b.to_vec();
    x.sort();
    y.sort();
    x == y
}

#[test]
fn basic() {
    let mut res = vec![10, 8, 4, 3, 1, 9, 2, 7, 5, 6];
    let cloned = res.clone();
    quick_sort_3_ways(&mut res);
    assert!(is_sorted(&res) && have_same_elements(&res, &cloned));
}

#[test]
fn basic_string() {
    let mut res = vec!["a", "bb", "d", "cc"];
    let cloned = res.clone();
    quick_sort_3_ways(&mut res);
    assert!(is_sorted(&res) && have_same_elements(&res, &cloned));
}

#[test]
fn quick_sort_3_ways_empty() {
    let mut res = Vec::<u8>::new();
    let cloned = res.clone();
    quick_sort_3_ways(&mut res);
    assert!(is_sorted(&res) && have_same_elements(&res, &cloned));
}

#[test]
fn one_element() {
    let mut res = vec![1];
    let cloned = res.clone();
    quick_sort_3_ways(&mut res);
    assert!(is_sorted(&res) && have_same_elements(&res, &cloned));
}

#[test]
fn pre_sorted() {
    let mut res = vec![1, 2, 3, 4];
    let cloned = res.clone();
    quick_sort_3_ways(&mut res);
    assert!(is_sorted(&res) && have_same_elements(&res, &cloned));
}

#[test]
fn reverse_sorted() {
    let mut res = vec![4, 3, 2, 1];
    let cloned = res.clone();
    quick_sort_3_ways(&mut res);
    assert!(is_sorted(&res) && have_same_elements(&res, &cloned));
}

#[test]
fn repeated_elements() {
    let mut res = vec![2, 1, 1, 1, 1, 1, 1, 2, 2, 2, 2];
    let cloned = res.clone();
    quick_sort_3_ways(&mut res);
    assert!(is_sorted(&res) && have_same_elements(&res, &cloned));
}
