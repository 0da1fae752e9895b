use data_structures::sorts::{insertion_sort, quick_sort, randomized_quick_sort};

#[test]
fn test_quick_sort() {
    let mut a = vec![
        3, 4, 6, 8, 5, 9, 1, 2, 4, 2, 2, 3, 4, 5, 6, 3, 7, 8, 4, 3, 2, 5, 6, 6, 6, 3,
    ];
    quick_sort(&mut a);
    let expected = [
        1, 2, 2, 2, 2, 3, 3, 3, 3, 3, 4, 4, 4, 4, 5, 5, 5, 6, 6, 6, 6, 6, 7, 8, 8, 9,
    ];
    assert_eq!(&a[..], &expected);
}

#[test]
fn test_randomized_quick_sort() {
    let mut a = vec![
        3, 4, 6, 8, 5, 9, 1, 2, 4, 2, 2, 3, 4, 5, 6, 3, 7, 8, 4, 3, 2, 5, 6, 6, 6, 3,
    ];
    randomized_quick_sort(&mut a);
    let expected = [
        1, 2, 2, 2, 2, 3, 3, 3, 3, 3, 4, 4, 4, 4, 5, 5, 5, 6, 6, 6, 6, 6, 7, 8, 8, 9,
    ];
    assert_eq!(&a[..], &expected);
}

#[test]
fn test_insertion_sort() {
    let mut a = vec![
        2, 8, 6, 9, 4, 7, 8, 0, 3, 5, 6, 1, 8, 6, 2, 9, 6, 0, 2, 7, 3, 0, 1,
    ];
    let expected = [
        0, 0, 0, 1, 1, 2, 2, 2, 3, 3, 4, 5, 6, 6, 6, 6, 7, 7, 8, 8, 8, 9, 9,
    ];
    insertion_sort(&mut a);
    assert_eq!(&a[..], &expected);
}

#[test]
fn test_counting_sort() {
    let mut a = vec![
        2, 8, 6, 9, 4, 7, 8, 0, 3, 5, 6, 1, 8, 6, 2, 9, 6, 0, 2, 7, 3, 0, 1,
    ];
    let expected = [
        0, 0, 0, 1, 1, 2, 2, 2, 3, 3, 4, 5, 6, 6, 6, 6, 7, 7, 8, 8, 8, 9, 9,
    ];
    data_structures::sorts::counting_sort(&mut a, 10);
    assert_eq!(&a[..], &expected);
}
