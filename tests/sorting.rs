use bf_toolkit::{bubble_sort, insertion_sort, selection_sort};

#[test]
fn test_insertion_sort() {
    let mut a = vec![4, 2, 10, 5, 0, 6, 2, 12, 2, 1, 6];
    insertion_sort(&mut a);
    assert_eq!(a, vec![0, 1, 2, 2, 2, 4, 5, 6, 6, 10, 12]);
}

#[test]
fn test_selection_sort() {
    let mut a = vec![4, 2, 10, 5, 0, 6, 2, 12, 2, 1, 6];
    selection_sort(&mut a);
    assert_eq!(a, vec![0, 1, 2, 2, 2, 4, 5, 6, 6, 10, 12]);
}

#[test]
fn test_bubble_sort() {
    let mut a = vec![4, 2, 10, 5, 0, 6, 2, 12, 2, 1, 6];
    bubble_sort(&mut a);
    assert_eq!(a, vec![0, 1, 2, 2, 2, 4, 5, 6, 6, 10, 12]);
}

#[test]
fn sorts_of_empty_single_and_reversed() {
    let sorts: [fn(&mut Vec<i32>); 3] = [insertion_sort, selection_sort, bubble_sort];
    for sort in sorts {
        let mut e: Vec<i32> = vec![];
        sort(&mut e);
        assert_eq!(e, vec![]);
        let mut one = vec![7];
        sort(&mut one);
        assert_eq!(one, vec![7]);
        let mut r = vec![3, -1, i32::MAX, 2, i32::MIN, 0];
        sort(&mut r);
        assert_eq!(r, vec![i32::MIN, -1, 0, 2, 3, i32::MAX]);
    }
}
