use bf_toolkit::to_zero;

#[test]
fn test_produces_one_value() {
    let test = vec![-10];
    let result = to_zero(&test);
    assert_eq!(result, Some(-10));
}

#[test]
fn test_produces_smallest_positive() {
    let test = vec![5, 2, 8, 4, 7, 1];
    let result = to_zero(&test);
    assert_eq!(result, Some(1));
}

#[test]
fn test_produces_no_result() {
    let test = vec![];
    let result = to_zero(&test);
    assert_eq!(result, None);
}

#[test]
fn test_produces_greatest_negative() {
    let test = vec![-5, -2, -8, -4, -7, -1];
    let result = to_zero(&test);
    assert_eq!(result, Some(-1));
}

#[test]
fn test_produces_negative() {
    let test = vec![5, 2, 8, 4, 7, -1];
    let result = to_zero(&test);
    assert_eq!(result, Some(-1));
}

#[test]
fn test_produces_positive() {
    let test = vec![-5, -2, -8, -4, -7, 1];
    let result = to_zero(&test);
    assert_eq!(result, Some(1));
}

#[test]
fn test_favor_positive() {
    let test1 = vec![5, -2, 8, 4, 7, 2];
    let test2 = vec![5, 2, 8, 4, 7, -2];
    let result1 = to_zero(&test1);
    let result2 = to_zero(&test2);
    assert_eq!(result1, Some(2));
    assert_eq!(result2, Some(2));
}

#[test]
fn extreme_values() {
    assert_eq!(to_zero(&vec![i32::MIN]), Some(i32::MIN));
    assert_eq!(to_zero(&vec![i32::MIN + 1, i32::MAX]), Some(i32::MAX));
    assert_eq!(to_zero(&vec![i32::MIN, i32::MAX]), Some(i32::MAX));
    assert_eq!(to_zero(&vec![3, 0, -3]), Some(0));
}
