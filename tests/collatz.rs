use bf_toolkit::{collatz, par_steps_sum, steps, steps_sum};

#[test]
fn test_collatz() {
    assert_eq!(collatz(1), 4);
    assert_eq!(collatz(2), 1);
    assert_eq!(collatz(3), 10);
    assert_eq!(collatz(4), 2);
    assert_eq!(collatz(5), 16);
}

#[test]
fn test_steps() {
    assert_eq!(steps(1), 0);
    assert_eq!(steps(2), 1);
    assert_eq!(steps(3), 7);
    assert_eq!(steps(4), 2);
    assert_eq!(steps(5), 5);
    assert_eq!(steps(6), 8);
    assert_eq!(steps(7), 16);
}

#[test]
fn test_steps_sum() {
    assert_eq!(steps_sum(1, 7), 39);
}

#[test]
fn test_par_steps_sum() {
    assert_eq!(par_steps_sum(1, 7), 39);
}

#[test]
fn sums_agree_on_a_longer_range() {
    assert_eq!(steps(27), 111);
    assert_eq!(steps_sum(1, 1000), par_steps_sum(1, 1000));
    assert_eq!(steps_sum(26, 27), 10 + 111);
}

#[test]
fn collatz_of_large_even_halves() {
    assert_eq!(collatz(u64::MAX - 1), u64::MAX / 2);
}
