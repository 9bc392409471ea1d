use mega_bench_reporter::canary::{fib, sum_squares};

#[test]
fn fib_counts_up_and_wraps() {
    let first: Vec<u64> = (0..10).map(fib).collect();
    assert_eq!(first, vec![0, 1, 1, 2, 3, 5, 8, 13, 21, 34]);
    assert_eq!(fib(93), 12_200_160_415_121_876_738);
    // The 94th is past 64 bits.
    assert_eq!(fib(94), 7_540_113_804_746_346_429u64.wrapping_add(12_200_160_415_121_876_738));
}

#[test]
fn squares_are_summed() {
    assert_eq!(sum_squares(0), 0);
    assert_eq!(sum_squares(1), 0);
    assert_eq!(sum_squares(5), 30);
    assert_eq!(sum_squares(101), 338_350);
}
