use pathtrace::arith;

#[test]
fn add_sums() {
    assert_eq!(arith::add(2, 3), 5);
    assert_eq!(arith::add(-7, 7), 0);
    assert_eq!(arith::add(i32::MAX, 0), i32::MAX);
}

#[test]
fn fma_multiplies_then_adds() {
    assert_eq!(arith::fma(3, 4, 5), 17);
    assert_eq!(arith::fma(-2, 6, 1), -11);
    assert_eq!(arith::fma(0, 9, -4), -4);
}
