use graphing_calculator::derivative_solver::factorial;

#[test]
fn factorials() {
    assert_eq!(factorial(0), 1);
    assert_eq!(factorial(1), 1);
    assert_eq!(factorial(5), 120);
    assert_eq!(factorial(12), 479_001_600);
    assert_eq!(factorial(-3), 1);
}
