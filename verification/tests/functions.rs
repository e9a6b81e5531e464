use regex_engine::functions::fibonacci_n;

#[test]
fn tenth_fibonacci_number() {
    assert_eq!(fibonacci_n(10), 89);
}

#[test]
fn fibonacci_numbers_at_the_edges() {
    assert_eq!(fibonacci_n(0), 1);
    assert_eq!(fibonacci_n(-3), 1);
    assert_eq!(fibonacci_n(1), 1);
    assert_eq!(fibonacci_n(2), 2);
    assert_eq!(fibonacci_n(45), 1836311903);
}
