use analyzer::samples::{
    if_else, linear_sequence, loop_with_break, match_three, multiple_returns, nested_if, nested_loops,
    short_circuit, simple_loop, trivial,
};

#[test]
fn sample_functions_compute() {
    assert_eq!(trivial(41), 42);
    assert_eq!(linear_sequence(5), 12);
    assert_eq!(if_else(4), 8);
    assert_eq!(if_else(-4), 4);
    assert_eq!(nested_if(2, 3), 5);
    assert_eq!(nested_if(2, -3), 5);
    assert_eq!(nested_if(-2, 3), 5);
    assert_eq!(nested_if(-2, -3), 5);
    assert_eq!(simple_loop(0), 0);
    assert_eq!(simple_loop(5), 10);
    assert_eq!(match_three(0), "zero");
    assert_eq!(match_three(1), "one");
    assert_eq!(match_three(200), "many");
    assert_eq!(loop_with_break(&[3, 0, -2, -5]), Some(-2));
    assert_eq!(loop_with_break(&[1, 2]), None);
    assert_eq!(loop_with_break(&[]), None);
    assert_eq!(nested_loops(3, 4), 12);
    assert_eq!(nested_loops(0, 9), 0);
    assert_eq!(multiple_returns(-7), -1);
    assert_eq!(multiple_returns(0), 0);
    assert_eq!(multiple_returns(9), 1);
    assert!(short_circuit(true, true, false));
    assert!(!short_circuit(true, false, false));
    assert!(short_circuit(false, false, true));
}
