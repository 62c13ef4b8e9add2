use bit::utils::math_eval::eval_expression;


#[test]
fn test_simple_number() {
    assert_eq!(eval_expression("42").unwrap(), 42);
    assert_eq!(eval_expression("0").unwrap(), 0);
    assert_eq!(eval_expression("1000").unwrap(), 1000);
}

#[test]
fn test_addition() {
    assert_eq!(eval_expression("2+3").unwrap(), 5);
    assert_eq!(eval_expression("10+20+30").unwrap(), 60);
}

#[test]
fn test_subtraction() {
    assert_eq!(eval_expression("10-3").unwrap(), 7);
    assert_eq!(eval_expression("100-50-25").unwrap(), 25);
}

#[test]
fn test_multiplication() {
    assert_eq!(eval_expression("8*8").unwrap(), 64);
    assert_eq!(eval_expression("3*4*2").unwrap(), 24);
}

#[test]
fn test_division() {
    assert_eq!(eval_expression("64/8").unwrap(), 8);
    assert_eq!(eval_expression("100/5/2").unwrap(), 10);
}

#[test]
fn test_order_of_operations() {
    assert_eq!(eval_expression("2+3*4").unwrap(), 14);
    assert_eq!(eval_expression("10-6/2").unwrap(), 7);
    assert_eq!(eval_expression("2*3+4*5").unwrap(), 26);
}

#[test]
fn test_complex_expression() {
    assert_eq!(eval_expression("100+20*3-10/2").unwrap(), 155);
    assert_eq!(eval_expression("8*8+16").unwrap(), 80);
}

#[test]
fn test_with_spaces() {
    assert_eq!(eval_expression("8 * 8").unwrap(), 64);
    assert_eq!(eval_expression("10 + 20 - 5").unwrap(), 25);
}

#[test]
fn test_division_by_zero() {
    assert!(eval_expression("10/0").is_err());
}

#[test]
fn test_negative_result() {
    assert!(eval_expression("5-10").is_err());
}

#[test]
fn test_invalid_expression() {
    assert!(eval_expression("++5").is_err());
    assert!(eval_expression("5+").is_err());
    assert!(eval_expression("*5").is_err());
    assert!(eval_expression("abc").is_err());
}
