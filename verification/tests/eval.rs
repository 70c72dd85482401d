use rpn::{EvalError, RpnCalculator};

#[test]
fn test_ok() {
    let calc = RpnCalculator::new(false);
    assert_eq!(calc.eval("5").unwrap(), 5);
    assert_eq!(calc.eval("50").unwrap(), 50);
    assert_eq!(calc.eval("-50").unwrap(), -50);

    assert_eq!(calc.eval("2 3 +").unwrap(), 5);
    assert_eq!(calc.eval("2 3 *").unwrap(), 6);
    assert_eq!(calc.eval("2 3 -").unwrap(), -1);
    assert_eq!(calc.eval("2 3 /").unwrap(), 0);
    assert_eq!(calc.eval("2 3 %").unwrap(), 2);
}

#[test]
fn single_integers() {
    let calc = RpnCalculator::new(false);
    assert_eq!(calc.eval("0"), Ok(0));
    assert_eq!(calc.eval("+5"), Ok(5));
    assert_eq!(calc.eval("007"), Ok(7));
    assert_eq!(calc.eval("2147483647"), Ok(2147483647));
    assert_eq!(calc.eval("-2147483648"), Ok(-2147483648));
    assert_eq!(calc.eval("  42  "), Ok(42));
    assert_eq!(calc.eval("\t13\n"), Ok(13));
}

#[test]
fn invalid_token_reports_position() {
    let calc = RpnCalculator::new(false);
    assert_eq!(calc.eval("1 1 ^"), Err(EvalError::InvalidToken { position: 3 }));
    assert_eq!(calc.eval("1 2 3 4 foo"), Err(EvalError::InvalidToken { position: 5 }));
}

#[test]
fn stack_underflow() {
    let calc = RpnCalculator::new(false);
    assert_eq!(calc.eval("1 +"), Err(EvalError::StackUnderflow));
    assert_eq!(calc.eval("+"), Err(EvalError::StackUnderflow));
    // An out-of-range literal is no integer token; it is tried as an
    // operator and finds an empty stack.
    assert_eq!(calc.eval("2147483648"), Err(EvalError::StackUnderflow));
    // The underflow is noticed before the token is found invalid.
    assert_eq!(calc.eval("1 ^"), Err(EvalError::StackUnderflow));
}

#[test]
fn invalid_syntax() {
    let calc = RpnCalculator::new(false);
    assert_eq!(calc.eval("1 2"), Err(EvalError::InvalidSyntax));
    assert_eq!(calc.eval(""), Err(EvalError::InvalidSyntax));
    assert_eq!(calc.eval("   "), Err(EvalError::InvalidSyntax));
    assert_eq!(calc.eval("1 2 3 +"), Err(EvalError::InvalidSyntax));
}

#[test]
fn division_by_zero() {
    let calc = RpnCalculator::new(false);
    assert_eq!(calc.eval("1 0 /"), Err(EvalError::DivisionByZero));
    assert_eq!(calc.eval("1 0 %"), Err(EvalError::DivisionByZero));
}

#[test]
fn repeated_evaluation_agrees() {
    let calc = RpnCalculator::new(false);
    let first = calc.eval("2 3 + 4 *");
    let second = calc.eval("2 3 + 4 *");
    assert_eq!(first, Ok(20));
    assert_eq!(first, second);
    let other = RpnCalculator::new(true);
    assert_eq!(other.eval("2 3 + 4 *"), first);
}

#[test]
fn longer_expressions() {
    let calc = RpnCalculator::new(false);
    assert_eq!(calc.eval("1 2 + 3 4 + *"), Ok(21));
    assert_eq!(calc.eval("5 1 2 + 4 * + 3 -"), Ok(14));
    assert_eq!(calc.eval("10 2 8 * + 3 -"), Ok(23));
}

#[test]
fn truncating_division_signs() {
    let calc = RpnCalculator::new(false);
    assert_eq!(calc.eval("-7 2 /"), Ok(-3));
    assert_eq!(calc.eval("7 -2 /"), Ok(-3));
    assert_eq!(calc.eval("-7 -2 /"), Ok(3));
    assert_eq!(calc.eval("-7 2 %"), Ok(-1));
    assert_eq!(calc.eval("7 -2 %"), Ok(1));
    assert_eq!(calc.eval("-7 -2 %"), Ok(-1));
}

#[test]
fn unicode_whitespace_separates_tokens() {
    let calc = RpnCalculator::new(false);
    assert_eq!(calc.eval("1\u{a0}1 +"), Ok(2));
    assert_eq!(calc.eval("2\u{3000}3 *"), Ok(6));
    assert_eq!(calc.eval("\u{2028}7\u{205f}"), Ok(7));
    assert_eq!(calc.eval("\u{85}\u{1680}\u{2000}"), Err(EvalError::InvalidSyntax));
}

#[test]
fn verbose_trace_snapshots() {
    let calc = RpnCalculator::new(true);
    let (result, trace) = calc.eval_trace("2 3 +");
    assert_eq!(result, Ok(5));
    assert_eq!(trace.len(), 3);
    assert_eq!(trace[0].stack, vec![2]);
    assert_eq!(trace[0].remaining, vec![vec!['3'], vec!['+']]);
    assert_eq!(trace[1].stack, vec![2, 3]);
    assert_eq!(trace[1].remaining, vec![vec!['+']]);
    assert_eq!(trace[2].stack, vec![5]);
    assert!(trace[2].remaining.is_empty());
}

#[test]
fn verbose_trace_stops_at_error() {
    let calc = RpnCalculator::new(true);
    let (result, trace) = calc.eval_trace("1 +");
    assert_eq!(result, Err(EvalError::StackUnderflow));
    assert_eq!(trace.len(), 1);
    assert_eq!(trace[0].stack, vec![1]);
    assert_eq!(trace[0].remaining, vec![vec!['+']]);

    let (result, trace) = calc.eval_trace("1 1 ^");
    assert_eq!(result, Err(EvalError::InvalidToken { position: 3 }));
    assert_eq!(trace.len(), 2);
    assert_eq!(trace[1].stack, vec![1, 1]);
}

#[test]
fn wrapping_arithmetic() {
    let calc = RpnCalculator::new(false);
    assert_eq!(calc.eval("2147483647 1 +"), Ok(-2147483648));
    assert_eq!(calc.eval("-2147483648 1 -"), Ok(2147483647));
    assert_eq!(calc.eval("65536 65536 *"), Ok(0));
    assert_eq!(calc.eval("-2147483648 -1 /"), Ok(-2147483648));
    assert_eq!(calc.eval("-2147483648 -1 %"), Ok(0));
}
