use rpn_calc::{EvalError, RenderError, RpnCalculator};

#[test]
fn test_rpn_ok() {
    let calc = RpnCalculator::new();
    assert_eq!(calc.eval(&vec!["5"]).unwrap(), 5);
    assert_eq!(calc.eval(&vec!["50"]).unwrap(), 50);
    assert_eq!(calc.eval(&vec!["-50"]).unwrap(), -50);

    assert_eq!(calc.eval(&vec!["2", "3", "+"]).unwrap(), 5);
    assert_eq!(calc.eval(&vec!["2", "3", "*"]).unwrap(), 6);
    assert_eq!(calc.eval(&vec!["2", "3", "-"]).unwrap(), -1);
    assert_eq!(calc.eval(&vec!["2", "3", "/"]).unwrap(), 0);
    assert_eq!(calc.eval(&vec!["2", "3", "%"]).unwrap(), 2);
    assert_eq!(
        calc.eval(&vec!["1", "2", "+", "3", "4", "+", "*"]).unwrap(),
        21
    );
    assert_eq!(
        calc.eval(&vec!["4", "3", "1", "/", "*", "2", "-"]).unwrap(),
        10
    );
}

#[test]
fn test_rpn_ng() {
    let calc = RpnCalculator::new();
    assert!(calc.eval(&vec!["1", "1"]).is_err());
    assert!(calc.eval(&vec!["1", "1", "^"]).is_err());
    assert!(calc.eval(&vec!["1", "1", "-", "+"]).is_err());
    assert!(calc.eval(&vec!["9223372036854775808"]).is_err());
    assert!(calc.eval(&vec!["9223372036854775807", "1", "+"]).is_err());
    assert!(calc.eval(&vec!["-9223372036854775808", "1", "-"]).is_err());
    assert!(calc.eval(&vec!["9223372036854775807", "2", "*"]).is_err());
    assert!(calc.eval(&vec!["-9223372036854775808", "-1", "/"]).is_err());
    assert!(calc.eval(&vec!["100", "-1", "%"]).is_err());
}

#[test]
fn test_rpn_to_infix() {
    {
        let calc = RpnCalculator::new();
        let rpn = vec!["4", "3", "1", "/", "*", "2", "-"].join(" ");
        let infix = calc.rpn_to_infix(rpn);
        assert_eq!(infix.unwrap(), "4 * 3 / 1 - 2".to_string());
    }
    {
        let calc = RpnCalculator::new();
        let rpn = vec!["6", "1", "-", "1", "1", "+", "*"].join(" ");
        let infix = calc.rpn_to_infix(rpn);
        assert_eq!(infix.unwrap(), "(6 - 1) * (1 + 1)".to_string());
    }
}

#[test]
fn literal_round_trip_at_the_bounds() {
    let calc = RpnCalculator::new();
    for n in [i64::MIN, i64::MIN + 1, -1, 0, 1, 7, i64::MAX] {
        let text = n.to_string();
        assert_eq!(calc.eval(&vec![text.as_str()]), Ok(n));
    }
    assert_eq!(calc.eval(&vec!["-0"]), Ok(0));
    assert_eq!(calc.eval(&vec!["007"]), Ok(7));
}

#[test]
fn overflow_at_the_boundaries() {
    let calc = RpnCalculator::new();
    assert_eq!(
        calc.eval(&vec!["9223372036854775808"]),
        Err(EvalError::InsufficientOperands(1))
    );
    assert_eq!(
        calc.eval(&vec!["-9223372036854775809"]),
        Err(EvalError::InsufficientOperands(1))
    );
    assert_eq!(
        calc.eval(&vec!["9223372036854775807", "1", "+"]),
        Err(EvalError::Overflow)
    );
    assert_eq!(
        calc.eval(&vec!["-9223372036854775808", "1", "-"]),
        Err(EvalError::Overflow)
    );
    assert_eq!(
        calc.eval(&vec!["9223372036854775807", "2", "*"]),
        Err(EvalError::Overflow)
    );
    assert_eq!(
        calc.eval(&vec!["-9223372036854775808", "-1", "/"]),
        Err(EvalError::Overflow)
    );
    assert_eq!(
        calc.eval(&vec!["9223372036854775806", "1", "+"]),
        Ok(i64::MAX)
    );
    assert_eq!(
        calc.eval(&vec!["-1", "-9223372036854775808", "/"]),
        Ok(0)
    );
}

#[test]
fn division_and_remainder_truncate_toward_zero() {
    let calc = RpnCalculator::new();
    assert_eq!(calc.eval(&vec!["-7", "2", "/"]), Ok(-3));
    assert_eq!(calc.eval(&vec!["7", "-2", "/"]), Ok(-3));
    assert_eq!(calc.eval(&vec!["-7", "-2", "/"]), Ok(3));
    assert_eq!(calc.eval(&vec!["-7", "2", "%"]), Ok(-1));
    assert_eq!(calc.eval(&vec!["7", "2", "%"]), Ok(1));
}

#[test]
fn division_domain_errors() {
    let calc = RpnCalculator::new();
    assert_eq!(
        calc.eval(&vec!["1", "0", "/"]),
        Err(EvalError::DivisionByZero)
    );
    assert_eq!(
        calc.eval(&vec!["1", "0", "%"]),
        Err(EvalError::DivisionByNonPositiveModulus)
    );
    assert_eq!(
        calc.eval(&vec!["100", "-1", "%"]),
        Err(EvalError::DivisionByNonPositiveModulus)
    );
}

#[test]
fn operator_without_two_operands() {
    let calc = RpnCalculator::new();
    assert_eq!(
        calc.eval(&vec!["+"]),
        Err(EvalError::InsufficientOperands(1))
    );
    assert_eq!(
        calc.eval(&vec!["1", "*"]),
        Err(EvalError::InsufficientOperands(2))
    );
    assert_eq!(
        calc.eval(&vec!["1", "1", "-", "+"]),
        Err(EvalError::InsufficientOperands(4))
    );
}

#[test]
fn invalid_token_reports_its_position() {
    let calc = RpnCalculator::new();
    assert_eq!(
        calc.eval(&vec!["1", "1", "^"]),
        Err(EvalError::InvalidToken(3))
    );
    assert_eq!(
        calc.eval(&vec!["1", "2", "3", "x", "+"]),
        Err(EvalError::InvalidToken(4))
    );
    assert_eq!(
        calc.eval(&vec!["1", "2", "++"]),
        Err(EvalError::InvalidToken(3))
    );
    assert_eq!(
        calc.eval(&vec!["1", "2", ""]),
        Err(EvalError::InvalidToken(3))
    );
    assert_eq!(
        calc.eval(&vec!["1", "2", "+5"]),
        Err(EvalError::InvalidToken(3))
    );
}

#[test]
fn final_stack_must_hold_one_value() {
    let calc = RpnCalculator::new();
    assert_eq!(calc.eval(&vec![]), Err(EvalError::MalformedResult));
    assert_eq!(calc.eval(&vec!["1", "1"]), Err(EvalError::MalformedResult));
    assert_eq!(
        calc.eval(&vec!["1", "2", "3", "+"]),
        Err(EvalError::MalformedResult)
    );
    assert_eq!(
        calc.rpn_to_infix("1 2".to_string()),
        Err(RenderError::MalformedResult)
    );
}

#[test]
fn eval_token_by_token() {
    let calc = RpnCalculator::with_trace(true);
    assert!(calc.is_tracing());
    assert!(!RpnCalculator::new().is_tracing());
    let mut stack: Vec<i64> = Vec::new();
    assert_eq!(calc.eval_token(&mut stack, "6", 1), Ok(()));
    assert_eq!(calc.eval_token(&mut stack, "4", 2), Ok(()));
    assert_eq!(stack, vec![6, 4]);
    assert_eq!(calc.eval_token(&mut stack, "-", 3), Ok(()));
    assert_eq!(stack, vec![2]);
    assert_eq!(calc.final_value(&stack), Ok(2));
    assert_eq!(
        calc.eval_token(&mut stack, "*", 4),
        Err(EvalError::InsufficientOperands(4))
    );
    assert_eq!(calc.eval(&vec!["6", "4", "-"]), Ok(2));
}

#[test]
fn infix_keeps_plus_and_minus_unparenthesized() {
    let calc = RpnCalculator::new();
    assert_eq!(calc.rpn_to_infix("1 2 +".to_string()), Ok("1 + 2".to_string()));
    assert_eq!(
        calc.rpn_to_infix("1 2 - 3 4 - -".to_string()),
        Ok("1 - 2 - 3 - 4".to_string())
    );
    assert_eq!(calc.rpn_to_infix("42".to_string()), Ok("42".to_string()));
}

#[test]
fn infix_parenthesizes_under_mul_and_div() {
    let calc = RpnCalculator::new();
    assert_eq!(
        calc.rpn_to_infix("1 2 3 - *".to_string()),
        Ok("1 * (2 - 3)".to_string())
    );
    assert_eq!(
        calc.rpn_to_infix("1 2 + 3 * 4 *".to_string()),
        Ok("(1 + 2) * 3 * 4".to_string())
    );
    assert_eq!(
        calc.rpn_to_infix("1 2 + 3 * 4 + 5 *".to_string()),
        Ok("((1 + 2) * 3 + 4) * 5".to_string())
    );
    assert_eq!(
        calc.rpn_to_infix("-1 2 /".to_string()),
        Ok("(-1) / 2".to_string())
    );
}

#[test]
fn infix_reports_zero_based_positions() {
    let calc = RpnCalculator::new();
    assert_eq!(
        calc.rpn_to_infix("".to_string()),
        Err(RenderError::InsufficientOperands(0))
    );
    assert_eq!(
        calc.rpn_to_infix("1 +".to_string()),
        Err(RenderError::InsufficientOperands(1))
    );
    assert_eq!(
        calc.rpn_to_infix("1  2 +".to_string()),
        Err(RenderError::InsufficientOperands(1))
    );
}

#[test]
fn infix_rejects_invalid_tokens() {
    let calc = RpnCalculator::new();
    assert_eq!(
        calc.rpn_to_infix("1 2 ^".to_string()),
        Err(RenderError::InvalidToken(2))
    );
    assert_eq!(
        calc.rpn_to_infix("1 2  +".to_string()),
        Err(RenderError::InvalidToken(2))
    );
    assert_eq!(
        calc.rpn_to_infix("1 2 3 x +".to_string()),
        Err(RenderError::InvalidToken(3))
    );
    assert_eq!(
        calc.rpn_to_infix("x".to_string()),
        Err(RenderError::InsufficientOperands(0))
    );
}
